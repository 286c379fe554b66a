//! Model Context Protocol servers: how each is configured, how a connection
//! attempt is set up, how a tool result becomes the text the model reads, and
//! the bookkeeping that decides which connections to open, keep or drop as
//! the configured list changes.
//!
//! The connections themselves (child processes, HTTP sessions) live outside
//! this library; [`McpManager`] records what is known of them and tells the
//! caller what to open and what to drop.

use vstd::prelude::*;

use crate::text::{join_texts, joined, owned, push_str, text_lt, texts_view};
use crate::tools::{
    exposed_name, exposed_name_of, lemma_exposed_name_free, names_view, truncate, truncated,
    MAX_OUTPUT_BYTES,
};

verus! {

/// How a server is reached.
#[derive(Clone, Copy, Debug, PartialEq, Eq, Structural)]
pub enum McpTransport {
    /// A local server launched as a child process, spoken to over stdio.
    Stdio,
    /// A remote server reached over the Streamable HTTP transport.
    Http,
}

/// A configured MCP server. Only the fields relevant to the chosen
/// `transport` are used; the others keep their values so a server can be
/// switched between transports without losing data.
///
/// `env` holds the child's extra environment as (key, value) pairs in
/// strictly ascending key order, so each key occurs once.
pub struct McpServerConfig {
    /// Unique, user-facing identifier (also the label shown in settings).
    pub name: String,
    /// Whether to connect and forward this server's tools to the model.
    pub enabled: bool,
    pub transport: McpTransport,
    /// stdio: the executable to launch.
    pub command: String,
    /// stdio: arguments passed to `command`.
    pub args: Vec<String>,
    /// stdio: extra environment variables for the child process.
    pub env: Vec<(String, String)>,
    /// http: the server endpoint.
    pub url: String,
    /// http: bearer token; empty means no auth header.
    pub auth_token: String,
}

/// The contents of a [`McpServerConfig`].
pub struct McpServerConfigView {
    pub name: Seq<char>,
    pub enabled: bool,
    pub transport: McpTransport,
    pub command: Seq<char>,
    pub args: Seq<Seq<char>>,
    pub env: Seq<(Seq<char>, Seq<char>)>,
    pub url: Seq<char>,
    pub auth_token: Seq<char>,
}

pub open spec fn pairs_view(v: Seq<(String, String)>) -> Seq<(Seq<char>, Seq<char>)> {
    v.map_values(|p: (String, String)| (p.0@, p.1@))
}

impl View for McpServerConfig {
    type V = McpServerConfigView;

    open spec fn view(&self) -> McpServerConfigView {
        McpServerConfigView {
            name: self.name@,
            enabled: self.enabled,
            transport: self.transport,
            command: self.command@,
            args: texts_view(self.args@),
            env: pairs_view(self.env@),
            url: self.url@,
            auth_token: self.auth_token@,
        }
    }
}

/// An environment listing: keys strictly ascending, so each occurs once.
pub open spec fn env_sorted(env: Seq<(Seq<char>, Seq<char>)>) -> bool {
    forall|i: int, j: int| 0 <= i < j < env.len() ==> text_lt(#[trigger] env[i].0, #[trigger] env[j].0)
}

impl McpServerConfig {
    /// The configuration is well formed: its environment is a proper map.
    pub open spec fn wf(&self) -> bool {
        env_sorted(self@.env)
    }
}

fn copy_texts(v: &Vec<String>) -> (r: Vec<String>)
    ensures
        texts_view(r@) == texts_view(v@),
{
    let mut r: Vec<String> = Vec::new();
    let mut i: usize = 0;
    while i < v.len()
        invariant
            i <= v.len(),
            texts_view(r@) == texts_view(v@).take(i as int),
        decreases v.len() - i,
    {
        let ghost before = r@;
        r.push(owned(v[i].as_str()));
        assert(texts_view(r@) =~= texts_view(before).push(v@[i as int]@));
        assert(texts_view(v@).take(i + 1) =~= texts_view(v@).take(i as int).push(v@[i as int]@));
        i = i + 1;
    }
    assert(texts_view(v@).take(v.len() as int) =~= texts_view(v@));
    r
}

fn copy_pairs(v: &Vec<(String, String)>) -> (r: Vec<(String, String)>)
    ensures
        pairs_view(r@) == pairs_view(v@),
{
    let mut r: Vec<(String, String)> = Vec::new();
    let mut i: usize = 0;
    while i < v.len()
        invariant
            i <= v.len(),
            pairs_view(r@) == pairs_view(v@).take(i as int),
        decreases v.len() - i,
    {
        let ghost before = r@;
        let k = owned(v[i].0.as_str());
        let x = owned(v[i].1.as_str());
        r.push((k, x));
        assert(pairs_view(r@) =~= pairs_view(before).push((v@[i as int].0@, v@[i as int].1@)));
        assert(pairs_view(v@).take(i + 1) =~= pairs_view(v@).take(i as int).push(
            (v@[i as int].0@, v@[i as int].1@),
        ));
        i = i + 1;
    }
    assert(pairs_view(v@).take(v.len() as int) =~= pairs_view(v@));
    r
}

impl Clone for McpServerConfig {
    fn clone(&self) -> (r: Self)
        ensures
            r@ == self@,
    {
        McpServerConfig {
            name: owned(self.name.as_str()),
            enabled: self.enabled,
            transport: self.transport,
            command: owned(self.command.as_str()),
            args: copy_texts(&self.args),
            env: copy_pairs(&self.env),
            url: owned(self.url.as_str()),
            auth_token: owned(self.auth_token.as_str()),
        }
    }
}

fn same_text(a: &str, b: &str) -> (r: bool)
    ensures
        r == (a@ == b@),
{
    let x = crate::text::chars_of(a);
    let y = crate::text::chars_of(b);
    crate::text::chars_eq(x.as_slice(), y.as_slice())
}

fn same_texts(a: &Vec<String>, b: &Vec<String>) -> (r: bool)
    ensures
        r == (texts_view(a@) == texts_view(b@)),
{
    if a.len() != b.len() {
        assert(texts_view(a@).len() != texts_view(b@).len());
        return false;
    }
    let mut i: usize = 0;
    while i < a.len()
        invariant
            i <= a.len(),
            a.len() == b.len(),
            forall|k: int| 0 <= k < i ==> a@[k]@ == b@[k]@,
        decreases a.len() - i,
    {
        if !same_text(a[i].as_str(), b[i].as_str()) {
            assert(texts_view(a@)[i as int] != texts_view(b@)[i as int]);
            return false;
        }
        i = i + 1;
    }
    assert(texts_view(a@) =~= texts_view(b@));
    true
}

fn same_pairs(a: &Vec<(String, String)>, b: &Vec<(String, String)>) -> (r: bool)
    ensures
        r == (pairs_view(a@) == pairs_view(b@)),
{
    if a.len() != b.len() {
        assert(pairs_view(a@).len() != pairs_view(b@).len());
        return false;
    }
    let mut i: usize = 0;
    while i < a.len()
        invariant
            i <= a.len(),
            a.len() == b.len(),
            forall|k: int| 0 <= k < i ==> a@[k].0@ == b@[k].0@ && a@[k].1@ == b@[k].1@,
        decreases a.len() - i,
    {
        if !same_text(a[i].0.as_str(), b[i].0.as_str()) || !same_text(a[i].1.as_str(), b[i].1.as_str()) {
            assert(pairs_view(a@)[i as int] != pairs_view(b@)[i as int]);
            return false;
        }
        i = i + 1;
    }
    assert(pairs_view(a@) =~= pairs_view(b@));
    true
}

/// Whether two configurations are identical in every field.
pub fn same_config(a: &McpServerConfig, b: &McpServerConfig) -> (r: bool)
    ensures
        r == (a@ == b@),
{
    same_text(a.name.as_str(), b.name.as_str()) && a.enabled == b.enabled && a.transport
        == b.transport && same_text(a.command.as_str(), b.command.as_str()) && same_texts(
        &a.args,
        &b.args,
    ) && same_pairs(&a.env, &b.env) && same_text(a.url.as_str(), b.url.as_str()) && same_text(
        a.auth_token.as_str(),
        b.auth_token.as_str(),
    )
}

// ---------------------------------------------------------------------------
// Connecting
// ---------------------------------------------------------------------------

/// What it takes to reach one server.
pub enum ConnectPlan {
    /// Launch `command` with `args` and the extra environment `env`.
    Launch { command: String, args: Vec<String>, env: Vec<(String, String)> },
    /// Speak Streamable HTTP to `url`, sending `auth` as bearer token if set.
    Remote { url: String, auth: Option<String> },
}

pub open spec fn connect_plan_of(c: McpServerConfigView) -> Result<ConnectPlanView, Seq<char>> {
    match c.transport {
        McpTransport::Stdio => if c.command.len() == 0 {
            Err("no command set for stdio server"@)
        } else {
            Ok(ConnectPlanView::Launch { command: c.command, args: c.args, env: c.env })
        },
        McpTransport::Http => if c.url.len() == 0 {
            Err("no URL set for HTTP server"@)
        } else {
            Ok(
                ConnectPlanView::Remote {
                    url: c.url,
                    auth: if c.auth_token.len() == 0 { None } else { Some(c.auth_token) },
                },
            )
        },
    }
}

/// The contents of a [`ConnectPlan`].
pub enum ConnectPlanView {
    Launch { command: Seq<char>, args: Seq<Seq<char>>, env: Seq<(Seq<char>, Seq<char>)> },
    Remote { url: Seq<char>, auth: Option<Seq<char>> },
}

impl View for ConnectPlan {
    type V = ConnectPlanView;

    open spec fn view(&self) -> ConnectPlanView {
        match self {
            ConnectPlan::Launch { command, args, env } => ConnectPlanView::Launch {
                command: command@,
                args: texts_view(args@),
                env: pairs_view(env@),
            },
            ConnectPlan::Remote { url, auth } => ConnectPlanView::Remote {
                url: url@,
                auth: match auth {
                    Some(a) => Some(a@),
                    None => None,
                },
            },
        }
    }
}

pub open spec fn plan_result_view(r: Result<ConnectPlan, String>) -> Result<ConnectPlanView, Seq<char>> {
    match r {
        Ok(p) => Ok(p@),
        Err(e) => Err(e@),
    }
}

/// Decide how to reach `config`, or why it cannot be reached at all.
pub fn connect_plan(config: &McpServerConfig) -> (r: Result<ConnectPlan, String>)
    ensures
        plan_result_view(r) == connect_plan_of(config@),
{
    match config.transport {
        McpTransport::Stdio => {
            if config.command.as_str().is_empty() {
                return Err(owned("no command set for stdio server"));
            }
            Ok(
                ConnectPlan::Launch {
                    command: owned(config.command.as_str()),
                    args: copy_texts(&config.args),
                    env: copy_pairs(&config.env),
                },
            )
        },
        McpTransport::Http => {
            if config.url.as_str().is_empty() {
                return Err(owned("no URL set for HTTP server"));
            }
            let auth = if config.auth_token.as_str().is_empty() {
                None
            } else {
                Some(owned(config.auth_token.as_str()))
            };
            Ok(ConnectPlan::Remote { url: owned(config.url.as_str()), auth })
        },
    }
}

// ---------------------------------------------------------------------------
// Tool results
// ---------------------------------------------------------------------------

/// A tool call's reply: its structured output (already rendered as JSON
/// text) if any, its content blocks (the text of each text block, `None` for
/// any other kind), and its error flag.
pub struct ToolOutput {
    pub structured: Option<String>,
    pub content: Vec<Option<String>>,
    pub is_error: Option<bool>,
}

pub open spec fn block_text(b: Option<String>) -> Seq<char> {
    match b {
        Some(t) => t@,
        None => "[non-text content omitted]"@,
    }
}

/// The text the model reads for a tool reply, before bounding its size.
pub open spec fn output_text(o: ToolOutput) -> Seq<char> {
    match o.structured {
        Some(s) => s@,
        None => joined(o.content@.map_values(|b: Option<String>| block_text(b)), "\n"@),
    }
}

pub open spec fn text_result(r: Result<String, String>) -> Result<Seq<char>, Seq<char>> {
    match r {
        Ok(s) => Ok(s@),
        Err(s) => Err(s@),
    }
}

/// Flatten a tool reply into the single string the model consumes:
/// structured output verbatim when present, otherwise the content blocks
/// joined by newlines (with a placeholder for non-text blocks), bounded in
/// size. A reply flagged as an error comes back as `Err`, so the model sees
/// the failure and the conversation goes on.
pub fn flatten_result(result: ToolOutput) -> (r: Result<String, String>)
    ensures
        text_result(r) == (if result.is_error == Some(true) {
            Err(truncated(output_text(result), MAX_OUTPUT_BYTES as int))
        } else {
            Ok(truncated(output_text(result), MAX_OUTPUT_BYTES as int))
        }),
{
    let mut text = match &result.structured {
        Some(s) => owned(s.as_str()),
        None => {
            let mut parts: Vec<String> = Vec::new();
            let mut i: usize = 0;
            while i < result.content.len()
                invariant
                    i <= result.content.len(),
                    texts_view(parts@) == result.content@.take(i as int).map_values(
                        |b: Option<String>| block_text(b),
                    ),
                decreases result.content.len() - i,
            {
                let ghost before = parts@;
                let piece = match &result.content[i] {
                    Some(t) => owned(t.as_str()),
                    None => owned("[non-text content omitted]"),
                };
                parts.push(piece);
                assert(texts_view(parts@) =~= texts_view(before).push(block_text(result.content@[i as int])));
                assert(result.content@.take(i + 1).map_values(|b: Option<String>| block_text(b))
                    =~= result.content@.take(i as int).map_values(|b: Option<String>| block_text(b)).push(
                    block_text(result.content@[i as int]),
                ));
                i = i + 1;
            }
            assert(result.content@.take(result.content.len() as int) =~= result.content@);
            join_texts(&parts, "\n")
        },
    };
    truncate(&mut text, MAX_OUTPUT_BYTES);
    if result.is_error == Some(true) {
        Err(text)
    } else {
        Ok(text)
    }
}

// ---------------------------------------------------------------------------
// Server status
// ---------------------------------------------------------------------------

/// Connection state of a single enabled server.
pub enum McpStatus {
    /// The connection/handshake is still in flight.
    Connecting,
    /// Connected; its tools are available.
    Ready,
    /// The connection or tool listing failed; the message is shown in settings.
    Error(String),
}

/// The contents of a [`McpStatus`].
pub enum McpStatusView {
    Connecting,
    Ready,
    Error(Seq<char>),
}

impl View for McpStatus {
    type V = McpStatusView;

    open spec fn view(&self) -> McpStatusView {
        match self {
            McpStatus::Connecting => McpStatusView::Connecting,
            McpStatus::Ready => McpStatusView::Ready,
            McpStatus::Error(m) => McpStatusView::Error(m@),
        }
    }
}

/// `serde_json::Value`, carried as an opaque value (a tool's input schema).
#[verifier::external_type_specification]
#[verifier::external_body]
pub struct ExJsonValue(serde_json::Value);

/// One MCP tool, flattened into the plain shape the rest of the app uses.
pub struct ToolMeta {
    /// Name of the server this tool belongs to (used to route calls).
    pub server: String,
    /// The tool's own name, as the server reports it.
    pub name: String,
    pub description: String,
    /// The tool's input JSON schema.
    pub input_schema: serde_json::Value,
}

/// A point-in-time view of one enabled server: its status and (when `Ready`)
/// the tools it exposes.
pub struct ServerState {
    pub name: String,
    pub status: McpStatus,
    pub tools: Vec<ToolMeta>,
}

/// The contents of a [`ServerState`].
pub struct ServerStateView {
    pub name: Seq<char>,
    pub status: McpStatusView,
    pub tools: Seq<ToolMeta>,
}

impl View for ServerState {
    type V = ServerStateView;

    open spec fn view(&self) -> ServerStateView {
        ServerStateView { name: self.name@, status: self.status@, tools: self.tools@ }
    }
}

pub open spec fn configs_view(s: Seq<McpServerConfig>) -> Seq<McpServerConfigView> {
    s.map_values(|c: McpServerConfig| c@)
}

pub open spec fn states_view(s: Seq<ServerState>) -> Seq<ServerStateView> {
    s.map_values(|x: ServerState| x@)
}

pub open spec fn config_names(s: Seq<McpServerConfigView>) -> Seq<Seq<char>> {
    s.map_values(|c: McpServerConfigView| c.name)
}

pub open spec fn state_names(s: Seq<ServerStateView>) -> Seq<Seq<char>> {
    s.map_values(|x: ServerStateView| x.name)
}

/// Position of the last occurrence of `name` in `names`, or -1.
pub open spec fn index_in(names: Seq<Seq<char>>, name: Seq<char>) -> int
    decreases names.len(),
{
    if names.len() == 0 {
        -1
    } else if names.last() == name {
        names.len() - 1
    } else {
        index_in(names.drop_last(), name)
    }
}

pub proof fn lemma_index_in(names: Seq<Seq<char>>, name: Seq<char>)
    ensures
        -1 <= index_in(names, name) < names.len(),
        index_in(names, name) >= 0 ==> names[index_in(names, name)] == name,
        forall|j: int| index_in(names, name) < j < names.len() ==> names[j] != name,
    decreases names.len(),
{
    if names.len() > 0 && names.last() != name {
        lemma_index_in(names.drop_last(), name);
        assert forall|j: int| index_in(names, name) < j < names.len() implies names[j] != name by {
            if j < names.len() - 1 {
                assert(names.drop_last()[j] == names[j]);
            }
        }
    }
}

/// The configuration named `name` in `s`, if any.
pub open spec fn config_for(s: Seq<McpServerConfigView>, name: Seq<char>) -> Option<McpServerConfigView> {
    let i = index_in(config_names(s), name);
    if i >= 0 {
        Some(s[i])
    } else {
        None
    }
}

/// `s` with `c` stored under its name: replacing the entry of that name, or
/// appended when there is none.
pub open spec fn put_config(s: Seq<McpServerConfigView>, c: McpServerConfigView) -> Seq<McpServerConfigView> {
    let i = index_in(config_names(s), c.name);
    if i >= 0 {
        s.update(i, c)
    } else {
        s.push(c)
    }
}

/// The servers a configured list asks for: the enabled ones with a name,
/// one entry per name (a later entry of the same name wins).
pub open spec fn desired_of(servers: Seq<McpServerConfigView>) -> Seq<McpServerConfigView>
    decreases servers.len(),
{
    if servers.len() == 0 {
        Seq::empty()
    } else {
        let prev = desired_of(servers.drop_last());
        let s = servers.last();
        if s.enabled && s.name.len() > 0 {
            put_config(prev, s)
        } else {
            prev
        }
    }
}

/// The live connections still wanted: those whose configuration is exactly
/// the one now desired under their name.
pub open spec fn kept_clients(clients: Seq<McpServerConfigView>, desired: Seq<McpServerConfigView>) -> Seq<
    McpServerConfigView,
>
    decreases clients.len(),
{
    if clients.len() == 0 {
        Seq::empty()
    } else {
        let prev = kept_clients(clients.drop_last(), desired);
        let c = clients.last();
        if config_for(desired, c.name) == Some(c) {
            prev.push(c)
        } else {
            prev
        }
    }
}

/// Names of the live connections that are no longer wanted.
pub open spec fn dropped_names(clients: Seq<McpServerConfigView>, desired: Seq<McpServerConfigView>) -> Seq<
    Seq<char>,
>
    decreases clients.len(),
{
    if clients.len() == 0 {
        Seq::empty()
    } else {
        let prev = dropped_names(clients.drop_last(), desired);
        let c = clients.last();
        if config_for(desired, c.name) == Some(c) {
            prev
        } else {
            prev.push(c.name)
        }
    }
}

/// The desired servers without a live connection, in order.
pub open spec fn to_connect(desired: Seq<McpServerConfigView>, clients: Seq<McpServerConfigView>) -> Seq<
    McpServerConfigView,
>
    decreases desired.len(),
{
    if desired.len() == 0 {
        Seq::empty()
    } else {
        let prev = to_connect(desired.drop_last(), clients);
        let d = desired.last();
        if index_in(config_names(clients), d.name) < 0 {
            prev.push(d)
        } else {
            prev
        }
    }
}

/// `snap` with the state of `name` set: replaced in place, or appended.
pub open spec fn upsert(snap: Seq<ServerStateView>, name: Seq<char>, status: McpStatusView, tools: Seq<ToolMeta>) -> Seq<
    ServerStateView,
> {
    let i = index_in(state_names(snap), name);
    let st = ServerStateView { name, status, tools };
    if i >= 0 {
        snap.update(i, st)
    } else {
        snap.push(st)
    }
}

/// `snap` with every server of `list` marked as connecting, in order.
pub open spec fn mark_connecting(snap: Seq<ServerStateView>, list: Seq<McpServerConfigView>) -> Seq<ServerStateView>
    decreases list.len(),
{
    if list.len() == 0 {
        snap
    } else {
        upsert(mark_connecting(snap, list.drop_last()), list.last().name, McpStatusView::Connecting, Seq::empty())
    }
}

/// The states of `snap` whose name occurs in `names`, in order.
pub open spec fn retain_named(snap: Seq<ServerStateView>, names: Seq<Seq<char>>) -> Seq<ServerStateView>
    decreases snap.len(),
{
    if snap.len() == 0 {
        Seq::empty()
    } else {
        let prev = retain_named(snap.drop_last(), names);
        if index_in(names, snap.last().name) >= 0 {
            prev.push(snap.last())
        } else {
            prev
        }
    }
}

/// `s` without its entries named `name`.
pub open spec fn without_name(s: Seq<McpServerConfigView>, name: Seq<char>) -> Seq<McpServerConfigView>
    decreases s.len(),
{
    if s.len() == 0 {
        Seq::empty()
    } else {
        let prev = without_name(s.drop_last(), name);
        if s.last().name == name {
            prev
        } else {
            prev.push(s.last())
        }
    }
}

// ---------------------------------------------------------------------------
// The connection registry
// ---------------------------------------------------------------------------

/// What the caller does with a finished connection attempt.
#[derive(Clone, Copy, Debug, PartialEq, Eq, Structural)]
pub enum ConnectAction {
    /// The server was changed or removed meanwhile: close the new connection.
    Stale,
    /// Keep the new connection under the server's name (replacing any other).
    Keep,
    /// The attempt failed: close any connection under the server's name.
    Failed,
}

/// What a reload asks of the caller: close the connections of `drop`, and
/// start a connection attempt for each server of `connect`.
pub struct ReloadPlan {
    pub drop: Vec<String>,
    pub connect: Vec<McpServerConfig>,
}

/// What is known of the MCP servers: the live connections (by the exact
/// configuration each was opened with), the servers currently wanted, and the
/// per-server status shown to the rest of the app.
pub struct McpManager {
    clients: Vec<McpServerConfig>,
    desired: Vec<McpServerConfig>,
    snapshot: Vec<ServerState>,
}

/// The contents of a [`McpManager`].
pub struct RegistryView {
    pub clients: Seq<McpServerConfigView>,
    pub desired: Seq<McpServerConfigView>,
    pub snapshot: Seq<ServerStateView>,
}

impl View for McpManager {
    type V = RegistryView;

    closed spec fn view(&self) -> RegistryView {
        RegistryView {
            clients: configs_view(self.clients@),
            desired: configs_view(self.desired@),
            snapshot: states_view(self.snapshot@),
        }
    }
}

fn find_config(s: &Vec<McpServerConfig>, name: &str) -> (r: Option<usize>)
    ensures
        match r {
            Some(i) => i < s.len() && i as int == index_in(config_names(configs_view(s@)), name@),
            None => index_in(config_names(configs_view(s@)), name@) == -1,
        },
{
    let ghost names = config_names(configs_view(s@));
    let mut i = s.len();
    assert(names.take(i as int) =~= names);
    while i > 0
        invariant
            i <= s.len(),
            names == config_names(configs_view(s@)),
            index_in(names, name@) == index_in(names.take(i as int), name@),
        decreases i,
    {
        assert(names.take(i as int).drop_last() =~= names.take(i - 1));
        if same_text(s[i - 1].name.as_str(), name) {
            return Some(i - 1);
        }
        i = i - 1;
    }
    None
}

fn find_state(s: &Vec<ServerState>, name: &str) -> (r: Option<usize>)
    ensures
        match r {
            Some(i) => i < s.len() && i as int == index_in(state_names(states_view(s@)), name@),
            None => index_in(state_names(states_view(s@)), name@) == -1,
        },
{
    let ghost names = state_names(states_view(s@));
    let mut i = s.len();
    assert(names.take(i as int) =~= names);
    while i > 0
        invariant
            i <= s.len(),
            names == state_names(states_view(s@)),
            index_in(names, name@) == index_in(names.take(i as int), name@),
        decreases i,
    {
        assert(names.take(i as int).drop_last() =~= names.take(i - 1));
        if same_text(s[i - 1].name.as_str(), name) {
            return Some(i - 1);
        }
        i = i - 1;
    }
    None
}

fn put_config_exec(s: &mut Vec<McpServerConfig>, c: McpServerConfig)
    ensures
        configs_view(final(s)@) == put_config(configs_view(old(s)@), c@),
{
    match find_config(s, c.name.as_str()) {
        Some(i) => {
            let ghost before = s@;
            s.set(i, c);
            assert(configs_view(s@) =~= configs_view(before).update(i as int, c@));
        },
        None => {
            let ghost before = s@;
            s.push(c);
            assert(configs_view(s@) =~= configs_view(before).push(c@));
        },
    }
}

/// Upsert a server's status (and tools) in the snapshot.
fn set_status(snapshot: &mut Vec<ServerState>, name: &str, status: McpStatus, tools: Vec<ToolMeta>)
    ensures
        states_view(final(snapshot)@) == upsert(states_view(old(snapshot)@), name@, status@, tools@),
{
    let st = ServerState { name: owned(name), status, tools };
    match find_state(snapshot, name) {
        Some(i) => {
            let ghost before = snapshot@;
            snapshot.set(i, st);
            assert(states_view(snapshot@) =~= states_view(before).update(i as int, st@));
        },
        None => {
            let ghost before = snapshot@;
            snapshot.push(st);
            assert(states_view(snapshot@) =~= states_view(before).push(st@));
        },
    }
}

fn desired_servers(servers: &[McpServerConfig]) -> (r: Vec<McpServerConfig>)
    ensures
        configs_view(r@) == desired_of(configs_view(servers@)),
{
    let ghost sv = configs_view(servers@);
    let mut desired: Vec<McpServerConfig> = Vec::new();
    let mut i: usize = 0;
    while i < servers.len()
        invariant
            i <= servers.len(),
            sv == configs_view(servers@),
            configs_view(desired@) == desired_of(sv.take(i as int)),
        decreases servers.len() - i,
    {
        assert(sv.take(i + 1).drop_last() =~= sv.take(i as int));
        assert(sv.take(i + 1).last() == servers@[i as int]@);
        if servers[i].enabled && !servers[i].name.as_str().is_empty() {
            put_config_exec(&mut desired, servers[i].clone());
        }
        i = i + 1;
    }
    assert(sv.take(servers.len() as int) =~= sv);
    desired
}

impl McpManager {
    /// No servers wanted, none connected.
    pub fn new() -> (r: Self)
        ensures
            r@.clients.len() == 0,
            r@.desired.len() == 0,
            r@.snapshot.len() == 0,
            r@.wf(),
    {
        McpManager { clients: Vec::new(), desired: Vec::new(), snapshot: Vec::new() }
    }

    /// The cached per-server state.
    pub fn snapshot(&self) -> (r: &Vec<ServerState>)
        ensures
            states_view(r@) == self@.snapshot,
    {
        &self.snapshot
    }

    /// Reconcile against the configured `servers`: keep the connections whose
    /// configuration is unchanged, drop the others, mark every wanted server
    /// without a connection as connecting, and forget the state of servers no
    /// longer wanted. The plan says which connections to close and which
    /// attempts to start.
    #[verifier::spinoff_prover]
    pub fn reload(&mut self, servers: &[McpServerConfig]) -> (plan: ReloadPlan)
        ensures
            final(self)@.desired == desired_of(configs_view(servers@)),
            final(self)@.clients == kept_clients(old(self)@.clients, final(self)@.desired),
            final(self)@.snapshot == retain_named(
                mark_connecting(old(self)@.snapshot, to_connect(final(self)@.desired, final(self)@.clients)),
                config_names(final(self)@.desired),
            ),
            configs_view(plan.connect@) == to_connect(final(self)@.desired, final(self)@.clients),
            texts_view(plan.drop@) == dropped_names(old(self)@.clients, final(self)@.desired),
            old(self)@.wf() ==> final(self)@.wf(),
    {
        proof {
            if old(self)@.wf() {
                lemma_reload_wf(old(self)@, configs_view(servers@));
            }
        }
        let desired = desired_servers(servers);
        let ghost dv = configs_view(desired@);

        // Split the live connections into those still wanted and the rest.
        let mut old_clients: Vec<McpServerConfig> = Vec::new();
        std::mem::swap(&mut old_clients, &mut self.clients);
        let ghost orig = configs_view(old_clients@);
        let mut kept: Vec<McpServerConfig> = Vec::new();
        let mut dropped: Vec<String> = Vec::new();
        let ghost mut k: int = 0;
        while old_clients.len() > 0
            invariant
                0 <= k <= orig.len(),
                configs_view(old_clients@) == orig.skip(k),
                configs_view(kept@) == kept_clients(orig.take(k), dv),
                texts_view(dropped@) == dropped_names(orig.take(k), dv),
                dv == configs_view(desired@),
            decreases old_clients.len(),
        {
            assert(configs_view(old_clients@).len() == old_clients@.len());
            let ghost rest = old_clients@;
            let c = old_clients.remove(0);
            proof {
                assert forall|x: int| 0 <= x < old_clients@.len() implies old_clients@[x]@ == orig[k + 1 + x] by {
                    assert(old_clients@[x] == rest[x + 1]);
                    assert(configs_view(rest)[x + 1] == orig.skip(k)[x + 1]);
                }
                assert(c@ == orig.skip(k)[0]);
                assert(orig.take(k + 1).drop_last() =~= orig.take(k));
                assert(orig.take(k + 1).last() == orig[k]);
                assert(configs_view(old_clients@) =~= orig.skip(k + 1));
            }
            let wanted = match find_config(&desired, c.name.as_str()) {
                Some(j) => same_config(&desired[j], &c),
                None => false,
            };
            if wanted {
                let ghost before = kept@;
                kept.push(c);
                assert(configs_view(kept@) =~= configs_view(before).push(orig[k]));
            } else {
                let ghost before = dropped@;
                dropped.push(c.name);
                assert(texts_view(dropped@) =~= texts_view(before).push(orig[k].name));
            }
            proof {
                k = k + 1;
            }
        }
        assert(orig.take(k) =~= orig);

        // Every wanted server without a connection gets one attempted.
        let ghost kv = configs_view(kept@);
        let mut connect: Vec<McpServerConfig> = Vec::new();
        let mut i: usize = 0;
        while i < desired.len()
            invariant
                i <= desired.len(),
                dv == configs_view(desired@),
                kv == configs_view(kept@),
                configs_view(connect@) == to_connect(dv.take(i as int), kv),
            decreases desired.len() - i,
        {
            assert(dv.take(i + 1).drop_last() =~= dv.take(i as int));
            assert(dv.take(i + 1).last() == desired@[i as int]@);
            if find_config(&kept, desired[i].name.as_str()).is_none() {
                let ghost before = connect@;
                connect.push(desired[i].clone());
                assert(configs_view(connect@) =~= configs_view(before).push(desired@[i as int]@));
            }
            i = i + 1;
        }
        assert(dv.take(desired.len() as int) =~= dv);
        let ghost cv = configs_view(connect@);

        let ghost snap0 = states_view(self.snapshot@);
        let mut j: usize = 0;
        while j < connect.len()
            invariant
                j <= connect.len(),
                cv == configs_view(connect@),
                states_view(self.snapshot@) == mark_connecting(snap0, cv.take(j as int)),
            decreases connect.len() - j,
        {
            assert(cv.take(j + 1).drop_last() =~= cv.take(j as int));
            assert(cv.take(j + 1).last() == connect@[j as int]@);
            let no_tools: Vec<ToolMeta> = Vec::new();
            assert(no_tools@ =~= Seq::<ToolMeta>::empty());
            set_status(&mut self.snapshot, connect[j].name.as_str(), McpStatus::Connecting, no_tools);
            j = j + 1;
        }
        assert(cv.take(connect.len() as int) =~= cv);

        // Forget the state of servers no longer wanted.
        let mut old_snap: Vec<ServerState> = Vec::new();
        std::mem::swap(&mut old_snap, &mut self.snapshot);
        let ghost sorig = states_view(old_snap@);
        let ghost names = config_names(dv);
        let mut retained: Vec<ServerState> = Vec::new();
        let ghost mut m: int = 0;
        while old_snap.len() > 0
            invariant
                0 <= m <= sorig.len(),
                states_view(old_snap@) == sorig.skip(m),
                states_view(retained@) == retain_named(sorig.take(m), names),
                dv == configs_view(desired@),
                names == config_names(dv),
            decreases old_snap.len(),
        {
            assert(states_view(old_snap@).len() == old_snap@.len());
            let ghost rest = old_snap@;
            let st = old_snap.remove(0);
            proof {
                assert forall|x: int| 0 <= x < old_snap@.len() implies old_snap@[x]@ == sorig[m + 1 + x] by {
                    assert(old_snap@[x] == rest[x + 1]);
                    assert(states_view(rest)[x + 1] == sorig.skip(m)[x + 1]);
                }
                assert(st@ == sorig.skip(m)[0]);
                assert(sorig.take(m + 1).drop_last() =~= sorig.take(m));
                assert(sorig.take(m + 1).last() == sorig[m]);
                assert(states_view(old_snap@) =~= sorig.skip(m + 1));
            }
            if find_config(&desired, st.name.as_str()).is_some() {
                let ghost before = retained@;
                retained.push(st);
                assert(states_view(retained@) =~= states_view(before).push(sorig[m]));
            }
            proof {
                m = m + 1;
            }
        }
        assert(sorig.take(m) =~= sorig);

        self.snapshot = retained;
        self.clients = kept;
        self.desired = desired;
        ReloadPlan { drop: dropped, connect }
    }
}

/// The reply to a call on a server without a live connection.
pub open spec fn not_connected_text(server: Seq<char>) -> Seq<char> {
    "MCP server '"@ + server + "' is not connected"@
}

fn without_name_exec(s: Vec<McpServerConfig>, name: &str) -> (r: Vec<McpServerConfig>)
    ensures
        configs_view(r@) == without_name(configs_view(s@), name@),
{
    let mut rest = s;
    let ghost orig = configs_view(rest@);
    let mut out: Vec<McpServerConfig> = Vec::new();
    let ghost mut k: int = 0;
    while rest.len() > 0
        invariant
            0 <= k <= orig.len(),
            configs_view(rest@) == orig.skip(k),
            configs_view(out@) == without_name(orig.take(k), name@),
        decreases rest.len(),
    {
        assert(configs_view(rest@).len() == rest@.len());
        let ghost before_rest = rest@;
        let c = rest.remove(0);
        proof {
            assert forall|x: int| 0 <= x < rest@.len() implies rest@[x]@ == orig[k + 1 + x] by {
                assert(rest@[x] == before_rest[x + 1]);
                assert(configs_view(before_rest)[x + 1] == orig.skip(k)[x + 1]);
            }
            assert(configs_view(rest@) =~= orig.skip(k + 1));
            assert(c@ == orig.skip(k)[0]);
            assert(orig.take(k + 1).drop_last() =~= orig.take(k));
            assert(orig.take(k + 1).last() == orig[k]);
        }
        if !same_text(c.name.as_str(), name) {
            let ghost before = out@;
            out.push(c);
            assert(configs_view(out@) =~= configs_view(before).push(orig[k]));
        }
        proof {
            k = k + 1;
        }
    }
    assert(orig.take(k) =~= orig);
    out
}

impl McpManager {
    /// Record the outcome of a connection attempt for `config`. A result for
    /// a server that was changed or removed since is stale and changes
    /// nothing; a success marks the server ready with its tools and keeps the
    /// connection; a failure drops any connection and shows the message.
    pub fn connected(&mut self, config: McpServerConfig, outcome: Result<Vec<ToolMeta>, String>) -> (r:
        ConnectAction)
        ensures
            config_for(old(self)@.desired, config@.name) != Some(config@) ==> r == ConnectAction::Stale
                && final(self)@ == old(self)@,
            config_for(old(self)@.desired, config@.name) == Some(config@) ==> final(self)@.desired == old(
                self,
            )@.desired && match outcome {
                Ok(tools) => r == ConnectAction::Keep && final(self)@.clients == put_config(
                    old(self)@.clients,
                    config@,
                ) && final(self)@.snapshot == upsert(
                    old(self)@.snapshot,
                    config@.name,
                    McpStatusView::Ready,
                    tools@,
                ),
                Err(m) => r == ConnectAction::Failed && final(self)@.clients == without_name(
                    old(self)@.clients,
                    config@.name,
                ) && final(self)@.snapshot == upsert(
                    old(self)@.snapshot,
                    config@.name,
                    McpStatusView::Error(m@),
                    Seq::empty(),
                ),
            },
            old(self)@.wf() ==> final(self)@.wf(),
    {
        let current = match find_config(&self.desired, config.name.as_str()) {
            Some(i) => same_config(&self.desired[i], &config),
            None => false,
        };
        if !current {
            return ConnectAction::Stale;
        }
        match outcome {
            Ok(tools) => {
                proof {
                    if old(self)@.wf() {
                        lemma_connected_ok_wf(old(self)@, config@, tools@);
                    }
                }
                set_status(&mut self.snapshot, config.name.as_str(), McpStatus::Ready, tools);
                put_config_exec(&mut self.clients, config);
                ConnectAction::Keep
            },
            Err(message) => {
                proof {
                    if old(self)@.wf() {
                        lemma_connected_err_wf(old(self)@, config@, message@);
                    }
                }
                let mut clients: Vec<McpServerConfig> = Vec::new();
                std::mem::swap(&mut clients, &mut self.clients);
                self.clients = without_name_exec(clients, config.name.as_str());
                let no_tools: Vec<ToolMeta> = Vec::new();
                assert(no_tools@ =~= Seq::<ToolMeta>::empty());
                set_status(&mut self.snapshot, config.name.as_str(), McpStatus::Error(message), no_tools);
                ConnectAction::Failed
            },
        }
    }

    /// Whether a tool call on `server` can go ahead: it needs a live
    /// connection, and without one the reply says so.
    pub fn check_call(&self, server: &str) -> (r: Result<(), String>)
        ensures
            r is Ok <==> index_in(config_names(self@.clients), server@) >= 0,
            r matches Err(m) ==> m@ == not_connected_text(server@),
    {
        match find_config(&self.clients, server) {
            Some(_) => Ok(()),
            None => {
                let mut m = owned("MCP server '");
                push_str(&mut m, server);
                push_str(&mut m, "' is not connected");
                Err(m)
            },
        }
    }
}

// ---------------------------------------------------------------------------
// What every registry operation keeps
// ---------------------------------------------------------------------------

pub open spec fn has_config(s: Seq<McpServerConfigView>, n: Seq<char>) -> bool {
    exists|i: int| 0 <= i < s.len() && (#[trigger] s[i]).name == n
}

pub open spec fn has_state(s: Seq<ServerStateView>, n: Seq<char>) -> bool {
    exists|i: int| 0 <= i < s.len() && (#[trigger] s[i]).name == n
}

pub open spec fn configs_unique(s: Seq<McpServerConfigView>) -> bool {
    forall|i: int, j: int| 0 <= i < j < s.len() ==> (#[trigger] s[i]).name != (#[trigger] s[j]).name
}

pub open spec fn states_unique(s: Seq<ServerStateView>) -> bool {
    forall|i: int, j: int| 0 <= i < j < s.len() ==> (#[trigger] s[i]).name != (#[trigger] s[j]).name
}

impl RegistryView {
    /// The registry is consistent: each list names a server at most once;
    /// the wanted servers are enabled and named; the status list covers
    /// exactly the wanted servers; every live connection was opened with the
    /// configuration now wanted under its name; and a server shows `Ready`
    /// exactly when it has a live connection.
    pub open spec fn wf(self) -> bool {
        &&& configs_unique(self.desired)
        &&& states_unique(self.snapshot)
        &&& configs_unique(self.clients)
        &&& forall|i: int| 0 <= i < self.desired.len() ==> (#[trigger] self.desired[i]).enabled && self.desired[i].name.len() > 0
        &&& forall|n: Seq<char>| #![trigger has_state(self.snapshot, n)] #![trigger has_config(self.desired, n)]
            has_state(self.snapshot, n) <==> has_config(self.desired, n)
        &&& forall|i: int| 0 <= i < self.clients.len() ==> config_for(self.desired, (#[trigger] self.clients[i]).name) == Some(self.clients[i])
        &&& forall|i: int| 0 <= i < self.snapshot.len() ==> ((#[trigger] self.snapshot[i]).status is Ready <==> has_config(self.clients, self.snapshot[i].name))
    }
}

proof fn lemma_config_index(s: Seq<McpServerConfigView>, n: Seq<char>)
    ensures
        -1 <= index_in(config_names(s), n) < s.len(),
        index_in(config_names(s), n) >= 0 <==> has_config(s, n),
        index_in(config_names(s), n) >= 0 ==> s[index_in(config_names(s), n)].name == n,
        index_in(config_names(s), n) >= 0 ==> config_for(s, n) == Some(s[index_in(config_names(s), n)]),
        index_in(config_names(s), n) < 0 ==> config_for(s, n) is None,
        configs_unique(s) ==> forall|i: int| 0 <= i < s.len() && s[i].name == n ==> i == index_in(config_names(s), n),
{
    let names = config_names(s);
    lemma_index_in(names, n);
    let idx = index_in(names, n);
    if idx >= 0 {
        assert(names[idx] == s[idx].name);
        assert(s[idx].name == n);
    }
    if has_config(s, n) {
        let i = choose|i: int| 0 <= i < s.len() && (#[trigger] s[i]).name == n;
        assert(names[i] == n);
    }
    if configs_unique(s) {
        assert forall|i: int| 0 <= i < s.len() && s[i].name == n implies i == idx by {
            assert(names[i] == n);
            if i != idx {
                assert(s[idx].name == n);
            }
        }
    }
}

proof fn lemma_state_index(s: Seq<ServerStateView>, n: Seq<char>)
    ensures
        -1 <= index_in(state_names(s), n) < s.len(),
        index_in(state_names(s), n) >= 0 <==> has_state(s, n),
        index_in(state_names(s), n) >= 0 ==> s[index_in(state_names(s), n)].name == n,
        states_unique(s) ==> forall|i: int| 0 <= i < s.len() && s[i].name == n ==> i == index_in(state_names(s), n),
{
    let names = state_names(s);
    lemma_index_in(names, n);
    let idx = index_in(names, n);
    if idx >= 0 {
        assert(names[idx] == s[idx].name);
        assert(s[idx].name == n);
    }
    if has_state(s, n) {
        let i = choose|i: int| 0 <= i < s.len() && (#[trigger] s[i]).name == n;
        assert(names[i] == n);
    }
    if states_unique(s) {
        assert forall|i: int| 0 <= i < s.len() && s[i].name == n implies i == idx by {
            assert(names[i] == n);
            if i != idx {
                assert(s[idx].name == n);
            }
        }
    }
}

proof fn lemma_put_config(s: Seq<McpServerConfigView>, c: McpServerConfigView)
    ensures
        forall|n: Seq<char>| #[trigger] has_config(put_config(s, c), n) <==> has_config(s, n) || n == c.name,
        forall|n: Seq<char>| #[trigger] config_for(put_config(s, c), n) == if n == c.name { Some(c) } else { config_for(s, n) },
        configs_unique(s) ==> configs_unique(put_config(s, c)),
        forall|i: int| 0 <= i < put_config(s, c).len() ==> (#[trigger] put_config(s, c)[i]) == c || (i < s.len() && put_config(s, c)[i] == s[i]),
{
    let r = put_config(s, c);
    let idx = index_in(config_names(s), c.name);
    lemma_config_index(s, c.name);
    lemma_index_in(config_names(s), c.name);
    assert(config_names(s).len() == s.len());
    if idx >= 0 {
        assert(r == s.update(idx, c));
        assert(s[idx].name == c.name);
        assert(config_names(r) =~= config_names(s));
    } else {
        assert(r == s.push(c));
        assert(config_names(r) =~= config_names(s).push(c.name));
    }
    assert forall|i: int| 0 <= i < r.len() implies (#[trigger] r[i]) == c || (i < s.len() && r[i] == s[i]) by {
    }
    assert forall|n: Seq<char>| #[trigger] has_config(r, n) <==> has_config(s, n) || n == c.name by {
        if has_config(r, n) {
            let i = choose|i: int| 0 <= i < r.len() && (#[trigger] r[i]).name == n;
            if r[i] != c {
                assert(s[i].name == n);
            }
        }
        if has_config(s, n) {
            let i = choose|i: int| 0 <= i < s.len() && (#[trigger] s[i]).name == n;
            if idx >= 0 && i == idx {
                assert(r[i].name == n);
            } else {
                assert(r[i] == s[i]);
                assert(r[i].name == n);
            }
        }
        if n == c.name {
            if idx >= 0 {
                assert(r[idx].name == n);
            } else {
                assert(r[s.len() as int].name == n);
            }
        }
    }
    assert forall|n: Seq<char>| #[trigger] config_for(r, n) == if n == c.name { Some(c) } else { config_for(s, n) } by {
        lemma_index_in(config_names(s), n);
        if idx < 0 && n != c.name {
            assert(config_names(r).drop_last() =~= config_names(s));
        }
    }
    if configs_unique(s) {
        assert forall|i: int, j: int| 0 <= i < j < r.len() implies (#[trigger] r[i]).name != (#[trigger] r[j]).name by {
            if idx < 0 && j == s.len() {
                assert(config_names(s)[i] == s[i].name);
                lemma_index_in(config_names(s), c.name);
            }
        }
    }
}

proof fn lemma_desired_of(servers: Seq<McpServerConfigView>)
    ensures
        configs_unique(desired_of(servers)),
        forall|i: int| 0 <= i < desired_of(servers).len() ==> (#[trigger] desired_of(servers)[i]).enabled && desired_of(servers)[i].name.len() > 0,
    decreases servers.len(),
{
    if servers.len() > 0 {
        lemma_desired_of(servers.drop_last());
        let s = servers.last();
        if s.enabled && s.name.len() > 0 {
            lemma_put_config(desired_of(servers.drop_last()), s);
        }
    }
}

pub open spec fn config_in(s: Seq<McpServerConfigView>, x: McpServerConfigView) -> bool {
    exists|j: int| 0 <= j < s.len() && #[trigger] s[j] == x
}

pub open spec fn state_in(s: Seq<ServerStateView>, x: ServerStateView) -> bool {
    exists|j: int| 0 <= j < s.len() && #[trigger] s[j] == x
}

proof fn lemma_kept_clients(cl: Seq<McpServerConfigView>, d: Seq<McpServerConfigView>)
    ensures
        forall|i: int| 0 <= i < kept_clients(cl, d).len() ==> config_for(d, (#[trigger] kept_clients(cl, d)[i]).name)
            == Some(kept_clients(cl, d)[i]),
        forall|i: int| 0 <= i < kept_clients(cl, d).len() ==> config_in(cl, #[trigger] kept_clients(cl, d)[i]),
        configs_unique(cl) ==> configs_unique(kept_clients(cl, d)),
    decreases cl.len(),
{
    if cl.len() > 0 {
        let prev = kept_clients(cl.drop_last(), d);
        let c = cl.last();
        lemma_kept_clients(cl.drop_last(), d);
        let r = kept_clients(cl, d);
        assert forall|i: int| 0 <= i < r.len() implies config_in(cl, #[trigger] r[i]) by {
            if i < prev.len() {
                let j = choose|j: int| 0 <= j < cl.drop_last().len() && #[trigger] cl.drop_last()[j] == prev[i];
                assert(cl[j] == r[i]);
            } else {
                assert(cl[cl.len() - 1] == r[i]);
            }
        }
        if configs_unique(cl) {
            assert(configs_unique(cl.drop_last()));
            assert forall|i: int, j: int| 0 <= i < j < r.len() implies (#[trigger] r[i]).name != (#[trigger] r[j]).name by {
                if j == prev.len() {
                    let k = choose|k: int| 0 <= k < cl.drop_last().len() && #[trigger] cl.drop_last()[k] == prev[i];
                    assert(cl[k] == prev[i]);
                    assert(r[j] == c);
                }
            }
        }
    }
}

proof fn lemma_to_connect(d: Seq<McpServerConfigView>, k: Seq<McpServerConfigView>)
    ensures
        forall|i: int| 0 <= i < to_connect(d, k).len() ==> !has_config(k, (#[trigger] to_connect(d, k)[i]).name),
        forall|n: Seq<char>| has_config(d, n) && !has_config(k, n) ==> #[trigger] has_config(to_connect(d, k), n),
    decreases d.len(),
{
    if d.len() > 0 {
        let prev = to_connect(d.drop_last(), k);
        let x = d.last();
        lemma_to_connect(d.drop_last(), k);
        lemma_config_index(k, x.name);
        let r = to_connect(d, k);
        assert forall|i: int| 0 <= i < r.len() implies !has_config(k, (#[trigger] r[i]).name) by {
            if i < prev.len() {
                assert(r[i] == prev[i]);
            }
        }
        assert forall|n: Seq<char>| has_config(d, n) && !has_config(k, n) implies #[trigger] has_config(r, n) by {
            let j = choose|j: int| 0 <= j < d.len() && (#[trigger] d[j]).name == n;
            if j < d.len() - 1 {
                assert(d.drop_last()[j].name == n);
                assert(has_config(d.drop_last(), n));
                assert(has_config(prev, n));
                let m = choose|m: int| 0 <= m < prev.len() && (#[trigger] prev[m]).name == n;
                assert(r[m].name == n);
            } else {
                assert(r[r.len() - 1].name == n);
            }
        }
    }
}

#[verifier::spinoff_prover]
proof fn lemma_upsert(s: Seq<ServerStateView>, n: Seq<char>, st: McpStatusView, t: Seq<ToolMeta>)
    requires
        states_unique(s),
    ensures
        forall|x: Seq<char>| #[trigger] has_state(upsert(s, n, st, t), x) <==> has_state(s, x) || x == n,
        states_unique(upsert(s, n, st, t)),
        forall|i: int| 0 <= i < upsert(s, n, st, t).len() ==> if (#[trigger] upsert(s, n, st, t)[i]).name == n {
            upsert(s, n, st, t)[i] == (ServerStateView { name: n, status: st, tools: t })
        } else {
            i < s.len() && upsert(s, n, st, t)[i] == s[i]
        },
{
    let r = upsert(s, n, st, t);
    let idx = index_in(state_names(s), n);
    lemma_state_index(s, n);
    let new = ServerStateView { name: n, status: st, tools: t };
    if idx >= 0 {
        assert(r == s.update(idx, new));
    } else {
        assert(r == s.push(new));
    }
    assert forall|i: int| 0 <= i < r.len() implies if (#[trigger] r[i]).name == n { r[i] == new } else { i < s.len()
        && r[i] == s[i] } by {
        if i < s.len() && i != idx && s[i].name == n {
            assert(idx >= 0 ==> i == idx);
            assert(has_state(s, n));
        }
    }
    assert forall|x: Seq<char>| #[trigger] has_state(r, x) <==> has_state(s, x) || x == n by {
        if has_state(r, x) {
            let i = choose|i: int| 0 <= i < r.len() && (#[trigger] r[i]).name == x;
            if x != n {
                assert(s[i].name == x);
            }
        }
        if has_state(s, x) && x != n {
            let i = choose|i: int| 0 <= i < s.len() && (#[trigger] s[i]).name == x;
            assert(r[i].name == x);
        }
        if x == n {
            if idx >= 0 {
                assert(r[idx].name == x);
            } else {
                assert(r[s.len() as int].name == x);
            }
        }
    }
    assert forall|i: int, j: int| 0 <= i < j < r.len() implies (#[trigger] r[i]).name != (#[trigger] r[j]).name by {
        if r[i].name == n && r[j].name == n {
            if idx >= 0 {
                assert(i == idx || j == idx || (s[i].name == n && s[j].name == n));
            } else {
                assert(s[i].name == n);
                assert(has_state(s, n));
            }
        }
    }
}

#[verifier::spinoff_prover]
proof fn lemma_mark_connecting(snap: Seq<ServerStateView>, list: Seq<McpServerConfigView>)
    requires
        states_unique(snap),
    ensures
        forall|x: Seq<char>| #[trigger] has_state(mark_connecting(snap, list), x) <==> has_state(snap, x) || has_config(list, x),
        states_unique(mark_connecting(snap, list)),
        forall|i: int| 0 <= i < mark_connecting(snap, list).len() ==> if has_config(list, (#[trigger] mark_connecting(snap, list)[i]).name) {
            mark_connecting(snap, list)[i].status == McpStatusView::Connecting
        } else {
            state_in(snap, mark_connecting(snap, list)[i])
        },
    decreases list.len(),
{
    if list.len() > 0 {
        let prev = mark_connecting(snap, list.drop_last());
        let last = list.last();
        lemma_mark_connecting(snap, list.drop_last());
        lemma_upsert(prev, last.name, McpStatusView::Connecting, Seq::empty());
        let r = mark_connecting(snap, list);
        assert forall|x: Seq<char>| has_config(list, x) <==> has_config(list.drop_last(), x) || x == last.name by {
            if has_config(list, x) {
                let j = choose|j: int| 0 <= j < list.len() && (#[trigger] list[j]).name == x;
                if j < list.len() - 1 {
                    assert(list.drop_last()[j].name == x);
                }
            }
            if has_config(list.drop_last(), x) {
                let j = choose|j: int| 0 <= j < list.drop_last().len() && (#[trigger] list.drop_last()[j]).name == x;
                assert(list[j].name == x);
            }
            if x == last.name {
                assert(list[list.len() - 1].name == x);
            }
        }
        assert forall|x: Seq<char>| #[trigger] has_state(r, x) <==> has_state(snap, x) || has_config(list, x) by {
            assert(has_state(r, x) <==> has_state(prev, x) || x == last.name);
            assert(has_state(prev, x) <==> has_state(snap, x) || has_config(list.drop_last(), x));
        }
        assert forall|i: int| 0 <= i < r.len() implies if has_config(list, (#[trigger] r[i]).name) {
            r[i].status == McpStatusView::Connecting
        } else {
            state_in(snap, r[i])
        } by {
            if r[i].name != last.name {
                assert(r[i] == prev[i]);
                assert(has_config(list, r[i].name) == has_config(list.drop_last(), r[i].name));
            }
        }
    }
}

proof fn lemma_retain_named(snap: Seq<ServerStateView>, names: Seq<Seq<char>>)
    ensures
        forall|i: int| 0 <= i < retain_named(snap, names).len() ==> state_in(snap, #[trigger] retain_named(snap, names)[i])
            && index_in(names, retain_named(snap, names)[i].name) >= 0,
        forall|j: int| 0 <= j < snap.len() && index_in(names, snap[j].name) >= 0 ==> state_in(retain_named(snap, names), #[trigger] snap[j]),
        states_unique(snap) ==> states_unique(retain_named(snap, names)),
    decreases snap.len(),
{
    if snap.len() > 0 {
        let prev = retain_named(snap.drop_last(), names);
        let x = snap.last();
        lemma_retain_named(snap.drop_last(), names);
        let r = retain_named(snap, names);
        assert forall|i: int| 0 <= i < r.len() implies state_in(snap, #[trigger] r[i]) && index_in(names, r[i].name) >= 0 by {
            if i < prev.len() {
                let j = choose|j: int| 0 <= j < snap.drop_last().len() && #[trigger] snap.drop_last()[j] == prev[i];
                assert(snap[j] == r[i]);
            } else {
                assert(snap[snap.len() - 1] == r[i]);
            }
        }
        assert forall|j: int| 0 <= j < snap.len() && index_in(names, snap[j].name) >= 0 implies state_in(r, #[trigger] snap[j]) by {
            if j < snap.len() - 1 {
                assert(snap.drop_last()[j] == snap[j]);
                let m = choose|m: int| 0 <= m < prev.len() && #[trigger] prev[m] == snap.drop_last()[j];
                assert(r[m] == snap[j]);
            } else {
                assert(r[r.len() - 1] == snap[j]);
            }
        }
        if states_unique(snap) {
            assert(states_unique(snap.drop_last()));
            assert forall|i: int, j: int| 0 <= i < j < r.len() implies (#[trigger] r[i]).name != (#[trigger] r[j]).name by {
                if j == prev.len() {
                    let k = choose|k: int| 0 <= k < snap.drop_last().len() && #[trigger] snap.drop_last()[k] == prev[i];
                    assert(snap[k] == prev[i]);
                    assert(r[j] == x);
                }
            }
        }
    }
}

proof fn lemma_without_name(s: Seq<McpServerConfigView>, n: Seq<char>)
    ensures
        forall|i: int| 0 <= i < without_name(s, n).len() ==> config_in(s, #[trigger] without_name(s, n)[i])
            && without_name(s, n)[i].name != n,
        forall|j: int| 0 <= j < s.len() && s[j].name != n ==> config_in(without_name(s, n), #[trigger] s[j]),
        configs_unique(s) ==> configs_unique(without_name(s, n)),
    decreases s.len(),
{
    if s.len() > 0 {
        let prev = without_name(s.drop_last(), n);
        let x = s.last();
        lemma_without_name(s.drop_last(), n);
        let r = without_name(s, n);
        assert forall|i: int| 0 <= i < r.len() implies config_in(s, #[trigger] r[i]) && r[i].name != n by {
            if i < prev.len() {
                let j = choose|j: int| 0 <= j < s.drop_last().len() && #[trigger] s.drop_last()[j] == prev[i];
                assert(s[j] == r[i]);
            } else {
                assert(s[s.len() - 1] == r[i]);
            }
        }
        assert forall|j: int| 0 <= j < s.len() && s[j].name != n implies config_in(r, #[trigger] s[j]) by {
            if j < s.len() - 1 {
                assert(s.drop_last()[j] == s[j]);
                let m = choose|m: int| 0 <= m < prev.len() && #[trigger] prev[m] == s.drop_last()[j];
                assert(r[m] == s[j]);
            } else {
                assert(r[r.len() - 1] == s[j]);
            }
        }
        if configs_unique(s) {
            assert(configs_unique(s.drop_last()));
            assert forall|i: int, j: int| 0 <= i < j < r.len() implies (#[trigger] r[i]).name != (#[trigger] r[j]).name by {
                if j == prev.len() {
                    let k = choose|k: int| 0 <= k < s.drop_last().len() && #[trigger] s.drop_last()[k] == prev[i];
                    assert(s[k] == prev[i]);
                    assert(r[j] == x);
                }
            }
        }
    }
}

#[verifier::spinoff_prover]
proof fn lemma_reload_wf(o: RegistryView, servers: Seq<McpServerConfigView>)
    requires
        o.wf(),
    ensures
        ({
            let d = desired_of(servers);
            let k = kept_clients(o.clients, d);
            RegistryView {
                clients: k,
                desired: d,
                snapshot: retain_named(mark_connecting(o.snapshot, to_connect(d, k)), config_names(d)),
            }.wf()
        }),
{
    let d = desired_of(servers);
    let k = kept_clients(o.clients, d);
    let tc = to_connect(d, k);
    let m = mark_connecting(o.snapshot, tc);
    let s = retain_named(m, config_names(d));
    lemma_desired_of(servers);
    lemma_kept_clients(o.clients, d);
    lemma_to_connect(d, k);
    lemma_mark_connecting(o.snapshot, tc);
    lemma_retain_named(m, config_names(d));
    assert forall|n: Seq<char>| has_state(s, n) <==> has_config(d, n) by {
        lemma_config_index(d, n);
        if has_state(s, n) {
            let i = choose|i: int| 0 <= i < s.len() && (#[trigger] s[i]).name == n;
            assert(index_in(config_names(d), s[i].name) >= 0);
        }
        if has_config(d, n) {
            if has_config(k, n) {
                let i = choose|i: int| 0 <= i < k.len() && (#[trigger] k[i]).name == n;
                assert(config_in(o.clients, k[i]));
                let j = choose|j: int| 0 <= j < o.clients.len() && #[trigger] o.clients[j] == k[i];
                assert(config_for(o.desired, o.clients[j].name) == Some(o.clients[j]));
                lemma_config_index(o.desired, n);
                assert(has_config(o.desired, n));
                assert(has_state(o.snapshot, n));
            } else {
                assert(has_config(tc, n));
            }
            assert(has_state(m, n));
            let i = choose|i: int| 0 <= i < m.len() && (#[trigger] m[i]).name == n;
            assert(state_in(s, m[i]));
            let q = choose|q: int| 0 <= q < s.len() && #[trigger] s[q] == m[i];
            assert(s[q].name == n);
        }
    }
    assert forall|i: int| 0 <= i < s.len() implies ((#[trigger] s[i]).status is Ready <==> has_config(k, s[i].name)) by {
        let x = s[i];
        assert(state_in(m, x));
        let j = choose|j: int| 0 <= j < m.len() && #[trigger] m[j] == x;
        lemma_config_index(d, x.name);
        assert(has_config(d, x.name));
        if has_config(tc, x.name) {
            assert(m[j].status == McpStatusView::Connecting);
            let t = choose|t: int| 0 <= t < tc.len() && (#[trigger] tc[t]).name == x.name;
            assert(!has_config(k, tc[t].name));
        } else {
            assert(state_in(o.snapshot, m[j]));
            let q = choose|q: int| 0 <= q < o.snapshot.len() && #[trigger] o.snapshot[q] == m[j];
            assert(has_config(k, x.name));
            let c = choose|c: int| 0 <= c < k.len() && (#[trigger] k[c]).name == x.name;
            assert(config_in(o.clients, k[c]));
            let oc = choose|oc: int| 0 <= oc < o.clients.len() && #[trigger] o.clients[oc] == k[c];
            assert(o.clients[oc].name == x.name);
            assert(has_config(o.clients, x.name));
            assert(o.snapshot[q].status is Ready);
        }
    }
}

#[verifier::spinoff_prover]
proof fn lemma_connected_ok_wf(o: RegistryView, config: McpServerConfigView, tools: Seq<ToolMeta>)
    requires
        o.wf(),
        config_for(o.desired, config.name) == Some(config),
    ensures
        (RegistryView {
            clients: put_config(o.clients, config),
            desired: o.desired,
            snapshot: upsert(o.snapshot, config.name, McpStatusView::Ready, tools),
        }).wf(),
{
    let c2 = put_config(o.clients, config);
    let s2 = upsert(o.snapshot, config.name, McpStatusView::Ready, tools);
    lemma_put_config(o.clients, config);
    lemma_upsert(o.snapshot, config.name, McpStatusView::Ready, tools);
    lemma_config_index(o.desired, config.name);
    assert(has_config(o.desired, config.name));
    assert forall|n: Seq<char>| has_state(s2, n) <==> has_config(o.desired, n) by {
        assert(has_state(s2, n) <==> has_state(o.snapshot, n) || n == config.name);
    }
    assert forall|i: int| 0 <= i < c2.len() implies config_for(o.desired, (#[trigger] c2[i]).name) == Some(c2[i]) by {
        if c2[i] != config {
            assert(c2[i] == o.clients[i]);
        }
    }
    assert forall|i: int| 0 <= i < s2.len() implies ((#[trigger] s2[i]).status is Ready <==> has_config(c2, s2[i].name)) by {
        assert(has_config(c2, s2[i].name) <==> has_config(o.clients, s2[i].name) || s2[i].name == config.name);
        if s2[i].name != config.name {
            assert(s2[i] == o.snapshot[i]);
        }
    }
}

#[verifier::spinoff_prover]
proof fn lemma_connected_err_wf(o: RegistryView, config: McpServerConfigView, message: Seq<char>)
    requires
        o.wf(),
        config_for(o.desired, config.name) == Some(config),
    ensures
        (RegistryView {
            clients: without_name(o.clients, config.name),
            desired: o.desired,
            snapshot: upsert(o.snapshot, config.name, McpStatusView::Error(message), Seq::empty()),
        }).wf(),
{
    let c2 = without_name(o.clients, config.name);
    let s2 = upsert(o.snapshot, config.name, McpStatusView::Error(message), Seq::empty());
    lemma_without_name(o.clients, config.name);
    lemma_upsert(o.snapshot, config.name, McpStatusView::Error(message), Seq::empty());
    lemma_config_index(o.desired, config.name);
    assert(has_config(o.desired, config.name));
    assert forall|n: Seq<char>| has_state(s2, n) <==> has_config(o.desired, n) by {
        assert(has_state(s2, n) <==> has_state(o.snapshot, n) || n == config.name);
    }
    assert forall|i: int| 0 <= i < c2.len() implies config_for(o.desired, (#[trigger] c2[i]).name) == Some(c2[i]) by {
        assert(config_in(o.clients, c2[i]));
        let j = choose|j: int| 0 <= j < o.clients.len() && #[trigger] o.clients[j] == c2[i];
    }
    assert forall|n: Seq<char>| n != config.name implies (has_config(c2, n) <==> #[trigger] has_config(o.clients, n)) by {
        if has_config(c2, n) {
            let i = choose|i: int| 0 <= i < c2.len() && (#[trigger] c2[i]).name == n;
            assert(config_in(o.clients, c2[i]));
            let j = choose|j: int| 0 <= j < o.clients.len() && #[trigger] o.clients[j] == c2[i];
            assert(o.clients[j].name == n);
        }
        if has_config(o.clients, n) {
            let j = choose|j: int| 0 <= j < o.clients.len() && (#[trigger] o.clients[j]).name == n;
            assert(config_in(c2, o.clients[j]));
            let i = choose|i: int| 0 <= i < c2.len() && #[trigger] c2[i] == o.clients[j];
            assert(c2[i].name == n);
        }
    }
    assert forall|i: int| 0 <= i < s2.len() implies ((#[trigger] s2[i]).status is Ready <==> has_config(c2, s2[i].name)) by {
        if s2[i].name != config.name {
            assert(s2[i] == o.snapshot[i]);
            assert(has_config(c2, s2[i].name) <==> has_config(o.clients, s2[i].name));
        } else {
            if has_config(c2, config.name) {
                let q = choose|q: int| 0 <= q < c2.len() && (#[trigger] c2[q]).name == config.name;
            }
        }
    }
}

// ---------------------------------------------------------------------------
// Offering MCP tools to the model
// ---------------------------------------------------------------------------

/// One MCP tool as offered to the model: the name it is exposed under, and
/// where it sits in the snapshot (`state`, then `tool` within that state's
/// tools), which says where calls go.
pub struct McpToolEntry {
    pub exposed: String,
    pub state: usize,
    pub tool: usize,
}

/// The positions of the tools of every ready server, in snapshot order.
pub open spec fn ready_positions(states: Seq<ServerStateView>) -> Seq<(int, int)>
    decreases states.len(),
{
    if states.len() == 0 {
        Seq::empty()
    } else {
        let prev = ready_positions(states.drop_last());
        let i = states.len() - 1;
        if states[i].status is Ready {
            prev + Seq::new(states[i].tools.len(), |j: int| (i, j))
        } else {
            prev
        }
    }
}

/// The (tool, server) names at a position.
pub open spec fn tool_names_at(states: Seq<ServerStateView>, p: (int, int)) -> (Seq<char>, Seq<char>) {
    (states[p.0].tools[p.1].name@, states[p.0].tools[p.1].server@)
}

/// The names the tools are exposed under, each chosen against the names
/// taken before it (the built-in tools, then the earlier MCP tools).
pub open spec fn exposed_names(taken: Seq<Seq<char>>, tools: Seq<(Seq<char>, Seq<char>)>) -> Seq<Seq<char>>
    decreases tools.len(),
{
    if tools.len() == 0 {
        Seq::empty()
    } else {
        let prev = exposed_names(taken, tools.drop_last());
        prev.push(exposed_name_of(taken + prev, tools.last().0, tools.last().1))
    }
}

/// Exposed names keep dispatch unambiguous: when the names taken beforehand
/// are distinct, every name in the registry is distinct.
pub proof fn law_exposed_names_distinct(taken: Seq<Seq<char>>, tools: Seq<(Seq<char>, Seq<char>)>)
    requires
        taken.no_duplicates(),
    ensures
        (taken + exposed_names(taken, tools)).no_duplicates(),
    decreases tools.len(),
{
    if tools.len() == 0 {
        assert(taken + exposed_names(taken, tools) =~= taken);
    } else {
        let t = tools.drop_last();
        law_exposed_names_distinct(taken, t);
        let prev = exposed_names(taken, t);
        let prior = taken + prev;
        let new = exposed_name_of(prior, tools.last().0, tools.last().1);
        lemma_exposed_name_free(prior, tools.last().0, tools.last().1);
        assert(!prior.contains(new));
        let all = taken + exposed_names(taken, tools);
        assert(all =~= prior.push(new));
        assert forall|i: int, j: int| 0 <= i < all.len() && 0 <= j < all.len() && i != j implies all[i] != all[j] by {
            if i < prior.len() && j < prior.len() {
                assert(all[i] == prior[i] && all[j] == prior[j]);
            } else if i < prior.len() {
                assert(all[i] == prior[i]);
                assert(prior.contains(prior[i]));
            } else {
                assert(all[j] == prior[j]);
                assert(prior.contains(prior[j]));
            }
        }
    }
}

pub open spec fn entry_names(v: Seq<McpToolEntry>) -> Seq<Seq<char>> {
    v.map_values(|e: McpToolEntry| e.exposed@)
}

/// Fold the tools of every ready server into the registry's names: each is
/// exposed under its own name, or as `{tool}__{server}` when that name is
/// already taken (by a built-in tool or an earlier MCP tool), numbered `_2`,
/// `_3`, … when that is taken too.
#[verifier::spinoff_prover]
pub fn mcp_tool_entries(taken: &Vec<String>, states: &Vec<ServerState>) -> (r: Vec<McpToolEntry>)
    ensures
        ({
            let sv = states_view(states@);
            let pos = ready_positions(sv);
            &&& r@.len() == pos.len()
            &&& forall|k: int| 0 <= k < pos.len() ==> (#[trigger] r@[k]).state == pos[k].0 && r@[k].tool == pos[k].1
            &&& entry_names(r@) == exposed_names(names_view(taken@), pos.map_values(|p: (int, int)| tool_names_at(sv, p)))
        }),
{
    let ghost sv = states_view(states@);
    let ghost tv = names_view(taken@);
    let mut names = copy_texts(taken);
    assert(names_view(names@) =~= texts_view(names@));
    assert(names_view(taken@) =~= texts_view(taken@));
    let mut out: Vec<McpToolEntry> = Vec::new();
    let mut i: usize = 0;
    while i < states.len()
        invariant
            i <= states.len(),
            sv == states_view(states@),
            tv == names_view(taken@),
            ({
                let pos = ready_positions(sv.take(i as int));
                &&& out@.len() == pos.len()
                &&& forall|k: int| 0 <= k < pos.len() ==> (#[trigger] out@[k]).state == pos[k].0 && out@[k].tool == pos[k].1
                &&& entry_names(out@) == exposed_names(tv, pos.map_values(|p: (int, int)| tool_names_at(sv, p)))
                &&& names_view(names@) == tv + entry_names(out@)
            }),
        decreases states.len() - i,
    {
        let ghost pos0 = ready_positions(sv.take(i as int));
        assert(sv.take(i + 1).drop_last() =~= sv.take(i as int));
        assert(sv.take(i + 1)[i as int] == sv[i as int]);
        if matches!(states[i].status, McpStatus::Ready) {
            let ghost base = out@;
            let tools = &states[i].tools;
            assert(sv[i as int].tools == tools@);
            let mut j: usize = 0;
            while j < tools.len()
                invariant
                    j <= tools.len(),
                    i < states.len(),
                    sv == states_view(states@),
                    tv == names_view(taken@),
                    tools@ == sv[i as int].tools,
                    out@.len() == base.len() + j,
                    out@.len() == pos0.len() + j,
                    forall|k: int| 0 <= k < base.len() ==> #[trigger] out@[k] == base[k],
                    forall|k: int| base.len() <= k < out@.len() ==> (#[trigger] out@[k]).state == i && out@[k].tool == k - base.len(),
                    ({
                        let pos = pos0 + Seq::new(j as nat, |q: int| (i as int, q));
                        &&& entry_names(out@) == exposed_names(tv, pos.map_values(|p: (int, int)| tool_names_at(sv, p)))
                        &&& names_view(names@) == tv + entry_names(out@)
                    }),
                decreases tools.len() - j,
            {
                let ghost posj = pos0 + Seq::new(j as nat, |q: int| (i as int, q));
                let ghost posj1 = pos0 + Seq::new((j + 1) as nat, |q: int| (i as int, q));
                let ghost mj = posj.map_values(|p: (int, int)| tool_names_at(sv, p));
                let ghost mj1 = posj1.map_values(|p: (int, int)| tool_names_at(sv, p));
                assert(mj1.drop_last() =~= mj);
                assert(mj1.last() == (tools@[j as int].name@, tools@[j as int].server@));
                let exposed = exposed_name(&names, tools[j].name.as_str(), tools[j].server.as_str());
                let ghost before_names = names@;
                let ghost before_out = out@;
                names.push(owned(exposed.as_str()));
                out.push(McpToolEntry { exposed, state: i, tool: j });
                assert(entry_names(out@) =~= entry_names(before_out).push(out@.last().exposed@));
                assert(names_view(names@) =~= names_view(before_names).push(out@.last().exposed@));
                assert(names_view(names@) =~= tv + entry_names(out@));
                j = j + 1;
            }
            assert(pos0 + Seq::new(tools.len() as nat, |q: int| (i as int, q)) =~= ready_positions(sv.take(i + 1)));
        }
        i = i + 1;
    }
    assert(sv.take(states.len() as int) =~= sv);
    out
}

proof fn lemma_kept_clients_keeps(cl: Seq<McpServerConfigView>, d: Seq<McpServerConfigView>)
    ensures
        forall|i: int| 0 <= i < cl.len() && config_for(d, (#[trigger] cl[i]).name) == Some(cl[i]) ==> config_in(
            kept_clients(cl, d),
            cl[i],
        ),
    decreases cl.len(),
{
    if cl.len() > 0 {
        let prev = cl.drop_last();
        lemma_kept_clients_keeps(prev, d);
        let k = kept_clients(cl, d);
        assert forall|i: int| 0 <= i < cl.len() && config_for(d, (#[trigger] cl[i]).name) == Some(cl[i]) implies config_in(
            k,
            cl[i],
        ) by {
            if i < cl.len() - 1 {
                assert(prev[i] == cl[i]);
                let j = choose|j: int| 0 <= j < kept_clients(prev, d).len() && #[trigger] kept_clients(prev, d)[j] == prev[i];
                assert(k[j] == cl[i]);
            } else {
                assert(k[k.len() - 1] == cl[i]);
            }
        }
    }
}

/// A reload keeps exactly the live connections whose configuration is
/// unchanged: every kept one was live and is now wanted with that very
/// configuration, and every live one so wanted is kept.
pub proof fn law_reload_keeps_unchanged(clients: Seq<McpServerConfigView>, servers: Seq<McpServerConfigView>)
    ensures
        ({
            let d = desired_of(servers);
            let k = kept_clients(clients, d);
            &&& forall|i: int| 0 <= i < k.len() ==> config_in(clients, #[trigger] k[i]) && config_for(d, k[i].name) == Some(k[i])
            &&& forall|i: int| 0 <= i < clients.len() && config_for(d, (#[trigger] clients[i]).name) == Some(clients[i])
                ==> config_in(k, clients[i])
        }),
{
    let d = desired_of(servers);
    lemma_kept_clients(clients, d);
    lemma_kept_clients_keeps(clients, d);
}


proof fn lemma_desired_from(servers: Seq<McpServerConfigView>)
    ensures
        forall|i: int| 0 <= i < desired_of(servers).len() ==> servers.contains(#[trigger] desired_of(servers)[i]),
    decreases servers.len(),
{
    if servers.len() > 0 {
        let t = servers.drop_last();
        lemma_desired_from(t);
        let prev = desired_of(t);
        let c = servers.last();
        if c.enabled && c.name.len() > 0 {
            lemma_put_config(prev, c);
        }
        let d = desired_of(servers);
        assert forall|i: int| 0 <= i < d.len() implies servers.contains(#[trigger] d[i]) by {
            if d[i] == c {
                assert(servers[servers.len() - 1] == c);
            } else {
                assert(i < prev.len() && d[i] == prev[i]);
                assert(t.contains(prev[i]));
                let j = choose|j: int| 0 <= j < t.len() && t[j] == prev[i];
                assert(servers[j] == t[j]);
            }
        }
    }
}

/// The snapshot holds each server at most once, and only servers that are
/// configured, enabled and named: after a reload, servers of the list that
/// reload was given.
pub proof fn law_snapshot_servers(reg: RegistryView, servers: Seq<McpServerConfigView>)
    requires
        reg.wf(),
    ensures
        states_unique(reg.snapshot),
        forall|i: int|
            0 <= i < reg.snapshot.len() ==> exists|j: int|
                0 <= j < reg.desired.len() && reg.desired[j].name == (#[trigger] reg.snapshot[i]).name
                    && reg.desired[j].enabled && reg.desired[j].name.len() > 0,
        reg.desired == desired_of(servers) ==> forall|j: int|
            0 <= j < reg.desired.len() ==> servers.contains(#[trigger] reg.desired[j]),
{
    assert forall|i: int| 0 <= i < reg.snapshot.len() implies exists|j: int|
        0 <= j < reg.desired.len() && reg.desired[j].name == (#[trigger] reg.snapshot[i]).name
            && reg.desired[j].enabled && reg.desired[j].name.len() > 0 by {
        let n = reg.snapshot[i].name;
        assert(has_state(reg.snapshot, n));
        assert(has_config(reg.desired, n));
        let j = choose|j: int| 0 <= j < reg.desired.len() && (#[trigger] reg.desired[j]).name == n;
        assert(reg.desired[j].enabled && reg.desired[j].name.len() > 0);
    }
    if reg.desired == desired_of(servers) {
        lemma_desired_from(servers);
    }
}


/// A server is reached as it is configured: a stdio server is launched with
/// exactly its command, arguments and environment, and an HTTP server is
/// reached at its URL with its token (when one is set); each plan is made
/// exactly when its command or URL is set.
pub proof fn law_plan_as_configured(c: McpServerConfigView)
    ensures
        connect_plan_of(c) matches Ok(ConnectPlanView::Launch { command, args, env }) ==> (c.transport
            == McpTransport::Stdio && command == c.command && args == c.args && env == c.env),
        connect_plan_of(c) matches Ok(ConnectPlanView::Remote { url, auth }) ==> (c.transport == McpTransport::Http
            && url == c.url && (auth matches Some(t) ==> t == c.auth_token) && (auth is None <==> c.auth_token.len()
            == 0)),
        connect_plan_of(c) is Ok <==> (if c.transport == McpTransport::Stdio {
            c.command.len() > 0
        } else {
            c.url.len() > 0
        }),
{
}

} // verus!
