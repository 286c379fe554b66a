//! The decisions behind the settings window: what each MCP server row shows,
//! how the add/edit dialog's fields become a server configuration (and when
//! they are refused), how the server list changes, and which models the model
//! picker offers.

use vstd::prelude::*;

use crate::mcp::{
    env_sorted, pairs_view, McpServerConfig, McpStatus, McpStatusView, McpTransport, ServerState,
    ServerStateView, states_view,
};
use crate::text::{
    chars_of, decimal, first_of_either, first_of_either_exec, is_white_space, is_white_space_exec,
    join_texts, joined, lemma_text_lt_order, owned, push_char, push_decimal, push_str, slice_of,
    string_of,
    has_char, leading_ws, lemma_split_on_nonempty, split_on, text_less, text_lines,
    text_lines_exec, text_lt, texts_view, trailing_ws, trim, trim_chars, without_cr,
};

verus! {

// ---------------------------------------------------------------------------
// Server rows
// ---------------------------------------------------------------------------

/// Position of the first state named `name`.
pub open spec fn first_state(states: Seq<ServerStateView>, name: Seq<char>) -> Option<int>
    decreases states.len(),
{
    if states.len() == 0 {
        None
    } else if states[0].name == name {
        Some(0)
    } else {
        match first_state(states.drop_first(), name) {
            Some(i) => Some(i + 1),
            None => None,
        }
    }
}

/// `n tool` / `n tools`.
pub open spec fn tool_count_text(n: nat) -> Seq<char> {
    decimal(n) + " tool"@ + (if n == 1 { Seq::empty() } else { "s"@ })
}

/// The status shown for a server (and the tooltip with the full error, if
/// any): disabled servers show no live status; an enabled one shows the
/// state of its first entry in the snapshot, connecting if it has none yet.
pub open spec fn row_status(enabled: bool, name: Seq<char>, states: Seq<ServerStateView>) -> (Seq<char>, Option<Seq<char>>) {
    if !enabled {
        ("Disabled"@, None)
    } else {
        match first_state(states, name) {
            None => ("Connecting…"@, None),
            Some(i) => match states[i].status {
                McpStatusView::Connecting => ("Connecting…"@, None),
                McpStatusView::Ready => (tool_count_text(states[i].tools.len()), None),
                McpStatusView::Error(m) => ("Error"@, Some(m)),
            },
        }
    }
}

proof fn lemma_first_state(states: Seq<ServerStateView>, name: Seq<char>)
    ensures
        first_state(states, name) matches Some(i) ==> 0 <= i < states.len() && states[i].name == name,
        first_state(states, name) matches Some(i) ==> forall|j: int| 0 <= j < i ==> states[j].name != name,
        first_state(states, name) is None ==> forall|j: int| 0 <= j < states.len() ==> states[j].name != name,
    decreases states.len(),
{
    if states.len() > 0 && states[0].name != name {
        lemma_first_state(states.drop_first(), name);
        assert forall|j: int| 1 <= j < states.len() implies states[j].name == states.drop_first()[j - 1].name by {
        }
    }
}

pub open spec fn status_pair_view(r: (String, Option<String>)) -> (Seq<char>, Option<Seq<char>>) {
    (r.0@, match r.1 {
        Some(t) => Some(t@),
        None => None,
    })
}

fn same_name(a: &str, b: &str) -> (r: bool)
    ensures
        r == (a@ == b@),
{
    let x = chars_of(a);
    let y = chars_of(b);
    crate::text::chars_eq(x.as_slice(), y.as_slice())
}

/// The status text of a server's snapshot entry.
fn state_status(state: &ServerState) -> (r: (String, Option<String>))
    ensures
        status_pair_view(r) == match state@.status {
            McpStatusView::Connecting => ("Connecting…"@, None),
            McpStatusView::Ready => (tool_count_text(state@.tools.len()), None),
            McpStatusView::Error(m) => ("Error"@, Some(m)),
        },
{
    match &state.status {
        McpStatus::Connecting => (owned("Connecting…"), None),
        McpStatus::Ready => {
            let count = state.tools.len();
            let mut text = String::new();
            push_decimal(&mut text, count as u64);
            push_str(&mut text, " tool");
            if count != 1 {
                push_str(&mut text, "s");
            }
            assert(text@ =~= tool_count_text(state@.tools.len()));
            (text, None)
        },
        McpStatus::Error(message) => (owned("Error"), Some(owned(message.as_str()))),
    }
}

/// The status text (and optional tooltip with the full error) for a server
/// row, from the registry's snapshot.
pub fn status_text(server: &McpServerConfig, snapshot: &[ServerState]) -> (r: (String, Option<String>))
    ensures
        status_pair_view(r) == row_status(server.enabled, server.name@, states_view(snapshot@)),
{
    if !server.enabled {
        return (owned("Disabled"), None);
    }
    let ghost sv = states_view(snapshot@);
    proof {
        lemma_first_state(sv, server.name@);
    }
    let mut i: usize = 0;
    while i < snapshot.len()
        invariant
            i <= snapshot.len(),
            server.enabled,
            sv == states_view(snapshot@),
            forall|j: int| 0 <= j < i ==> sv[j].name != server.name@,
            first_state(sv, server.name@) matches Some(f) ==> 0 <= f < sv.len() && sv[f].name == server.name@
                && forall|j: int| 0 <= j < f ==> sv[j].name != server.name@,
            first_state(sv, server.name@) is None ==> forall|j: int| 0 <= j < sv.len() ==> sv[j].name != server.name@,
        decreases snapshot.len() - i,
    {
        assert(sv[i as int] == snapshot@[i as int]@);
        if same_name(snapshot[i].name.as_str(), server.name.as_str()) {
            assert(first_state(sv, server.name@) == Some(i as int));
            let state = &snapshot[i];
            assert(sv[i as int] == state@);
            return state_status(state);
        }
        i = i + 1;
    }
    (owned("Connecting…"), None)
}

// ---------------------------------------------------------------------------
// The server dialog
// ---------------------------------------------------------------------------

/// `str::split_whitespace`: the maximal runs of non-white-space characters.
pub open spec fn words(s: Seq<char>) -> Seq<Seq<char>>
    decreases s.len(),
{
    if s.len() == 0 {
        Seq::empty()
    } else {
        let w = words(s.drop_last());
        let c = s.last();
        if is_white_space(c) {
            w
        } else if s.len() >= 2 && !is_white_space(s[s.len() - 2]) {
            w.update(w.len() - 1, w.last().push(c))
        } else {
            w.push(seq![c])
        }
    }
}

proof fn lemma_words_nonempty(s: Seq<char>)
    ensures
        s.len() > 0 && !is_white_space(s.last()) ==> words(s).len() > 0,
    decreases s.len(),
{
    if s.len() > 0 {
        lemma_words_nonempty(s.drop_last());
    }
}

/// The arguments typed in the dialog, split on white space.
pub fn split_args(text: &str) -> (r: Vec<String>)
    ensures
        texts_view(r@) == words(text@),
{
    let v = chars_of(text);
    let mut out: Vec<String> = Vec::new();
    let mut cur: Vec<char> = Vec::new();
    let mut in_word = false;
    let mut i: usize = 0;
    while i < v.len()
        invariant
            i <= v.len(),
            v@ == text@,
            in_word == (i > 0 && !is_white_space(v@[i - 1])),
            words(v@.take(i as int)) == texts_view(out@) + (if in_word { seq![cur@] } else { Seq::empty() }),
        decreases v.len() - i,
    {
        let c = v[i];
        let ghost t = v@.take(i + 1);
        assert(t.drop_last() =~= v@.take(i as int));
        assert(t.last() == c);
        if is_white_space_exec(c) {
            if in_word {
                let ghost before = out@;
                out.push(string_of(cur.as_slice()));
                assert(texts_view(out@) =~= texts_view(before).push(cur@));
                cur = Vec::new();
            }
            in_word = false;
        } else {
            if in_word {
                assert(t[t.len() - 2] == v@[i - 1]);
                cur.push(c);
            } else {
                if i > 0 {
                    assert(t[t.len() - 2] == v@[i - 1]);
                }
                cur = Vec::new();
                cur.push(c);
                assert(cur@ =~= seq![c]);
            }
            in_word = true;
        }
        i = i + 1;
    }
    if in_word {
        let ghost before = out@;
        out.push(string_of(cur.as_slice()));
        assert(texts_view(out@) =~= texts_view(before).push(cur@));
    }
    assert(v@.take(v.len() as int) =~= v@);
    out
}

/// Which dialog fields are refused: an empty or already-used name, an empty
/// URL for an HTTP server, an empty command for a stdio server.
pub struct ServerFormCheck {
    pub name_bad: bool,
    pub url_bad: bool,
    pub command_bad: bool,
}

/// Whether another server (than the one at `existing`) already has `name`.
pub open spec fn name_taken(servers: Seq<McpServerConfig>, existing: Option<usize>, name: Seq<char>) -> bool {
    exists|i: int| 0 <= i < servers.len() && (#[trigger] servers[i]).name@ == name && existing != Some(i as usize)
}

/// Check the dialog's (trimmed) name, command and URL.
pub fn check_server_form(
    servers: &[McpServerConfig],
    existing: Option<usize>,
    name: &str,
    http: bool,
    command: &str,
    url: &str,
) -> (r: ServerFormCheck)
    ensures
        r.name_bad == (name@.len() == 0 || name_taken(servers@, existing, name@)),
        r.url_bad == (http && url@.len() == 0),
        r.command_bad == (!http && command@.len() == 0),
{
    let mut duplicate = false;
    let mut i: usize = 0;
    while i < servers.len()
        invariant
            i <= servers.len(),
            duplicate == exists|j: int| 0 <= j < i && (#[trigger] servers@[j]).name@ == name@ && existing != Some(j as usize),
        decreases servers.len() - i,
    {
        let other = match existing {
            Some(e) => e != i,
            None => true,
        };
        if other && same_name(servers[i].name.as_str(), name) {
            duplicate = true;
        }
        i = i + 1;
    }
    ServerFormCheck {
        name_bad: name.is_empty() || duplicate,
        url_bad: http && url.is_empty(),
        command_bad: !http && command.is_empty(),
    }
}

// ---------------------------------------------------------------------------
// The server list
// ---------------------------------------------------------------------------

/// Store `server` at `existing` when that is a position of the list, else
/// append it.
pub fn save_server(servers: &mut Vec<McpServerConfig>, existing: Option<usize>, server: McpServerConfig)
    ensures
        match existing {
            Some(i) if i < old(servers).len() => final(servers)@ == old(servers)@.update(i as int, server),
            _ => final(servers)@ == old(servers)@.push(server),
        },
{
    match existing {
        Some(i) => {
            if i < servers.len() {
                servers.set(i, server);
            } else {
                servers.push(server);
            }
        },
        None => servers.push(server),
    }
}

/// Remove the server at `index`, if there is one.
pub fn remove_server(servers: &mut Vec<McpServerConfig>, index: usize)
    ensures
        index < old(servers).len() ==> final(servers)@ == old(servers)@.remove(index as int),
        index >= old(servers).len() ==> final(servers)@ == old(servers)@,
{
    if index < servers.len() {
        servers.remove(index);
    }
}

/// Turn the server at `index` on or off, if there is one.
pub fn set_server_enabled(servers: &mut Vec<McpServerConfig>, index: usize, enabled: bool)
    ensures
        final(servers)@.len() == old(servers)@.len(),
        forall|j: int| 0 <= j < old(servers)@.len() && j != index ==> final(servers)@[j] == old(servers)@[j],
        index < old(servers).len() ==> final(servers)@[index as int]@ == (crate::mcp::McpServerConfigView {
            enabled,
            ..old(servers)@[index as int]@
        }),
{
    if index < servers.len() {
        let mut s = servers[index].clone();
        s.enabled = enabled;
        servers.set(index, s);
    }
}

// ---------------------------------------------------------------------------
// The model picker
// ---------------------------------------------------------------------------

/// The models offered: the listed ones, with the configured model put first
/// when it is set and not listed; and the position of the configured model.
pub open spec fn offered_models(models: Seq<Seq<char>>, current: Seq<char>) -> Seq<Seq<char>> {
    if current.len() > 0 && !models.contains(current) {
        seq![current] + models
    } else {
        models
    }
}

/// Position of the first occurrence of `x` in `s`.
pub open spec fn first_position(s: Seq<Seq<char>>, x: Seq<char>) -> Option<int>
    decreases s.len(),
{
    if s.len() == 0 {
        None
    } else if s[0] == x {
        Some(0)
    } else {
        match first_position(s.drop_first(), x) {
            Some(i) => Some(i + 1),
            None => None,
        }
    }
}

pub open spec fn opt_index(o: Option<usize>) -> Option<int> {
    match o {
        Some(i) => Some(i as int),
        None => None,
    }
}

/// The model list after a fetch: nothing changes when the endpoint lists no
/// models; otherwise the offered models and the one to select.
pub fn merge_models(models: Vec<String>, current: &str) -> (r: Option<(Vec<String>, Option<usize>)>)
    ensures
        models@.len() == 0 ==> r is None,
        models@.len() > 0 ==> (r matches Some((list, selected)) && texts_view(list@) == offered_models(
            texts_view(models@),
            current@,
        ) && opt_index(selected) == first_position(offered_models(texts_view(models@), current@), current@)),
{
    if models.len() == 0 {
        return None;
    }
    let ghost mv = texts_view(models@);
    let mut listed = false;
    let mut i: usize = 0;
    while i < models.len()
        invariant
            i <= models.len(),
            mv == texts_view(models@),
            listed == exists|j: int| 0 <= j < i && #[trigger] mv[j] == current@,
        decreases models.len() - i,
    {
        assert(mv[i as int] == models@[i as int]@);
        if same_name(models[i].as_str(), current) {
            listed = true;
        }
        i = i + 1;
    }
    assert(listed == mv.contains(current@));
    assert(mv.len() > 0);
    let mut list = models;
    if !current.is_empty() && !listed {
        let ghost before = list@;
        list.insert(0, owned(current));
        assert(texts_view(list@) =~= seq![current@] + texts_view(before));
    }
    let ghost lv = texts_view(list@);
    let mut k: usize = 0;
    while k < list.len()
        invariant
            k <= list.len(),
            lv == texts_view(list@),
            lv == offered_models(mv, current@),
            mv == texts_view(models@),
            mv.len() > 0,
            forall|j: int| 0 <= j < k ==> lv[j] != current@,
        decreases list.len() - k,
    {
        if same_name(list[k].as_str(), current) {
            proof {
                lemma_first_position(lv, current@, k as int);
            }
            return Some((list, Some(k)));
        }
        k = k + 1;
    }
    proof {
        lemma_first_position_none(lv, current@);
    }
    Some((list, None))
}

proof fn lemma_first_position(s: Seq<Seq<char>>, x: Seq<char>, k: int)
    requires
        0 <= k < s.len(),
        s[k] == x,
        forall|j: int| 0 <= j < k ==> s[j] != x,
    ensures
        first_position(s, x) == Some(k),
    decreases k,
{
    if k > 0 {
        assert forall|j: int| 0 <= j < k - 1 implies s.drop_first()[j] != x by {
            assert(s.drop_first()[j] == s[j + 1]);
        }
        lemma_first_position(s.drop_first(), x, k - 1);
    }
}

proof fn lemma_first_position_none(s: Seq<Seq<char>>, x: Seq<char>)
    requires
        forall|j: int| 0 <= j < s.len() ==> s[j] != x,
    ensures
        first_position(s, x) is None,
    decreases s.len(),
{
    if s.len() > 0 {
        assert forall|j: int| 0 <= j < s.drop_first().len() implies s.drop_first()[j] != x by {
            assert(s.drop_first()[j] == s[j + 1]);
        }
        lemma_first_position_none(s.drop_first(), x);
    }
}

// ---------------------------------------------------------------------------
// Environment text
// ---------------------------------------------------------------------------

/// One environment entry as a dialog line.
pub open spec fn env_line(p: (Seq<char>, Seq<char>)) -> Seq<char> {
    p.0 + seq!['='] + p.1
}

/// An environment listing as the dialog shows it: `KEY=VALUE` lines.
pub open spec fn env_text(env: Seq<(Seq<char>, Seq<char>)>) -> Seq<char> {
    joined(env.map_values(|p: (Seq<char>, Seq<char>)| env_line(p)), "\n"@)
}

/// Render env vars as `KEY=VALUE` lines for the dialog's text area.
pub fn format_env(env: &Vec<(String, String)>) -> (r: String)
    ensures
        r@ == env_text(pairs_view(env@)),
{
    let ghost pv = pairs_view(env@);
    let mut lines: Vec<String> = Vec::new();
    let mut i: usize = 0;
    while i < env.len()
        invariant
            i <= env.len(),
            pv == pairs_view(env@),
            texts_view(lines@) == pv.take(i as int).map_values(|p: (Seq<char>, Seq<char>)| env_line(p)),
        decreases env.len() - i,
    {
        let mut line = owned(env[i].0.as_str());
        push_char(&mut line, '=');
        push_str(&mut line, env[i].1.as_str());
        assert(line@ =~= env_line(pv[i as int]));
        let ghost before = lines@;
        lines.push(line);
        assert(texts_view(lines@) =~= texts_view(before).push(env_line(pv[i as int])));
        assert(pv.take(i + 1).map_values(|p: (Seq<char>, Seq<char>)| env_line(p)) =~= pv.take(i as int).map_values(
            |p: (Seq<char>, Seq<char>)| env_line(p),
        ).push(env_line(pv[i as int])));
        i = i + 1;
    }
    assert(pv.take(env.len() as int) =~= pv);
    join_texts(&lines, "\n")
}

/// The entry a dialog line gives: split at its first `=`, key and value
/// trimmed; none for a line without `=` or with an empty key.
pub open spec fn env_entry(line: Seq<char>) -> Option<(Seq<char>, Seq<char>)> {
    let t = trim(line);
    match first_of_either(t, '=', '=') {
        None => None,
        Some(i) => {
            let k = trim(t.take(i));
            if k.len() == 0 {
                None
            } else {
                Some((k, trim(t.skip(i + 1))))
            }
        },
    }
}

/// The entries of the dialog's lines, in order.
pub open spec fn env_entries(lines: Seq<Seq<char>>) -> Seq<(Seq<char>, Seq<char>)>
    decreases lines.len(),
{
    if lines.len() == 0 {
        Seq::empty()
    } else {
        let prev = env_entries(lines.drop_last());
        match env_entry(lines.last()) {
            Some(p) => prev.push(p),
            None => prev,
        }
    }
}

/// The map a list of entries makes, a later entry of a key winning.
pub open spec fn env_map(pairs: Seq<(Seq<char>, Seq<char>)>) -> Map<Seq<char>, Seq<char>>
    decreases pairs.len(),
{
    if pairs.len() == 0 {
        Map::empty()
    } else {
        env_map(pairs.drop_last()).insert(pairs.last().0, pairs.last().1)
    }
}

pub proof fn lemma_first_of_either_bound(s: Seq<char>, a: char, b: char)
    ensures
        first_of_either(s, a, b) matches Some(i) ==> 0 <= i < s.len() && (s[i] == a || s[i] == b),
    decreases s.len(),
{
    if s.len() > 0 && s[0] != a && s[0] != b {
        lemma_first_of_either_bound(s.drop_first(), a, b);
    }
}

fn env_entry_exec(line: &[char]) -> (r: Option<(String, String)>)
    ensures
        match r {
            Some(p) => env_entry(line@) == Some((p.0@, p.1@)),
            None => env_entry(line@) is None,
        },
{
    let t = trim_chars(line);
    assert(t@.subrange(0, t@.len() as int) =~= t@);
    match first_of_either_exec(t.as_slice(), 0, t.len(), '=', '=') {
        None => None,
        Some(i) => {
            let head = slice_of(t.as_slice(), 0, i);
            let key = trim_chars(head.as_slice());
            if key.len() == 0 {
                assert(t@.take(i as int) =~= head@);
                return None;
            }
            let tail = slice_of(t.as_slice(), i + 1, t.len());
            let value = trim_chars(tail.as_slice());
            assert(t@.take(i as int) =~= head@);
            assert(t@.skip(i + 1) =~= tail@);
            Some((string_of(key.as_slice()), string_of(value.as_slice())))
        },
    }
}

/// Every key of `env_map(pairs)` is the key of some entry, and an entry not
/// followed by another of its key gives the value.
proof fn lemma_env_map(pairs: Seq<(Seq<char>, Seq<char>)>)
    ensures
        forall|k: Seq<char>| #[trigger] env_map(pairs).contains_key(k) <==> exists|i: int| 0 <= i < pairs.len() && (#[trigger] pairs[i]).0 == k,
        forall|i: int| 0 <= i < pairs.len() && (forall|j: int| i < j < pairs.len() ==> (#[trigger] pairs[j]).0 != pairs[i].0) ==> env_map(pairs)[(#[trigger] pairs[i]).0] == pairs[i].1,
    decreases pairs.len(),
{
    if pairs.len() > 0 {
        let prev = pairs.drop_last();
        lemma_env_map(prev);
        assert forall|k: Seq<char>| #[trigger] env_map(pairs).contains_key(k) <==> exists|i: int| 0 <= i < pairs.len() && (#[trigger] pairs[i]).0 == k by {
            if env_map(pairs).contains_key(k) && k != pairs.last().0 {
                assert(env_map(prev).contains_key(k));
                let i = choose|i: int| 0 <= i < prev.len() && (#[trigger] prev[i]).0 == k;
                assert(pairs[i] == prev[i]);
            }
            if k == pairs.last().0 {
                assert(pairs[pairs.len() - 1].0 == k);
            }
            if exists|i: int| 0 <= i < pairs.len() && (#[trigger] pairs[i]).0 == k {
                let i = choose|i: int| 0 <= i < pairs.len() && (#[trigger] pairs[i]).0 == k;
                if i < pairs.len() - 1 {
                    assert(prev[i] == pairs[i]);
                    assert(env_map(prev).contains_key(k));
                }
            }
        }
        assert forall|i: int| 0 <= i < pairs.len() && (forall|j: int| i < j < pairs.len() ==> (#[trigger] pairs[j]).0 != pairs[i].0) implies env_map(pairs)[(#[trigger] pairs[i]).0] == pairs[i].1 by {
            if i < pairs.len() - 1 {
                assert(prev[i] == pairs[i]);
                assert forall|j: int| i < j < prev.len() implies (#[trigger] prev[j]).0 != prev[i].0 by {
                    assert(prev[j] == pairs[j]);
                }
                assert(pairs[pairs.len() - 1].0 != pairs[i].0);
            }
        }
    }
}

/// With keys in ascending order, the map holds exactly each entry.
proof fn lemma_env_map_sorted(pairs: Seq<(Seq<char>, Seq<char>)>)
    requires
        env_sorted(pairs),
    ensures
        forall|k: Seq<char>| #[trigger] env_map(pairs).contains_key(k) <==> exists|i: int| 0 <= i < pairs.len() && (#[trigger] pairs[i]).0 == k,
        forall|i: int| 0 <= i < pairs.len() ==> env_map(pairs)[(#[trigger] pairs[i]).0] == pairs[i].1,
{
    lemma_env_map(pairs);
    assert forall|i: int| 0 <= i < pairs.len() implies env_map(pairs)[(#[trigger] pairs[i]).0] == pairs[i].1 by {
        assert forall|j: int| i < j < pairs.len() implies (#[trigger] pairs[j]).0 != pairs[i].0 by {
            lemma_text_lt_order(pairs[i].0, pairs[j].0, pairs[j].0);
        }
    }
}

/// Store `value` under `key` in an ascending environment listing.
#[verifier::spinoff_prover]
fn env_insert(env: &mut Vec<(String, String)>, key: String, value: String)
    requires
        env_sorted(pairs_view(old(env)@)),
    ensures
        env_sorted(pairs_view(final(env)@)),
        env_map(pairs_view(final(env)@)) == env_map(pairs_view(old(env)@)).insert(key@, value@),
{
    let ghost s = pairs_view(env@);
    let mut i: usize = 0;
    while i < env.len() && text_less(env[i].0.as_str(), key.as_str())
        invariant
            i <= env.len(),
            s == pairs_view(env@),
            forall|j: int| 0 <= j < i ==> text_lt(#[trigger] s[j].0, key@),
        decreases env.len() - i,
    {
        i = i + 1;
    }
    proof {
        lemma_env_map_sorted(s);
    }
    let ghost m = env_map(s).insert(key@, value@);
    if i < env.len() && same_name(env[i].0.as_str(), key.as_str()) {
        let ghost kv = value@;
        env.set(i, (key, value));
        let ghost n = pairs_view(env@);
        assert(n =~= s.update(i as int, (s[i as int].0, kv)));
        assert(env_sorted(n)) by {
            assert forall|p: int, q: int| 0 <= p < q < n.len() implies text_lt(#[trigger] n[p].0, #[trigger] n[q].0) by {
                assert(n[p].0 == s[p].0 && n[q].0 == s[q].0);
            }
        }
        proof {
            lemma_env_map_sorted(n);
            assert forall|k: Seq<char>| #[trigger] env_map(n).contains_key(k) <==> m.contains_key(k) by {
                if m.contains_key(k) && k != key@ {
                    let j = choose|j: int| 0 <= j < s.len() && (#[trigger] s[j]).0 == k;
                    assert(n[j].0 == k);
                }
                if k == key@ {
                    assert(n[i as int].0 == k);
                }
            }
            assert forall|k: Seq<char>| #[trigger] env_map(n).contains_key(k) implies env_map(n)[k] == m[k] by {
                let j = choose|j: int| 0 <= j < n.len() && (#[trigger] n[j]).0 == k;
                if j != i {
                    assert(n[j] == s[j]);
                }
            }
            assert(env_map(n) =~= m);
        }
    } else {
        proof {
            if i < env.len() {
                lemma_text_lt_order(s[i as int].0, key@, key@);
                assert(text_lt(key@, s[i as int].0));
            }
        }
        let ghost kv = (key@, value@);
        env.insert(i, (key, value));
        let ghost n = pairs_view(env@);
        assert(n =~= s.insert(i as int, kv));
        assert(env_sorted(n)) by {
            assert forall|p: int, q: int| 0 <= p < q < n.len() implies text_lt(#[trigger] n[p].0, #[trigger] n[q].0) by {
                if q == i {
                    assert(n[p] == s[p]);
                } else if p == i {
                    assert(n[q] == s[q - 1]);
                    if q - 1 > i {
                        lemma_text_lt_order(key@, s[i as int].0, s[q - 1].0);
                    }
                } else if p < i && q > i {
                    assert(n[p] == s[p] && n[q] == s[q - 1]);
                } else if q < i {
                    assert(n[p] == s[p] && n[q] == s[q]);
                } else {
                    assert(n[p] == s[p - 1] && n[q] == s[q - 1]);
                }
            }
        }
        proof {
            lemma_env_map_sorted(n);
            assert forall|k: Seq<char>| #[trigger] env_map(n).contains_key(k) <==> m.contains_key(k) by {
                if m.contains_key(k) && k != key@ {
                    let j = choose|j: int| 0 <= j < s.len() && (#[trigger] s[j]).0 == k;
                    if j < i {
                        assert(n[j].0 == k);
                    } else {
                        assert(n[j + 1].0 == k);
                    }
                }
                if k == key@ {
                    assert(n[i as int].0 == k);
                }
                if env_map(n).contains_key(k) {
                    let j = choose|j: int| 0 <= j < n.len() && (#[trigger] n[j]).0 == k;
                    if j < i {
                        assert(s[j].0 == k);
                    } else if j > i {
                        assert(s[j - 1].0 == k);
                    }
                }
            }
            assert forall|k: Seq<char>| #[trigger] env_map(n).contains_key(k) implies env_map(n)[k] == m[k] by {
                let j = choose|j: int| 0 <= j < n.len() && (#[trigger] n[j]).0 == k;
                if j < i {
                    assert(n[j] == s[j]);
                    lemma_text_lt_order(s[j].0, key@, key@);
                } else if j > i {
                    assert(n[j] == s[j - 1]);
                    lemma_text_lt_order(key@, s[j - 1].0, s[j - 1].0);
                    if i < s.len() {
                        lemma_text_lt_order(key@, s[i as int].0, s[j - 1].0);
                    }
                }
            }
            assert(env_map(n) =~= m);
        }
    }
}

/// Parse `KEY=VALUE` lines back into an environment listing (keys ascending,
/// a later line of a key winning), skipping blank and invalid lines.
pub fn parse_env(text: &str) -> (r: Vec<(String, String)>)
    ensures
        env_sorted(pairs_view(r@)),
        env_map(pairs_view(r@)) == env_map(env_entries(text_lines(text@))),
{
    let v = chars_of(text);
    let lines = text_lines_exec(v.as_slice());
    let ghost tl = text_lines(text@);
    let mut env: Vec<(String, String)> = Vec::new();
    let mut i: usize = 0;
    while i < lines.len()
        invariant
            i <= lines.len(),
            lines@.len() == tl.len(),
            tl == text_lines(text@),
            forall|k: int| 0 <= k < lines@.len() ==> #[trigger] lines@[k]@ == tl[k],
            env_sorted(pairs_view(env@)),
            env_map(pairs_view(env@)) == env_map(env_entries(tl.take(i as int))),
        decreases lines.len() - i,
    {
        assert(tl.take(i + 1).drop_last() =~= tl.take(i as int));
        assert(tl.take(i + 1).last() == lines@[i as int]@);
        let ghost prev = env_entries(tl.take(i as int));
        match env_entry_exec(lines[i].as_slice()) {
            Some((k, val)) => {
                assert(env_entries(tl.take(i + 1)) == prev.push((k@, val@)));
                assert(prev.push((k@, val@)).drop_last() =~= prev);
                env_insert(&mut env, k, val);
            },
            None => {},
        }
        i = i + 1;
    }
    assert(tl.take(lines.len() as int) =~= tl);
    env
}

// ---------------------------------------------------------------------------
// The environment text round trip
// ---------------------------------------------------------------------------

/// An environment listing the dialog text can carry unchanged: keys
/// non-empty, without `=`, and keys and values without line breaks or
/// surrounding white space.
pub open spec fn env_clean(env: Seq<(Seq<char>, Seq<char>)>) -> bool {
    forall|i: int| 0 <= i < env.len() ==> {
        let (k, v) = #[trigger] env[i];
        &&& k.len() > 0
        &&& trim(k) == k
        &&& trim(v) == v
        &&& !has_char(k, '=')
        &&& !has_char(k, '\n')
        &&& !has_char(v, '\n')
    }
}

#[verifier::spinoff_prover]
#[verifier::rlimit(50)]
proof fn lemma_sorted_env_determined(a: Seq<(Seq<char>, Seq<char>)>, b: Seq<(Seq<char>, Seq<char>)>)
    requires
        env_sorted(a),
        env_sorted(b),
        env_map(a) == env_map(b),
    ensures
        a == b,
    decreases a.len() + b.len(),
{
    lemma_env_map_sorted(a);
    lemma_env_map_sorted(b);
    if a.len() == 0 || b.len() == 0 {
        if a.len() > 0 {
            assert(env_map(a).contains_key(a[0].0));
        }
        if b.len() > 0 {
            assert(env_map(b).contains_key(b[0].0));
        }
        assert(a =~= b);
    } else {
        let ka = a.last().0;
        let kb = b.last().0;
        assert(a[a.len() - 1].0 == ka);
        assert(b[b.len() - 1].0 == kb);
        assert(env_map(b).contains_key(ka));
        assert(env_map(a).contains_key(kb));
        let i = choose|i: int| 0 <= i < b.len() && (#[trigger] b[i]).0 == ka;
        let j = choose|j: int| 0 <= j < a.len() && (#[trigger] a[j]).0 == kb;
        if ka != kb {
            assert(i < b.len() - 1);
            assert(j < a.len() - 1);
            assert(text_lt(ka, kb));
            assert(text_lt(kb, ka));
            lemma_text_lt_order(ka, kb, ka);
        }
        assert(a.last().1 == b.last().1);
        let a2 = a.drop_last();
        let b2 = b.drop_last();
        assert(env_sorted(a2));
        assert(env_sorted(b2));
        lemma_env_map_sorted(a2);
        lemma_env_map_sorted(b2);
        assert(!env_map(a2).contains_key(ka)) by {
            if env_map(a2).contains_key(ka) {
                let p = choose|p: int| 0 <= p < a2.len() && (#[trigger] a2[p]).0 == ka;
                assert(a[p].0 == ka);
                lemma_text_lt_order(ka, ka, ka);
            }
        }
        assert(!env_map(b2).contains_key(ka)) by {
            if env_map(b2).contains_key(ka) {
                let p = choose|p: int| 0 <= p < b2.len() && (#[trigger] b2[p]).0 == ka;
                assert(b[p].0 == ka);
                lemma_text_lt_order(ka, ka, ka);
            }
        }
        assert(env_map(a2) =~= env_map(a).remove(ka));
        assert(env_map(b2) =~= env_map(b).remove(ka));
        lemma_sorted_env_determined(a2, b2);
        assert(a =~= a2.push(a.last()));
        assert(b =~= b2.push(b.last()));
    }
}

proof fn lemma_split_append_plain(x: Seq<char>, b: Seq<char>, c: char)
    requires
        !has_char(b, c),
    ensures
        split_on(x + b, c) == split_on(x, c).update(split_on(x, c).len() - 1, split_on(x, c).last() + b),
    decreases b.len(),
{
    lemma_split_on_nonempty(x, c);
    if b.len() == 0 {
        assert(x + b =~= x);
        assert(split_on(x, c).last() + b =~= split_on(x, c).last());
        assert(split_on(x, c).update(split_on(x, c).len() - 1, split_on(x, c).last()) =~= split_on(x, c));
    } else {
        let b2 = b.drop_last();
        assert(!has_char(b2, c)) by {
            if has_char(b2, c) {
                let i = choose|i: int| 0 <= i < b2.len() && b2[i] == c;
                assert(b[i] == c);
            }
        }
        lemma_split_append_plain(x, b2, c);
        assert((x + b).drop_last() =~= x + b2);
        assert((x + b).last() == b.last());
        assert(b[b.len() - 1] != c);
        lemma_split_on_nonempty(x + b2, c);
        let s = split_on(x, c);
        assert((s.last() + b2).push(b.last()) =~= s.last() + b);
        assert(s.update(s.len() - 1, s.last() + b2).update(s.len() - 1, (s.last() + b2).push(b.last())) =~= s.update(
            s.len() - 1,
            s.last() + b,
        ));
    }
}

proof fn lemma_split_joined(ls: Seq<Seq<char>>)
    requires
        ls.len() >= 1,
        forall|i: int| 0 <= i < ls.len() ==> !has_char(#[trigger] ls[i], '\n'),
    ensures
        split_on(joined(ls, "\n"@), '\n') == ls,
    decreases ls.len(),
{
    reveal_strlit("\n");
    if ls.len() == 1 {
        lemma_split_append_plain(Seq::empty(), ls[0], '\n');
        assert(Seq::<char>::empty() + ls[0] =~= ls[0]);
        assert(split_on(Seq::<char>::empty(), '\n').update(0, Seq::<char>::empty() + ls[0]) =~= ls);
    } else {
        let prev = ls.drop_last();
        assert forall|i: int| 0 <= i < prev.len() implies !has_char(#[trigger] prev[i], '\n') by {
            assert(prev[i] == ls[i]);
        }
        lemma_split_joined(prev);
        let x = joined(prev, "\n"@).push('\n');
        assert(joined(ls, "\n"@) =~= x + ls.last());
        assert(x.drop_last() =~= joined(prev, "\n"@));
        assert(split_on(x, '\n') == prev.push(Seq::<char>::empty()));
        assert(!has_char(ls[ls.len() - 1], '\n'));
        lemma_split_append_plain(x, ls.last(), '\n');
        assert(Seq::<char>::empty() + ls.last() =~= ls.last());
        assert(prev.push(Seq::<char>::empty()).update(prev.len() as int, Seq::<char>::empty() + ls.last()) =~= ls);
    }
}

proof fn lemma_lines_of_joined(ls: Seq<Seq<char>>)
    requires
        forall|i: int| 0 <= i < ls.len() ==> !has_char(#[trigger] ls[i], '\n'),
        forall|i: int| 0 <= i < ls.len() ==> without_cr(#[trigger] ls[i]) == ls[i],
        ls.len() > 0 ==> ls.last().len() > 0,
    ensures
        text_lines(joined(ls, "\n"@)) == ls,
{
    if ls.len() == 0 {
        assert(joined(ls, "\n"@) =~= Seq::<char>::empty());
        let pieces = split_on(Seq::<char>::empty(), '\n');
        assert(pieces.take(0).map_values(|p: Seq<char>| without_cr(p)) =~= ls);
    } else {
        lemma_split_joined(ls);
        assert(ls.take(ls.len() - 1).map_values(|p: Seq<char>| without_cr(p)) =~= ls.take(ls.len() - 1));
        assert(ls.take(ls.len() - 1).push(ls.last()) =~= ls);
    }
}

proof fn lemma_ws_bounds(s: Seq<char>)
    ensures
        leading_ws(s) <= s.len(),
        trailing_ws(s) <= s.len(),
    decreases s.len(),
{
    if s.len() > 0 {
        lemma_ws_bounds(s.drop_first());
        lemma_ws_bounds(s.drop_last());
    }
}

proof fn lemma_trim_ends(s: Seq<char>)
    requires
        trim(s) == s,
        s.len() > 0,
    ensures
        !is_white_space(s[0]),
        !is_white_space(s.last()),
{
    lemma_ws_bounds(s);
    lemma_ws_bounds(s.skip(leading_ws(s) as int));
    if is_white_space(s[0]) {
        assert(leading_ws(s) >= 1);
        assert(trim(s).len() < s.len());
    } else {
        assert(leading_ws(s) == 0);
        assert(s.skip(0) =~= s);
        if is_white_space(s.last()) {
            assert(trailing_ws(s) >= 1);
            assert(trim(s).len() < s.len());
        }
    }
}

proof fn lemma_trim_unchanged(s: Seq<char>)
    requires
        s.len() > 0,
        !is_white_space(s[0]),
        !is_white_space(s.last()),
    ensures
        trim(s) == s,
{
    assert(leading_ws(s) == 0);
    assert(s.skip(0) =~= s);
    assert(trailing_ws(s) == 0);
    assert(s.take(s.len() as int) =~= s);
}

proof fn lemma_first_eq_after(x: Seq<char>, y: Seq<char>)
    requires
        !has_char(x, '='),
        y.len() > 0,
        y[0] == '=',
    ensures
        first_of_either(x + y, '=', '=') == Some(x.len() as int),
    decreases x.len(),
{
    if x.len() == 0 {
        assert(x + y =~= y);
    } else {
        assert(!has_char(x.drop_first(), '=')) by {
            if has_char(x.drop_first(), '=') {
                let i = choose|i: int| 0 <= i < x.drop_first().len() && x.drop_first()[i] == '=';
                assert(x[i + 1] == '=');
            }
        }
        assert(x[0] != '=');
        lemma_first_eq_after(x.drop_first(), y);
        assert((x + y).drop_first() =~= x.drop_first() + y);
    }
}

proof fn lemma_env_entry_line(p: (Seq<char>, Seq<char>))
    requires
        p.0.len() > 0,
        trim(p.0) == p.0,
        trim(p.1) == p.1,
        !has_char(p.0, '='),
    ensures
        env_entry(env_line(p)) == Some(p),
{
    let (k, v) = p;
    let line = env_line(p);
    lemma_trim_ends(k);
    if v.len() > 0 {
        lemma_trim_ends(v);
        assert(line.last() == v.last());
    } else {
        assert(line.last() == '=');
    }
    assert(line[0] == k[0]);
    lemma_trim_unchanged(line);
    lemma_first_eq_after(k, seq!['='] + v);
    assert(line =~= k + (seq!['='] + v));
    assert(line.take(k.len() as int) =~= k);
    assert(line.skip(k.len() + 1int) =~= v);
}

proof fn lemma_env_entries_lines(env: Seq<(Seq<char>, Seq<char>)>)
    requires
        env_clean(env),
    ensures
        env_entries(env.map_values(|p: (Seq<char>, Seq<char>)| env_line(p))) == env,
    decreases env.len(),
{
    if env.len() > 0 {
        let prev = env.drop_last();
        assert(env_clean(prev)) by {
            assert forall|i: int| 0 <= i < prev.len() implies #[trigger] prev[i] == env[i] by {
            }
        }
        lemma_env_entries_lines(prev);
        let ls = env.map_values(|p: (Seq<char>, Seq<char>)| env_line(p));
        assert(ls.drop_last() =~= prev.map_values(|p: (Seq<char>, Seq<char>)| env_line(p)));
        assert(env[env.len() - 1] == env.last());
        lemma_env_entry_line(env.last());
        assert(env =~= prev.push(env.last()));
    }
}

/// Saving the server dialog without touching the environment keeps it: the
/// text `format_env` shows for a well-formed listing parses (as `parse_env`
/// specifies) back to exactly that listing.
#[verifier::spinoff_prover]
pub proof fn law_env_round_trip(env: Seq<(Seq<char>, Seq<char>)>, parsed: Seq<(Seq<char>, Seq<char>)>)
    requires
        env_sorted(env),
        env_clean(env),
        env_sorted(parsed),
        env_map(parsed) == env_map(env_entries(text_lines(env_text(env)))),
    ensures
        parsed == env,
{
    let ls = env.map_values(|p: (Seq<char>, Seq<char>)| env_line(p));
    assert forall|i: int| 0 <= i < ls.len() implies !has_char(#[trigger] ls[i], '\n') && without_cr(ls[i]) == ls[i] by {
        let (k, v) = env[i];
        assert(ls[i] == k + seq!['='] + v);
        if has_char(ls[i], '\n') {
            let j = choose|j: int| 0 <= j < ls[i].len() && ls[i][j] == '\n';
            if j < k.len() {
                assert(k[j] == '\n');
            } else if j > k.len() {
                assert(v[j - k.len() - 1] == '\n');
            }
        }
        if v.len() > 0 {
            lemma_trim_ends(v);
            assert(ls[i].last() == v.last());
        } else {
            assert(ls[i].last() == '=');
        }
    }
    if ls.len() > 0 {
        assert(ls.last() == ls[ls.len() - 1]);
    }
    lemma_lines_of_joined(ls);
    lemma_env_entries_lines(env);
    lemma_sorted_env_determined(parsed, env);
}

// ---------------------------------------------------------------------------
// Saving the server dialog
// ---------------------------------------------------------------------------

/// Whether the server kept at `existing` is enabled; a new server starts
/// enabled.
pub open spec fn kept_enabled(servers: Seq<McpServerConfig>, existing: Option<usize>) -> bool {
    match existing {
        Some(i) if i < servers.len() => servers[i as int].enabled,
        _ => true,
    }
}

fn trimmed(s: &str) -> (r: String)
    ensures
        r@ == trim(s@),
{
    let v = chars_of(s);
    let t = trim_chars(v.as_slice());
    string_of(t.as_slice())
}

/// The configuration the dialog's fields describe, or which fields are
/// refused. Name, command and URL are trimmed; the arguments are split on
/// white space; the environment is parsed from its `KEY=VALUE` lines.
pub fn server_from_form(
    servers: &[McpServerConfig],
    existing: Option<usize>,
    name: &str,
    http: bool,
    command: &str,
    args: &str,
    env: &str,
    url: &str,
    auth_token: &str,
) -> (r: Result<McpServerConfig, ServerFormCheck>)
    ensures
        ({
            let n = trim(name@);
            let c = trim(command@);
            let u = trim(url@);
            let name_bad = n.len() == 0 || name_taken(servers@, existing, n);
            let url_bad = http && u.len() == 0;
            let command_bad = !http && c.len() == 0;
            match r {
                Err(check) => (name_bad || url_bad || command_bad) && check.name_bad == name_bad
                    && check.url_bad == url_bad && check.command_bad == command_bad,
                Ok(s) => !(name_bad || url_bad || command_bad) && s@.name == n && s@.enabled == kept_enabled(
                    servers@,
                    existing,
                ) && s@.transport == (if http { McpTransport::Http } else { McpTransport::Stdio })
                    && s@.command == c && s@.args == words(args@) && env_sorted(s@.env) && env_map(s@.env)
                    == env_map(env_entries(text_lines(env@))) && s@.url == u && s@.auth_token == auth_token@,
            }
        }),
{
    let n = trimmed(name);
    let c = trimmed(command);
    let u = trimmed(url);
    let check = check_server_form(servers, existing, n.as_str(), http, c.as_str(), u.as_str());
    if check.name_bad || check.url_bad || check.command_bad {
        return Err(check);
    }
    let enabled = match existing {
        Some(i) => if i < servers.len() {
            servers[i].enabled
        } else {
            true
        },
        None => true,
    };
    Ok(
        McpServerConfig {
            name: n,
            enabled,
            transport: if http { McpTransport::Http } else { McpTransport::Stdio },
            command: c,
            args: split_args(args),
            env: parse_env(env),
            url: u,
            auth_token: owned(auth_token),
        },
    )
}

// ---------------------------------------------------------------------------
// Toolset checkboxes
// ---------------------------------------------------------------------------

/// `names` without `name`.
pub open spec fn without_text(names: Seq<Seq<char>>, name: Seq<char>) -> Seq<Seq<char>>
    decreases names.len(),
{
    if names.len() == 0 {
        Seq::empty()
    } else {
        let prev = without_text(names.drop_last(), name);
        if names.last() == name { prev } else { prev.push(names.last()) }
    }
}

/// Tick or untick a toolset: its name leaves the enabled list, and is added
/// back at the end when ticked.
pub fn set_toolset(enabled: &mut Vec<String>, name: &str, on: bool)
    ensures
        texts_view(final(enabled)@) == without_text(texts_view(old(enabled)@), name@) + (if on {
            seq![name@]
        } else {
            Seq::empty()
        }),
{
    let mut rest: Vec<String> = Vec::new();
    std::mem::swap(&mut rest, enabled);
    let ghost orig = texts_view(rest@);
    let mut kept: Vec<String> = Vec::new();
    let ghost mut k: int = 0;
    while rest.len() > 0
        invariant
            0 <= k <= orig.len(),
            texts_view(rest@) == orig.skip(k),
            texts_view(kept@) == without_text(orig.take(k), name@),
        decreases rest.len(),
    {
        assert(texts_view(rest@).len() == rest@.len());
        let ghost before = rest@;
        let s = rest.remove(0);
        proof {
            assert forall|j: int| 0 <= j < rest@.len() implies rest@[j]@ == orig[k + 1 + j] by {
                assert(rest@[j] == before[j + 1]);
                assert(texts_view(before)[j + 1] == orig.skip(k)[j + 1]);
            }
            assert(texts_view(rest@) =~= orig.skip(k + 1));
            assert(s@ == orig.skip(k)[0]);
            assert(orig.take(k + 1).drop_last() =~= orig.take(k));
            assert(orig.take(k + 1).last() == orig[k]);
        }
        if !same_name(s.as_str(), name) {
            let ghost kb = kept@;
            kept.push(s);
            assert(texts_view(kept@) =~= texts_view(kb).push(orig[k]));
        }
        proof {
            k = k + 1;
        }
    }
    assert(orig.take(k) =~= orig);
    if on {
        let ghost kb = kept@;
        kept.push(owned(name));
        assert(texts_view(kept@) =~= texts_view(kb) + seq![name@]);
    } else {
        assert(texts_view(kept@) =~= texts_view(kept@) + Seq::<Seq<char>>::empty());
    }
    *enabled = kept;
}

} // verus!
