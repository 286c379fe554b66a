//! The toolsets the assistant can be given, and the text handling shared by
//! every tool: bounding output size, naming tools unambiguously, and folding
//! a command's output into one reply.

use vstd::prelude::*;
use vstd::utf8::{encode_scalar, encode_utf8};

use crate::text::{
    chars_of, decimal, decimal_chars_wide, is_ascii_alphanumeric, lemma_decimal, join_texts, joined, padded, push_char, push_padded, push_str,
    string_of, texts_view,
};

verus! {

/// Output past this many bytes is truncated, so a runaway command can't
/// bloat every subsequent request in the conversation.
pub const MAX_OUTPUT_BYTES: usize = 10240;

// ---------------------------------------------------------------------------
// Bounding output
// ---------------------------------------------------------------------------

/// Bytes of the UTF-8 encoding of `c`.
pub open spec fn utf8_width(c: char) -> nat {
    encode_scalar(c as u32).len()
}

/// Bytes of the UTF-8 encoding of `s` (what `str::len` reports).
pub open spec fn utf8_size(s: Seq<char>) -> nat {
    encode_utf8(s).len()
}

/// Number of leading characters of `s` whose encoding fits in `max` bytes.
pub open spec fn prefix_fitting(s: Seq<char>, max: int) -> nat
    decreases s.len(),
{
    if s.len() == 0 || utf8_width(s[0]) > max {
        0
    } else {
        1 + prefix_fitting(s.drop_first(), max - utf8_width(s[0]))
    }
}

/// `text` cut to at most `max` bytes on a character boundary, with a note
/// appended when anything was dropped.
pub open spec fn truncated(text: Seq<char>, max: int) -> Seq<char> {
    if utf8_size(text) <= max {
        text
    } else {
        text.take(prefix_fitting(text, max) as int) + "\n[output truncated]"@
    }
}

fn utf8_width_exec(c: char) -> (w: usize)
    ensures
        w == utf8_width(c),
        1 <= w <= 4,
{
    proof {
        vstd::utf8::char_is_scalar(c);
    }
    let v = c as u32;
    if v <= 0x7f {
        1
    } else if v <= 0x7ff {
        2
    } else if v <= 0xffff {
        3
    } else {
        4
    }
}

proof fn lemma_utf8_size_first(s: Seq<char>)
    requires
        s.len() > 0,
    ensures
        utf8_size(s) == utf8_width(s[0]) + utf8_size(s.drop_first()),
{
}

proof fn lemma_prefix_fitting_all(s: Seq<char>, max: int)
    requires
        max >= 0,
    ensures
        (prefix_fitting(s, max) == s.len()) == (utf8_size(s) <= max),
        prefix_fitting(s, max) <= s.len(),
    decreases s.len(),
{
    if s.len() > 0 {
        lemma_utf8_size_first(s);
        if utf8_width(s[0]) <= max {
            lemma_prefix_fitting_all(s.drop_first(), max - utf8_width(s[0]));
        }
    }
}

proof fn lemma_prefix_fitting_step(s: Seq<char>, max: int, k: int, used: int)
    requires
        0 <= k <= s.len(),
        prefix_fitting(s, max) == k + prefix_fitting(s.skip(k), max - used),
    ensures
        k < s.len() && utf8_width(s[k]) <= max - used ==>
            prefix_fitting(s, max) == k + 1 + prefix_fitting(s.skip(k + 1), max - used - utf8_width(s[k])),
        k < s.len() && utf8_width(s[k]) > max - used ==> prefix_fitting(s, max) == k,
        k == s.len() ==> prefix_fitting(s, max) == k,
{
    if k < s.len() {
        assert(s.skip(k)[0] == s[k]);
        assert(s.skip(k).drop_first() == s.skip(k + 1));
    }
}

/// Truncate `text` to at most `max_bytes`, on a char boundary, appending a
/// note when anything was dropped.
pub fn truncate(text: &mut String, max_bytes: usize)
    ensures
        final(text)@ == truncated(old(text)@, max_bytes as int),
{
    let v = chars_of(text.as_str());
    let mut k: usize = 0;
    let mut used: usize = 0;
    assert(v@.skip(0) == v@);
    while k < v.len()
        invariant_except_break
            k <= v.len(),
            used <= max_bytes,
            prefix_fitting(v@, max_bytes as int) == k + prefix_fitting(v@.skip(k as int), max_bytes - used),
        ensures
            k <= v.len(),
            prefix_fitting(v@, max_bytes as int) == k,
        decreases v.len() - k,
    {
        proof {
            lemma_prefix_fitting_step(v@, max_bytes as int, k as int, used as int);
        }
        let w = utf8_width_exec(v[k]);
        if w > max_bytes - used {
            break;
        }
        used = used + w;
        k = k + 1;
    }
    proof {
        lemma_prefix_fitting_all(v@, max_bytes as int);
    }
    if k == v.len() {
        return;
    }
    let mut out = string_of(crate::text::slice_of(v.as_slice(), 0, k).as_slice());
    push_str(&mut out, "\n[output truncated]");
    assert(v@.subrange(0, k as int) == v@.take(k as int));
    *text = out;
}

// ---------------------------------------------------------------------------
// Tool names
// ---------------------------------------------------------------------------

/// A server name reduced to characters safe inside a tool identifier.
pub open spec fn sanitized(name: Seq<char>) -> Seq<char> {
    name.map_values(|c: char| if is_ascii_alphanumeric(c) { c } else { '_' })
}

/// Reduce a server name to characters safe inside a tool identifier, so a
/// collision-disambiguating suffix stays a valid function name for the model.
pub fn sanitize(name: &str) -> (r: String)
    ensures
        r@ == sanitized(name@),
{
    let v = chars_of(name);
    let mut out = String::new();
    let mut i: usize = 0;
    while i < v.len()
        invariant
            i <= v.len(),
            out@ == sanitized(v@.take(i as int)),
        decreases v.len() - i,
    {
        let c = v[i];
        let keep = ('0' <= c && c <= '9') || ('a' <= c && c <= 'z') || ('A' <= c && c <= 'Z');
        push_char(&mut out, if keep { c } else { '_' });
        assert(sanitized(v@.take(i + 1)) =~= sanitized(v@.take(i as int)).push(if keep { c } else { '_' }));
        i = i + 1;
    }
    assert(v@.take(v.len() as int) == v@);
    out
}

/// `base` with the counter `k` appended: `{base}_{k}`.
pub open spec fn numbered(base: Seq<char>, k: nat) -> Seq<char> {
    base + seq!['_'] + decimal(k)
}

/// The first of `{base}_{k}`, `{base}_{k+1}`, … that is not taken; the
/// search stops at the counter `taken.len() + 2`, where one is sure to be
/// free.
pub open spec fn free_numbered(taken: Seq<Seq<char>>, base: Seq<char>, k: nat) -> Seq<char>
    decreases taken.len() + 2 - k,
{
    if k >= taken.len() + 2 || !taken.contains(numbered(base, k)) {
        numbered(base, k)
    } else {
        free_numbered(taken, base, k + 1)
    }
}

/// `base` when it is free, else the first free `{base}_{k}` from `k = 2`.
pub open spec fn free_name(taken: Seq<Seq<char>>, base: Seq<char>) -> Seq<char> {
    if taken.contains(base) { free_numbered(taken, base, 2) } else { base }
}

/// The name an MCP tool is exposed under: its own, unless a tool of that
/// name is already registered, then `{tool}__{server}`, numbered `_2`, `_3`,
/// … when that is taken too.
pub open spec fn exposed_name_of(taken: Seq<Seq<char>>, tool: Seq<char>, server: Seq<char>) -> Seq<char> {
    if taken.contains(tool) { free_name(taken, tool + "__"@ + sanitized(server)) } else { tool }
}

pub open spec fn names_view(v: Seq<String>) -> Seq<Seq<char>> {
    v.map_values(|s: String| s@)
}

/// Among `n + 1` pairwise different names, one is missing from `n` taken
/// names.
proof fn lemma_some_free(taken: Seq<Seq<char>>, c: spec_fn(int) -> Seq<char>, n: int)
    requires
        n == taken.len(),
        forall|i: int, j: int| #![trigger c(i), c(j)] 0 <= i < j <= n ==> c(i) != c(j),
    ensures
        exists|k: int| 0 <= k <= n && !taken.contains(#[trigger] c(k)),
    decreases n,
{
    if n == 0 {
        assert(!taken.contains(c(0)));
    } else {
        let t = taken.drop_last();
        let x = taken.last();
        lemma_some_free(t, c, n - 1);
        let k = choose|k: int| 0 <= k <= n - 1 && !t.contains(#[trigger] c(k));
        assert forall|y: Seq<char>| #[trigger] taken.contains(y) && y != x implies t.contains(y) by {
            let i = choose|i: int| 0 <= i < taken.len() && taken[i] == y;
            assert(i < n - 1 || taken[i] == x);
            assert(t[i] == y);
        }
        if c(k) != x {
            assert(!taken.contains(c(k)));
        } else {
            let c2 = |j: int| if j < k { c(j) } else { c(j + 1) };
            assert forall|i: int, j: int| #![trigger c2(i), c2(j)] 0 <= i < j <= n - 1 implies c2(i) != c2(j) by {
                let a = if i < k { i } else { i + 1 };
                let b = if j < k { j } else { j + 1 };
                assert(c2(i) == c(a) && c2(j) == c(b) && a < b);
            }
            lemma_some_free(t, c2, n - 1);
            let j = choose|j: int| 0 <= j <= n - 1 && !t.contains(#[trigger] c2(j));
            let a = if j < k { j } else { j + 1 };
            assert(c2(j) == c(a));
            assert(a != k);
            if k < a {
                assert(c(k) != c(a));
            } else {
                assert(c(a) != c(k));
            }
            assert(!taken.contains(c(a)));
        }
    }
}

proof fn lemma_numbered_injective(base: Seq<char>, a: nat, b: nat)
    requires
        numbered(base, a) == numbered(base, b),
    ensures
        a == b,
{
    let n = base.len() + 1int;
    assert(numbered(base, a).skip(n) =~= decimal(a));
    assert(numbered(base, b).skip(n) =~= decimal(b));
    lemma_decimal(a);
    lemma_decimal(b);
}

proof fn lemma_free_numbered(taken: Seq<Seq<char>>, base: Seq<char>, k: nat)
    requires
        2 <= k <= taken.len() + 2,
        forall|j: nat| 2 <= j < k ==> taken.contains(#[trigger] numbered(base, j)),
        exists|j: nat| 2 <= j <= taken.len() + 2 && !taken.contains(#[trigger] numbered(base, j)),
    ensures
        !taken.contains(free_numbered(taken, base, k)),
    decreases taken.len() + 2 - k,
{
    if k < taken.len() + 2 && taken.contains(numbered(base, k)) {
        lemma_free_numbered(taken, base, k + 1);
    } else if k >= taken.len() + 2 {
        let j = choose|j: nat| 2 <= j <= taken.len() + 2 && !taken.contains(#[trigger] numbered(base, j));
        if j < k {
            assert(taken.contains(numbered(base, j)));
        }
    }
}

/// The name chosen for a taken base is free.
pub proof fn lemma_free_name(taken: Seq<Seq<char>>, base: Seq<char>)
    ensures
        !taken.contains(free_name(taken, base)),
{
    if taken.contains(base) {
        let n = taken.len() as int;
        let c = |i: int| numbered(base, (i + 2) as nat);
        assert forall|i: int, j: int| #![trigger c(i), c(j)] 0 <= i < j <= n implies c(i) != c(j) by {
            if c(i) == c(j) {
                lemma_numbered_injective(base, (i + 2) as nat, (j + 2) as nat);
            }
        }
        lemma_some_free(taken, c, n);
        let k = choose|k: int| 0 <= k <= n && !taken.contains(#[trigger] c(k));
        assert(!taken.contains(numbered(base, (k + 2) as nat)));
        lemma_free_numbered(taken, base, 2);
    }
}

/// The name chosen for a tool is not taken.
pub proof fn lemma_exposed_name_free(taken: Seq<Seq<char>>, tool: Seq<char>, server: Seq<char>)
    ensures
        !taken.contains(exposed_name_of(taken, tool, server)),
{
    lemma_free_name(taken, tool + "__"@ + sanitized(server));
}

fn holds_name(taken: &Vec<String>, name: &[char]) -> (r: bool)
    ensures
        r == names_view(taken@).contains(name@),
{
    let ghost nv = names_view(taken@);
    let mut i: usize = 0;
    while i < taken.len()
        invariant
            i <= taken.len(),
            nv == names_view(taken@),
            forall|j: int| 0 <= j < i ==> nv[j] != name@,
        decreases taken.len() - i,
    {
        let n = chars_of(taken[i].as_str());
        assert(nv[i as int] == taken@[i as int]@);
        if crate::text::chars_eq(n.as_slice(), name) {
            assert(nv.contains(name@));
            return true;
        }
        i = i + 1;
    }
    proof {
        if nv.contains(name@) {
            let j = choose|j: int| 0 <= j < nv.len() && nv[j] == name@;
            assert(nv[j] != name@);
        }
    }
    false
}

fn numbered_chars(base: &Vec<char>, k: u128) -> (r: Vec<char>)
    ensures
        r@ == numbered(base@, k as nat),
{
    let mut r = base.clone();
    assert(r@ == base@);
    r.push('_');
    let d = decimal_chars_wide(k);
    let mut i: usize = 0;
    let ghost start = r@;
    while i < d.len()
        invariant
            i <= d.len(),
            r@ == start + d@.take(i as int),
        decreases d.len() - i,
    {
        r.push(d[i]);
        assert(d@.take(i + 1) =~= d@.take(i as int).push(d@[i as int]));
        i = i + 1;
    }
    assert(d@.take(d.len() as int) =~= d@);
    r
}

pub fn exposed_name(taken: &Vec<String>, tool: &str, server: &str) -> (r: String)
    ensures
        r@ == exposed_name_of(names_view(taken@), tool@, server@),
{
    let ghost nv = names_view(taken@);
    let t = chars_of(tool);
    if !holds_name(taken, t.as_slice()) {
        return string_of(t.as_slice());
    }
    let mut base = t;
    base.push('_');
    base.push('_');
    let s = chars_of(sanitize(server).as_str());
    let mut i: usize = 0;
    let ghost start = base@;
    while i < s.len()
        invariant
            i <= s.len(),
            base@ == start + s@.take(i as int),
        decreases s.len() - i,
    {
        base.push(s[i]);
        assert(s@.take(i + 1) =~= s@.take(i as int).push(s@[i as int]));
        i = i + 1;
    }
    proof {
        reveal_strlit("__");
        assert(s@.take(s.len() as int) =~= s@);
        assert(base@ =~= tool@ + "__"@ + sanitized(server@));
    }
    if !holds_name(taken, base.as_slice()) {
        return string_of(base.as_slice());
    }
    let mut k: u128 = 2;
    let mut cand = numbered_chars(&base, k);
    while k < taken.len() as u128 + 2 && holds_name(taken, cand.as_slice())
        invariant
            2 <= k <= taken.len() + 2,
            nv == names_view(taken@),
            nv.contains(base@),
            cand@ == numbered(base@, k as nat),
            free_numbered(nv, base@, k as nat) == free_numbered(nv, base@, 2),
        decreases taken.len() + 2 - k,
    {
        k = k + 1;
        cand = numbered_chars(&base, k);
    }
    string_of(cand.as_slice())
}

// ---------------------------------------------------------------------------
// Shell output
// ---------------------------------------------------------------------------

/// stdout, then stderr on a line of its own, bounded, then the exit status.
pub open spec fn combined_output(stdout: Seq<char>, stderr: Seq<char>, code: Option<i32>) -> Seq<char> {
    let joined = if stderr.len() == 0 {
        stdout
    } else if stdout.len() > 0 && stdout.last() != '\n' {
        stdout + seq!['\n'] + stderr
    } else {
        stdout + stderr
    };
    let status = match code {
        Some(c) => "\n[exit status: "@ + padded(c as int, 0) + seq![']'],
        None => "\n[terminated by signal]"@,
    };
    truncated(joined, MAX_OUTPUT_BYTES as int) + status
}

/// Fold a finished command's output into the reply the model sees: both
/// streams, bounded, and always the exit status, so failures read as data.
pub fn combine_output(stdout: &str, stderr: &str, code: Option<i32>) -> (r: String)
    ensures
        r@ == combined_output(stdout@, stderr@, code),
{
    let mut combined = String::new();
    push_str(&mut combined, stdout);
    if !stderr.is_empty() {
        let v = chars_of(stdout);
        if v.len() > 0 && v[v.len() - 1] != '\n' {
            push_char(&mut combined, '\n');
        }
        push_str(&mut combined, stderr);
    }
    let ghost joined = if stderr@.len() == 0 {
        stdout@
    } else if stdout@.len() > 0 && stdout@.last() != '\n' {
        stdout@ + seq!['\n'] + stderr@
    } else {
        stdout@ + stderr@
    };
    assert(combined@ =~= joined);
    truncate(&mut combined, MAX_OUTPUT_BYTES);
    assert(combined@ == truncated(joined, MAX_OUTPUT_BYTES as int));
    match code {
        Some(c) => {
            push_str(&mut combined, "\n[exit status: ");
            push_padded(&mut combined, c as i64, 0);
            push_char(&mut combined, ']');
        },
        None => {
            push_str(&mut combined, "\n[terminated by signal]");
        },
    }
    combined
}

// ---------------------------------------------------------------------------
// Catalog
// ---------------------------------------------------------------------------

/// One toolset the user can enable, as shown in the settings checkboxes. A
/// toolset is a named group of one or more tools toggled together.
pub struct ToolsetInfo {
    /// Stable identifier, stored in the config and used to build the tools.
    pub name: &'static str,
    /// Human-readable label for the checkbox.
    pub label: &'static str,
    /// Tooltip describing what the toolset does (and any risk).
    pub description: &'static str,
    /// Name of a built-in (themed) icon shown beside the label in settings.
    pub icon: &'static str,
}

/// Every toolset the user can enable.
pub fn catalog() -> (r: Vec<ToolsetInfo>)
    ensures
        r@.len() == 4,
        r@[0].name@ == "bash"@,
        r@[0].label@ == "Shell"@,
        r@[0].description@ == "Lets the assistant run shell commands on your machine. Powerful — only enable if you trust the model and endpoint."@,
        r@[0].icon@ == "utilities-terminal-symbolic"@,
        r@[1].name@ == "calendar"@,
        r@[1].label@ == "Calendar"@,
        r@[1].description@ == "Lets the assistant read your calendar and create, modify, and delete events via Evolution Data Server. It can change your real calendar."@,
        r@[1].icon@ == "io.elementary.calendar"@,
        r@[2].name@ == "tasks"@,
        r@[2].label@ == "Tasks"@,
        r@[2].description@ == "Lets the assistant read your task lists and create, modify, complete, and delete tasks via Evolution Data Server. It can change your real tasks."@,
        r@[2].icon@ == "io.elementary.tasks"@,
        r@[3].name@ == "mail"@,
        r@[3].label@ == "Mail"@,
        r@[3].description@ == "Lets the assistant search your locally-synced mail (subject, sender, recipients, date) via the Evolution/elementary Mail cache. Read-only."@,
        r@[3].icon@ == "io.elementary.mail"@,
{
    let mut v: Vec<ToolsetInfo> = Vec::new();
    v.push(ToolsetInfo {
        name: "bash",
        label: "Shell",
        description: "Lets the assistant run shell commands on your machine. Powerful — only enable if you trust the model and endpoint.",
        icon: "utilities-terminal-symbolic",
    });
    v.push(ToolsetInfo {
        name: "calendar",
        label: "Calendar",
        description: "Lets the assistant read your calendar and create, modify, and delete events via Evolution Data Server. It can change your real calendar.",
        icon: "io.elementary.calendar",
    });
    v.push(ToolsetInfo {
        name: "tasks",
        label: "Tasks",
        description: "Lets the assistant read your task lists and create, modify, complete, and delete tasks via Evolution Data Server. It can change your real tasks.",
        icon: "io.elementary.tasks",
    });
    v.push(ToolsetInfo {
        name: "mail",
        label: "Mail",
        description: "Lets the assistant search your locally-synced mail (subject, sender, recipients, date) via the Evolution/elementary Mail cache. Read-only.",
        icon: "io.elementary.mail",
    });
    v
}

// ---------------------------------------------------------------------------
// Listing reports
// ---------------------------------------------------------------------------

/// The closing section of a listing that names the sources it could not
/// read: nothing when there are none.
pub open spec fn notes_section(header: Seq<char>, notes: Seq<Seq<char>>) -> Seq<char> {
    if notes.len() == 0 {
        Seq::empty()
    } else {
        header + joined(notes, "\n"@)
    }
}

/// Append the notes section under `header`.
pub fn push_notes(out: &mut String, header: &str, notes: &Vec<String>)
    ensures
        final(out)@ == old(out)@ + notes_section(header@, texts_view(notes@)),
{
    if notes.len() > 0 {
        push_str(out, header);
        let all = join_texts(notes, "\n");
        push_str(out, all.as_str());
    } else {
        assert(out@ =~= old(out)@ + Seq::<char>::empty());
    }
}

proof fn lemma_prefix_fitting_fits(s: Seq<char>, max: int)
    requires
        max >= 0,
    ensures
        prefix_fitting(s, max) <= s.len(),
        utf8_size(s.take(prefix_fitting(s, max) as int)) <= max,
        prefix_fitting(s, max) < s.len() ==> utf8_size(s.take(prefix_fitting(s, max) + 1int)) > max,
    decreases s.len(),
{
    let k = prefix_fitting(s, max) as int;
    if s.len() == 0 || utf8_width(s[0]) > max {
        assert(s.take(0) =~= Seq::<char>::empty());
        if s.len() > 0 {
            assert(s.take(1).drop_first() =~= Seq::<char>::empty());
            assert(s.take(1)[0] == s[0]);
        }
    } else {
        let w = utf8_width(s[0]);
        let rest = s.drop_first();
        lemma_prefix_fitting_fits(rest, max - w);
        assert(s.take(k).drop_first() =~= rest.take(k - 1));
        assert(s.take(k)[0] == s[0]);
        if k < s.len() {
            assert(s.take(k + 1).drop_first() =~= rest.take(k));
            assert(s.take(k + 1)[0] == s[0]);
        }
    }
}

/// Truncation leaves text that fits alone, and otherwise keeps the longest
/// prefix that fits in `max` bytes, followed by the note.
pub proof fn law_truncated_fits(text: Seq<char>, max: int)
    requires
        max >= 0,
    ensures
        utf8_size(text) <= max ==> truncated(text, max) == text,
        utf8_size(text) > max ==> ({
            let k = prefix_fitting(text, max) as int;
            &&& k < text.len()
            &&& truncated(text, max) == text.take(k) + "\n[output truncated]"@
            &&& utf8_size(text.take(k)) <= max
            &&& utf8_size(text.take(k + 1)) > max
        }),
{
    lemma_prefix_fitting_fits(text, max);
    let k = prefix_fitting(text, max) as int;
    if utf8_size(text) > max && k == text.len() {
        assert(text.take(k) =~= text);
    }
}

// ---------------------------------------------------------------------------
// Building and dispatching
// ---------------------------------------------------------------------------

/// The toolsets the library knows how to build.
#[derive(Clone, Copy, Debug, PartialEq, Eq, Structural)]
pub enum Toolset {
    Bash,
    Calendar,
    Tasks,
    Mail,
}

/// The toolset an enabled name stands for; an unknown name yields none.
pub fn toolset_named(name: &str) -> (r: Option<Toolset>)
    ensures
        r == (if name@ == "bash"@ {
            Some(Toolset::Bash)
        } else if name@ == "calendar"@ {
            Some(Toolset::Calendar)
        } else if name@ == "tasks"@ {
            Some(Toolset::Tasks)
        } else if name@ == "mail"@ {
            Some(Toolset::Mail)
        } else {
            None
        }),
{
    let v = chars_of(name);
    let bash = chars_of("bash");
    let calendar = chars_of("calendar");
    let tasks = chars_of("tasks");
    let mail = chars_of("mail");
    if crate::text::chars_eq(v.as_slice(), bash.as_slice()) {
        Some(Toolset::Bash)
    } else if crate::text::chars_eq(v.as_slice(), calendar.as_slice()) {
        Some(Toolset::Calendar)
    } else if crate::text::chars_eq(v.as_slice(), tasks.as_slice()) {
        Some(Toolset::Tasks)
    } else if crate::text::chars_eq(v.as_slice(), mail.as_slice()) {
        Some(Toolset::Mail)
    } else {
        None
    }
}

/// Position of the first tool named `name`.
pub open spec fn first_named(names: Seq<Seq<char>>, name: Seq<char>) -> Option<int>
    decreases names.len(),
{
    if names.len() == 0 {
        None
    } else if names[0] == name {
        Some(0)
    } else {
        match first_named(names.drop_first(), name) {
            Some(i) => Some(i + 1),
            None => None,
        }
    }
}

proof fn lemma_first_named(names: Seq<Seq<char>>, name: Seq<char>, k: int)
    requires
        0 <= k <= names.len(),
        forall|j: int| 0 <= j < k ==> names[j] != name,
    ensures
        first_named(names, name) == (match first_named(names.skip(k), name) {
            Some(i) => Some(i + k),
            None => None,
        }),
    decreases k,
{
    if k == 0 {
        assert(names.skip(0) =~= names);
    } else {
        assert forall|j: int| 0 <= j < k - 1 implies names.drop_first()[j] != name by {
            assert(names.drop_first()[j] == names[j + 1]);
        }
        lemma_first_named(names.drop_first(), name, k - 1);
        assert(names.drop_first().skip(k - 1) =~= names.skip(k));
    }
}

/// Which registered tool a call goes to: the first with that name, or the
/// reply for a name the model made up.
pub fn dispatch_index(names: &Vec<String>, name: &str) -> (r: Result<usize, String>)
    ensures
        match first_named(names_view(names@), name@) {
            Some(i) => r == Ok::<usize, String>(i as usize),
            None => r matches Err(m) && m@ == "unknown tool: "@ + name@,
        },
{
    let ghost nv = names_view(names@);
    let target = chars_of(name);
    let mut i: usize = 0;
    while i < names.len()
        invariant
            i <= names.len(),
            nv == names_view(names@),
            target@ == name@,
            forall|j: int| 0 <= j < i ==> nv[j] != name@,
        decreases names.len() - i,
    {
        let n = chars_of(names[i].as_str());
        if crate::text::chars_eq(n.as_slice(), target.as_slice()) {
            proof {
                lemma_first_named(nv, name@, i as int);
                assert(nv.skip(i as int)[0] == name@);
            }
            return Ok(i);
        }
        i = i + 1;
    }
    proof {
        lemma_first_named(nv, name@, names.len() as int);
    }
    let mut m = String::new();
    push_str(&mut m, "unknown tool: ");
    push_str(&mut m, name);
    Err(m)
}

} // verus!
