//! The calendars and task lists that Evolution Data Server offers, as the
//! library sees them: plain (uid, name) pairs picked from the source
//! registry, and the choice of a target list for a write.

use vstd::prelude::*;

use crate::text::{
    chars_of, contains_chars, contains_seq, decimal, has_char, is_ascii_digit, lemma_decimal,
    lemma_split_on_append, padded, push_decimal, push_padded, push_str, split_on,
    slice_of, starts_with, string_of, text_lines, text_lines_exec, to_lowercase, unicode_lowercase,
};

verus! {

/// One calendar or task list.
pub struct Source {
    pub uid: String,
    pub name: String,
}

impl Source {
    pub open spec fn view_pair(&self) -> (Seq<char>, Seq<char>) {
        (self.uid@, self.name@)
    }
}

impl Clone for Source {
    fn clone(&self) -> (r: Self)
        ensures
            r.uid@ == self.uid@,
            r.name@ == self.name@,
    {
        Source { uid: self.uid.clone(), name: self.name.clone() }
    }
}

pub open spec fn sources_view(s: Seq<Source>) -> Seq<(Seq<char>, Seq<char>)> {
    s.map_values(|x: Source| x.view_pair())
}

// ---------------------------------------------------------------------------
// `.source` INI data
// ---------------------------------------------------------------------------

/// The value of the first line of `lines` that reads `key=value`.
pub open spec fn ini_lookup(lines: Seq<Seq<char>>, key: Seq<char>) -> Option<Seq<char>>
    decreases lines.len(),
{
    if lines.len() == 0 {
        None
    } else if starts_with(lines[0], key + seq!['=']) {
        Some(lines[0].skip(key.len() + 1int))
    } else {
        ini_lookup(lines.drop_first(), key)
    }
}

/// Value of `key=` from a `.source` INI string. Matches the bare key only, so
/// localized variants like `DisplayName[de]=` are ignored.
pub fn ini_value(ini: &str, key: &str) -> (r: Option<String>)
    ensures
        r matches Some(v) ==> ini_lookup(text_lines(ini@), key@) == Some(v@),
        r is None ==> ini_lookup(text_lines(ini@), key@) is None,
{
    let v = chars_of(ini);
    let k = chars_of(key);
    let mut pattern = slice_of(k.as_slice(), 0, k.len());
    pattern.push('=');
    assert(pattern@ == key@ + seq!['=']);
    let lines = text_lines_exec(v.as_slice());
    let ghost tl = text_lines(ini@);
    assert(tl.skip(0) == tl);
    let mut i: usize = 0;
    while i < lines.len()
        invariant
            i <= lines.len(),
            lines@.len() == tl.len(),
            forall|j: int| 0 <= j < lines@.len() ==> #[trigger] lines@[j]@ == tl[j],
            pattern@ == key@ + seq!['='],
            tl == text_lines(ini@),
            ini_lookup(tl.skip(i as int), key@) == ini_lookup(tl, key@),
        decreases lines.len() - i,
    {
        assert(tl.skip(i as int)[0] == tl[i as int]);
        assert(tl.skip(i as int).drop_first() == tl.skip(i + 1));
        let line = &lines[i];
        if crate::text::matches_at(line.as_slice(), 0, pattern.as_slice()) {
            assert(line@.take(pattern@.len() as int) == line@.subrange(0, pattern@.len() as int));
            let value = slice_of(line.as_slice(), pattern.len(), line.len());
            assert(value@ == tl[i as int].skip(key@.len() + 1int));
            assert(ini_lookup(tl.skip(i as int), key@) == Some(value@));
            return Some(string_of(value.as_slice()));
        }
        assert(!starts_with(tl[i as int], key@ + seq!['='])) by {
            if starts_with(tl[i as int], key@ + seq!['=']) {
                assert(line@.take(pattern@.len() as int) == line@.subrange(0, pattern@.len() as int));
            }
        }
        i = i + 1;
    }
    None
}

/// The source an ObjectManager entry describes, if its `Data` declares
/// `group` and it has a `UID`: named by its `DisplayName`, else by its uid.
pub open spec fn registry_entry(data: Option<Seq<char>>, uid: Option<Seq<char>>, group: Seq<char>)
    -> Option<(Seq<char>, Seq<char>)> {
    match (data, uid) {
        (Some(d), Some(u)) => {
            if !contains_seq(d, group) {
                None
            } else {
                match ini_lookup(text_lines(d), "DisplayName"@) {
                    Some(n) => Some((u, n)),
                    None => Some((u, u)),
                }
            }
        },
        _ => None,
    }
}

pub open spec fn opt_text(o: Option<String>) -> Option<Seq<char>> {
    match o {
        Some(s) => Some(s@),
        None => None,
    }
}

/// The source for one registry entry (see [`registry_entry`]).
pub fn source_from_entry(data: Option<String>, uid: Option<String>, group: &str) -> (r: Option<Source>)
    ensures
        r matches Some(s) ==> registry_entry(opt_text(data), opt_text(uid), group@) == Some(s.view_pair()),
        r is None ==> registry_entry(opt_text(data), opt_text(uid), group@) is None,
{
    let data = match data {
        Some(d) => d,
        None => {
            return None;
        },
    };
    let dv = chars_of(data.as_str());
    let gv = chars_of(group);
    if !contains_chars(dv.as_slice(), gv.as_slice()) {
        return None;
    }
    let uid = match uid {
        Some(u) => u,
        None => {
            return None;
        },
    };
    proof { reveal_strlit("DisplayName"); }
    let name = match ini_value(data.as_str(), "DisplayName") {
        Some(n) => n,
        None => uid.clone(),
    };
    Some(Source { uid, name })
}

// ---------------------------------------------------------------------------
// Choosing the list a write goes to
// ---------------------------------------------------------------------------

/// Index of the first source whose uid is `name` or whose lowercased name
/// contains the lowercased `name`.
pub open spec fn first_matching(sources: Seq<(Seq<char>, Seq<char>)>, name: Seq<char>) -> Option<int>
    decreases sources.len(),
{
    if sources.len() == 0 {
        None
    } else if sources[0].0 == name || contains_seq(unicode_lowercase(sources[0].1), unicode_lowercase(name)) {
        Some(0)
    } else {
        match first_matching(sources.drop_first(), name) {
            Some(i) => Some(i + 1),
            None => None,
        }
    }
}

/// Index of the first source with uid `uid`.
pub open spec fn first_with_uid(sources: Seq<(Seq<char>, Seq<char>)>, uid: Seq<char>) -> Option<int>
    decreases sources.len(),
{
    if sources.len() == 0 {
        None
    } else if sources[0].0 == uid {
        Some(0)
    } else {
        match first_with_uid(sources.drop_first(), uid) {
            Some(i) => Some(i + 1),
            None => None,
        }
    }
}

/// The list a write goes to: the first one matching the name the model gave,
/// else the default list, else the first list.
pub open spec fn target_of(sources: Seq<(Seq<char>, Seq<char>)>, named: Option<Seq<char>>, default_uid: Seq<char>)
    -> Result<(Seq<char>, Seq<char>), Seq<char>> {
    match named {
        Some(name) => match first_matching(sources, name) {
            Some(i) => Ok(sources[i]),
            None => Err("no list matching \""@ + name + "\""@),
        },
        None => match first_with_uid(sources, default_uid) {
            Some(i) => Ok(sources[i]),
            None => if sources.len() > 0 { Ok(sources[0]) } else { Err("no lists available"@) },
        },
    }
}

pub open spec fn target_view(r: Result<Source, String>) -> Result<(Seq<char>, Seq<char>), Seq<char>> {
    match r {
        Ok(s) => Ok(s.view_pair()),
        Err(e) => Err(e@),
    }
}

proof fn lemma_first_matching_index(sources: Seq<(Seq<char>, Seq<char>)>, name: Seq<char>)
    ensures
        first_matching(sources, name) matches Some(i) ==> 0 <= i < sources.len(),
    decreases sources.len(),
{
    if sources.len() > 0 {
        lemma_first_matching_index(sources.drop_first(), name);
    }
}

proof fn lemma_first_with_uid_index(sources: Seq<(Seq<char>, Seq<char>)>, uid: Seq<char>)
    ensures
        first_with_uid(sources, uid) matches Some(i) ==> 0 <= i < sources.len(),
    decreases sources.len(),
{
    if sources.len() > 0 {
        lemma_first_with_uid_index(sources.drop_first(), uid);
    }
}

/// Resolve the target list for a write: by name/uid substring if the model
/// named one, else the default local list (falling back to the first).
pub fn resolve_target(sources: &[Source], named: Option<&str>, default_uid: &str) -> (r: Result<Source, String>)
    ensures
        target_view(r) == target_of(sources_view(sources@), match named { Some(n) => Some(n@), None => None }, default_uid@),
{
    let ghost sv = sources_view(sources@);
    match named {
        Some(name) => {
            let needle_s = to_lowercase(name);
            let needle = chars_of(needle_s.as_str());
            let name_chars = chars_of(name);
            assert(sv.skip(0) == sv);
            let mut i: usize = 0;
            while i < sources.len()
                invariant
                    i <= sources.len(),
                    sv == sources_view(sources@),
                    needle@ == unicode_lowercase(name@),
                    named == Some(name),
                    name_chars@ == name@,
                    first_matching(sv.skip(i as int), name@) matches Some(k) ==> first_matching(sv, name@) == Some(k + i),
                    first_matching(sv.skip(i as int), name@) is None ==> first_matching(sv, name@) is None,
                decreases sources.len() - i,
            {
                let ghost rest = sv.skip(i as int);
                assert(rest[0] == sources@[i as int].view_pair());
                assert(rest.drop_first() == sv.skip(i + 1));
                let uid_chars = chars_of(sources[i].uid.as_str());
                let lower = to_lowercase(sources[i].name.as_str());
                let lower_chars = chars_of(lower.as_str());
                if crate::text::chars_eq(uid_chars.as_slice(), name_chars.as_slice())
                    || contains_chars(lower_chars.as_slice(), needle.as_slice()) {
                    assert(first_matching(rest, name@) == Some(0int));
                    assert(sv[i as int] == sources@[i as int].view_pair());
                    let c = sources[i].clone();
                    assert(c.view_pair() == sv[i as int]);
                    assert(first_matching(sv, name@) == Some(i as int));
                    assert(target_of(sv, Some(name@), default_uid@) == Ok::<(Seq<char>, Seq<char>), Seq<char>>(sv[i as int]));
                    return Ok(c);
                }
                i = i + 1;
            }
            proof { reveal_strlit("no list matching \""); reveal_strlit("\""); }
            let mut msg = String::new();
            push_str(&mut msg, "no list matching \"");
            push_str(&mut msg, name);
            push_str(&mut msg, "\"");
            Err(msg)
        },
        None => {
            let def = chars_of(default_uid);
            assert(sv.skip(0) == sv);
            let mut i: usize = 0;
            while i < sources.len()
                invariant
                    i <= sources.len(),
                    sv == sources_view(sources@),
                    def@ == default_uid@,
                    named is None,
                    first_with_uid(sv.skip(i as int), default_uid@) matches Some(k) ==> first_with_uid(sv, default_uid@) == Some(k + i),
                    first_with_uid(sv.skip(i as int), default_uid@) is None ==> first_with_uid(sv, default_uid@) is None,
                decreases sources.len() - i,
            {
                let ghost rest = sv.skip(i as int);
                assert(rest[0] == sources@[i as int].view_pair());
                assert(rest.drop_first() == sv.skip(i + 1));
                let uid_chars = chars_of(sources[i].uid.as_str());
                if crate::text::chars_eq(uid_chars.as_slice(), def.as_slice()) {
                    assert(first_with_uid(rest, default_uid@) == Some(0int));
                    assert(sv[i as int] == sources@[i as int].view_pair());
                    let c = sources[i].clone();
                    assert(c.view_pair() == sv[i as int]);
                    assert(first_with_uid(sv, default_uid@) == Some(i as int));
                    return Ok(c);
                }
                i = i + 1;
            }
            if sources.len() > 0 {
                Ok(sources[0].clone())
            } else {
                proof { reveal_strlit("no lists available"); }
                let mut msg = String::new();
                push_str(&mut msg, "no lists available");
                Err(msg)
            }
        },
    }
}

// ---------------------------------------------------------------------------
// Component uids
// ---------------------------------------------------------------------------

/// `beckon-{epoch}-{pid}-{n}@beckon`.
pub open spec fn uid_text(epoch: int, pid: nat, n: nat) -> Seq<char> {
    "beckon-"@ + padded(epoch, 0) + seq!['-'] + decimal(pid) + seq!['-'] + decimal(n) + "@beckon"@
}

/// A component uid made unique by the time, the process and a counter.
pub fn format_uid(epoch: i64, pid: u32, n: u64) -> (r: String)
    ensures
        r@ == uid_text(epoch as int, pid as nat, n as nat),
{
    let mut out = String::new();
    push_str(&mut out, "beckon-");
    push_padded(&mut out, epoch, 0);
    crate::text::push_char(&mut out, '-');
    push_decimal(&mut out, pid as u64);
    crate::text::push_char(&mut out, '-');
    push_decimal(&mut out, n);
    push_str(&mut out, "@beckon");
    out
}

proof fn lemma_no_dash_in_decimal(n: nat)
    ensures
        !has_char(decimal(n), '-'),
{
    lemma_decimal(n);
    if has_char(decimal(n), '-') {
        let i = choose|i: int| 0 <= i < decimal(n).len() && decimal(n)[i] == '-';
        assert(is_ascii_digit(decimal(n)[i]));
    }
}

/// Uids drawn with different counter values differ, whatever the time and
/// the process.
pub proof fn law_uids_differ(e1: int, e2: int, p1: nat, p2: nat, n1: nat, n2: nat)
    requires
        n1 != n2,
    ensures
        uid_text(e1, p1, n1) != uid_text(e2, p2, n2),
{
    reveal_strlit("@beckon");
    let tail = "@beckon"@;
    let x1 = "beckon-"@ + padded(e1, 0) + seq!['-'] + decimal(p1);
    let x2 = "beckon-"@ + padded(e2, 0) + seq!['-'] + decimal(p2);
    let a = x1 + seq!['-'] + decimal(n1);
    let b = x2 + seq!['-'] + decimal(n2);
    assert(uid_text(e1, p1, n1) =~= a + tail);
    assert(uid_text(e2, p2, n2) =~= b + tail);
    if uid_text(e1, p1, n1) == uid_text(e2, p2, n2) {
        assert(a.len() == b.len());
        assert((a + tail).take(a.len() as int) =~= a);
        assert((b + tail).take(b.len() as int) =~= b);
        assert(a == b);
        lemma_no_dash_in_decimal(n1);
        lemma_no_dash_in_decimal(n2);
        lemma_split_on_append(x1, '-', decimal(n1));
        lemma_split_on_append(x2, '-', decimal(n2));
        assert(split_on(a, '-').last() == decimal(n1));
        assert(split_on(b, '-').last() == decimal(n2));
        lemma_decimal(n1);
        lemma_decimal(n2);
    }
}

/// The note for a source that could not be read.
pub open spec fn source_note_text(name: Seq<char>, uid: Seq<char>, err: Seq<char>) -> Seq<char> {
    "- "@ + name + " ("@ + uid + "): "@ + err
}

/// `- {name} ({uid}): {err}`, the note for a source that could not be read.
pub fn source_note(source: &Source, err: &str) -> (r: String)
    ensures
        r@ == source_note_text(source.name@, source.uid@, err@),
{
    let mut s = String::new();
    push_str(&mut s, "- ");
    push_str(&mut s, source.name.as_str());
    push_str(&mut s, " (");
    push_str(&mut s, source.uid.as_str());
    push_str(&mut s, "): ");
    push_str(&mut s, err);
    assert(s@ =~= source_note_text(source.name@, source.uid@, err@));
    s
}

/// Whether looking an object up in one list found it: a reply that is not
/// empty. The search takes the first list that does.
pub fn object_found(reply: &Result<String, String>) -> (r: bool)
    ensures
        r == (reply matches Ok(t) && t@.len() > 0),
{
    match reply {
        Ok(t) => !t.as_str().is_empty(),
        Err(_) => false,
    }
}

/// The error when no list holds an object.
pub fn not_found_reply(uid: &str) -> (r: String)
    ensures
        r@ == "no object with uid \""@ + uid@ + "\" found"@,
{
    let mut s = String::new();
    push_str(&mut s, "no object with uid \"");
    push_str(&mut s, uid);
    push_str(&mut s, "\" found");
    s
}

} // verus!
