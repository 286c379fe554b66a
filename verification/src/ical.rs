//! iCalendar (RFC 5545) text handling shared by events (VEVENT) and tasks
//! (VTODO): line unfolding, component extraction, property parsing,
//! escaping, and in-place property edits.

use vstd::prelude::*;

use crate::text::{
    digits_value, lemma_digits_order, lemma_digits_value_two_more, lemma_trim_none, text_lt, joined, lemma_decimal, lemma_digits_of_append, lemma_digits_of_digits, lemma_padded_digits,
    lemma_split_on_append, lemma_split_on_none, padded,
    all_digits, chars_of, digits_of, digits_only, eq_ignore_ascii_case, eq_ignore_case_chars,
    first_of_either, first_of_either_exec, has_char, has_char_exec, is_ascii_digit, push_char,
    push_chars, slice_of, split_chars, split_on, string_of, trim, trim_chars, upper_seq,
    upper_chars, zeros, push_str, starts_with,
};
use crate::datetime::{
    civil_of_days, date_before, day_of, law_civil_of_days_round_trip, lemma_days_increase,
    second_of_day, days_since_epoch, is_valid_date, iso_date_text, iso_instant_text, law_iso_date_round_trip,
    law_iso_instant_round_trip, date_digits, epoch_to_date, epoch_to_make_time, iso_fits, make_time_text, parse_iso,
    parse_iso_result,
};

verus! {

/// The character sequences held by a list of strings.
pub open spec fn strings_view(v: Seq<String>) -> Seq<Seq<char>> {
    v.map_values(|s: String| s@)
}

pub open spec fn vecs_view(v: Seq<Vec<char>>) -> Seq<Seq<char>> {
    v.map_values(|s: Vec<char>| s@)
}

pub fn strings_of(v: Vec<Vec<char>>) -> (r: Vec<String>)
    ensures
        strings_view(r@) == vecs_view(v@),
{
    let mut r: Vec<String> = Vec::new();
    let mut i: usize = 0;
    while i < v.len()
        invariant
            i <= v.len(),
            strings_view(r@) == vecs_view(v@.take(i as int)),
        decreases v.len() - i,
    {
        r.push(string_of(v[i].as_slice()));
        assert(vecs_view(v@.take(i + 1)) == vecs_view(v@.take(i as int)).push(v@[i as int]@));
        assert(strings_view(r@) =~= vecs_view(v@.take(i + 1)));
        i = i + 1;
    }
    assert(v@.take(v.len() as int) == v@);
    r
}

// ---------------------------------------------------------------------------
// Unfolding
// ---------------------------------------------------------------------------

/// A raw line without its trailing carriage return.
pub open spec fn strip_cr(line: Seq<char>) -> Seq<char> {
    if line.len() > 0 && line.last() == '\r' { line.drop_last() } else { line }
}

/// A line that continues the previous one (RFC 5545 §3.1): it starts with a
/// space or a tab.
pub open spec fn is_continuation(line: Seq<char>) -> bool {
    line.len() > 0 && (line[0] == ' ' || line[0] == '\t')
}

/// Logical lines of the raw lines `raws`.
pub open spec fn unfold_lines(raws: Seq<Seq<char>>) -> Seq<Seq<char>>
    decreases raws.len(),
{
    if raws.len() == 0 {
        Seq::empty()
    } else {
        let prev = unfold_lines(raws.drop_last());
        let line = strip_cr(raws.last());
        if is_continuation(line) && prev.len() > 0 {
            prev.update(prev.len() - 1, prev.last() + line.drop_first())
        } else {
            prev.push(line)
        }
    }
}

/// Logical lines of an iCalendar text.
pub open spec fn unfold_text(ics: Seq<char>) -> Seq<Seq<char>> {
    unfold_lines(split_on(ics, '\n'))
}

fn unfold_chars(ics: &[char]) -> (r: Vec<Vec<char>>)
    ensures
        vecs_view(r@) == unfold_text(ics@),
{
    let raws = split_chars(ics, '\n');
    let ghost rv = split_on(ics@, '\n');
    assert(vecs_view(raws@) =~= rv);
    let mut lines: Vec<Vec<char>> = Vec::new();
    let mut i: usize = 0;
    while i < raws.len()
        invariant
            i <= raws.len(),
            raws@.len() == rv.len(),
            forall|k: int| 0 <= k < raws@.len() ==> #[trigger] raws@[k]@ == rv[k],
            vecs_view(lines@) == unfold_lines(rv.take(i as int)),
        decreases raws.len() - i,
    {
        let raw = &raws[i];
        let n = raw.len();
        let end = if n > 0 && raw[n - 1] == '\r' { n - 1 } else { n };
        let line = slice_of(raw.as_slice(), 0, end);
        assert(line@ == strip_cr(rv[i as int]));
        assert(rv.take(i + 1).drop_last() == rv.take(i as int));
        let cont = line.len() > 0 && (line[0] == ' ' || line[0] == '\t');
        if cont && lines.len() > 0 {
            let last = lines.len() - 1;
            let mut joined = lines[last].clone();
            let mut j: usize = 1;
            while j < line.len()
                invariant
                    1 <= j <= line.len(),
                    joined@ == lines@[last as int]@ + line@.subrange(1, j as int),
                decreases line.len() - j,
            {
                joined.push(line[j]);
                j = j + 1;
            }
            assert(line@.subrange(1, line@.len() as int) == line@.drop_first());
            lines.set(last, joined);
            assert(vecs_view(lines@) =~= unfold_lines(rv.take(i + 1)));
        } else {
            lines.push(line);
            assert(vecs_view(lines@) =~= unfold_lines(rv.take(i + 1)));
        }
        i = i + 1;
    }
    assert(rv.take(raws.len() as int) == rv);
    lines
}

/// Unfold logical lines: a line beginning with a space or tab continues the
/// previous one (RFC 5545 §3.1).
pub fn unfold(ics: &str) -> (r: Vec<String>)
    ensures
        strings_view(r@) == unfold_text(ics@),
{
    let v = chars_of(ics);
    strings_of(unfold_chars(v.as_slice()))
}

// ---------------------------------------------------------------------------
// Components
// ---------------------------------------------------------------------------

/// Scan state after the first `i` lines: the index just past the open
/// `BEGIN` line (if any), and the components closed so far.
pub open spec fn component_scan(lines: Seq<Seq<char>>, begin: Seq<char>, end: Seq<char>, i: int)
    -> (Option<int>, Seq<Seq<Seq<char>>>)
    decreases i,
{
    if i <= 0 {
        (None, Seq::empty())
    } else {
        let (start, out) = component_scan(lines, begin, end, i - 1);
        let t = trim(lines[i - 1]);
        if eq_ignore_ascii_case(t, begin) {
            (Some(i), out)
        } else if eq_ignore_ascii_case(t, end) {
            match start {
                Some(s) => (None, out.push(lines.subrange(s, i - 1))),
                None => (None, out),
            }
        } else {
            (start, out)
        }
    }
}

/// Inner lines of each `BEGIN:{kind} … END:{kind}` block of `blob`.
pub open spec fn components_of(blob: Seq<char>, kind: Seq<char>) -> Seq<Seq<Seq<char>>> {
    let lines = unfold_text(blob);
    component_scan(lines, "BEGIN:"@ + kind, "END:"@ + kind, lines.len() as int).1
}

pub open spec fn blocks_view(v: Seq<Vec<String>>) -> Seq<Seq<Seq<char>>> {
    v.map_values(|b: Vec<String>| strings_view(b@))
}

fn lines_between(lines: &Vec<Vec<char>>, lo: usize, hi: usize) -> (r: Vec<String>)
    requires
        lo <= hi <= lines@.len(),
    ensures
        strings_view(r@) == vecs_view(lines@).subrange(lo as int, hi as int),
{
    let mut r: Vec<String> = Vec::new();
    let mut i = lo;
    while i < hi
        invariant
            lo <= i <= hi <= lines@.len(),
            strings_view(r@) == vecs_view(lines@).subrange(lo as int, i as int),
        decreases hi - i,
    {
        let ghost before = r@;
        r.push(string_of(lines[i].as_slice()));
        assert(r@ == before.push(r@.last()));
        assert(strings_view(r@) == strings_view(before).push(lines@[i as int]@));
        assert(vecs_view(lines@)[i as int] == lines@[i as int]@);
        assert(strings_view(r@) =~= vecs_view(lines@).subrange(lo as int, i + 1));
        i = i + 1;
    }
    r
}

fn tagged(tag: &[char], kind: &str) -> (r: Vec<char>)
    ensures
        r@ == tag@ + kind@,
{
    let mut r = slice_of(tag, 0, tag.len());
    let k = chars_of(kind);
    let mut i: usize = 0;
    while i < k.len()
        invariant
            i <= k.len(),
            r@ == tag@ + k@.take(i as int),
        decreases k.len() - i,
    {
        r.push(k[i]);
        i = i + 1;
    }
    assert(k@.take(k.len() as int) == k@);
    r
}

/// Inner lines of each `BEGIN:{kind} … END:{kind}` block in a reply blob (a
/// bare component or a VCALENDAR holding one or more).
pub fn components(blob: &str, kind: &str) -> (r: Vec<Vec<String>>)
    ensures
        blocks_view(r@) == components_of(blob@, kind@),
{
    let v = chars_of(blob);
    let lines = unfold_chars(v.as_slice());
    let ghost lv = unfold_text(blob@);
    let begin = tagged(vec!['B', 'E', 'G', 'I', 'N', ':'].as_slice(), kind);
    let end = tagged(vec!['E', 'N', 'D', ':'].as_slice(), kind);
    proof {
        reveal_strlit("BEGIN:");
        reveal_strlit("END:");
        assert(begin@ == "BEGIN:"@ + kind@);
        assert(end@ == "END:"@ + kind@);
    }
    let mut out: Vec<Vec<String>> = Vec::new();
    let mut start: Option<usize> = None;
    let mut i: usize = 0;
    while i < lines.len()
        invariant
            i <= lines.len(),
            vecs_view(lines@) == lv,
            ({
                let (st, o) = component_scan(lv, begin@, end@, i as int);
                &&& blocks_view(out@) == o
                &&& (match start { Some(s) => st == Some(s as int) && s <= i, None => st is None })
            }),
        decreases lines.len() - i,
    {
        let t = trim_chars(lines[i].as_slice());
        assert(lv[i as int] == lines@[i as int]@);
        if eq_ignore_case_chars(t.as_slice(), begin.as_slice()) {
            start = Some(i + 1);
        } else if eq_ignore_case_chars(t.as_slice(), end.as_slice()) {
            match start {
                Some(s) => {
                    let block = lines_between(&lines, s, i);
                    out.push(block);
                    assert(blocks_view(out@) =~= component_scan(lv, begin@, end@, i + 1).1);
                },
                None => {},
            }
            start = None;
        }
        i = i + 1;
    }
    out
}

// ---------------------------------------------------------------------------
// Properties
// ---------------------------------------------------------------------------

/// Index of the first `:` at or after `i` that lies outside double quotes,
/// `in_quote` telling whether position `i` is inside quotes.
pub open spec fn unquoted_colon_from(s: Seq<char>, i: int, in_quote: bool) -> Option<int>
    decreases s.len() - i,
{
    if i < 0 || i >= s.len() {
        None
    } else if s[i] == '"' {
        unquoted_colon_from(s, i + 1, !in_quote)
    } else if s[i] == ':' && !in_quote {
        Some(i)
    } else {
        unquoted_colon_from(s, i + 1, in_quote)
    }
}

/// `NAME;PARAMS:VALUE` split at the first unquoted colon into the upper-cased
/// name, the parameter text, and the value.
pub open spec fn property_parts(line: Seq<char>) -> Option<(Seq<char>, Seq<char>, Seq<char>)> {
    match unquoted_colon_from(line, 0, false) {
        None => None,
        Some(c) => {
            let head = line.take(c);
            let value = line.skip(c + 1);
            match first_of_either(head, ';', ';') {
                Some(k) => Some((upper_seq(head.take(k)), head.skip(k + 1), value)),
                None => Some((upper_seq(head), Seq::<char>::empty(), value)),
            }
        },
    }
}

pub open spec fn parts_view(r: Option<(String, String, String)>) -> Option<(Seq<char>, Seq<char>, Seq<char>)> {
    match r {
        Some((a, b, c)) => Some((a@, b@, c@)),
        None => None,
    }
}

proof fn lemma_unquoted_colon_none_before(s: Seq<char>, i: int, q: bool, j: int, c: int)
    requires
        0 <= i <= j,
        unquoted_colon_from(s, i, q) == Some(c),
    ensures
        c >= i,
    decreases s.len() - i,
{
    if i < s.len() && !(s[i] == ':' && !q && s[i] != '"') {
        if s[i] == '"' {
            lemma_unquoted_colon_none_before(s, i + 1, !q, j + 1, c);
        } else {
            lemma_unquoted_colon_none_before(s, i + 1, q, j + 1, c);
        }
    }
}

fn find_unquoted_colon(line: &[char]) -> (r: Option<usize>)
    ensures
        r matches Some(c) ==> c < line.len() && unquoted_colon_from(line@, 0, false) == Some(c as int),
        r is None ==> unquoted_colon_from(line@, 0, false) is None,
{
    let mut in_quote = false;
    let mut i: usize = 0;
    while i < line.len()
        invariant
            i <= line.len(),
            unquoted_colon_from(line@, i as int, in_quote) == unquoted_colon_from(line@, 0, false),
        decreases line.len() - i,
    {
        let c = line[i];
        if c == '"' {
            in_quote = !in_quote;
        } else if c == ':' && !in_quote {
            return Some(i);
        }
        i = i + 1;
    }
    None
}

fn split_property_chars(line: &[char]) -> (r: Option<(Vec<char>, Vec<char>, Vec<char>)>)
    ensures
        match r {
            Some((a, b, c)) => property_parts(line@) == Some((a@, b@, c@)),
            None => property_parts(line@) is None,
        },
{
    let colon = match find_unquoted_colon(line) {
        Some(c) => c,
        None => {
            return None;
        },
    };
    let head = slice_of(line, 0, colon);
    let value = slice_of(line, colon + 1, line.len());
    assert(head@ == line@.take(colon as int));
    assert(value@ == line@.skip(colon + 1));
    match first_of_either_exec(head.as_slice(), 0, head.len(), ';', ';') {
        Some(k) => {
            assert(head@.subrange(0, head@.len() as int) == head@);
            let name = upper_chars(slice_of(head.as_slice(), 0, k).as_slice());
            let params = slice_of(head.as_slice(), k + 1, head.len());
            Some((name, params, value))
        },
        None => {
            assert(head@.subrange(0, head@.len() as int) == head@);
            Some((upper_chars(head.as_slice()), Vec::new(), value))
        },
    }
}

/// Split `NAME;PARAM=x:VALUE` into (upper-cased name, params, value) at the
/// first unquoted colon.
pub fn split_property(line: &str) -> (r: Option<(String, String, String)>)
    ensures
        parts_view(r) == property_parts(line@),
{
    let v = chars_of(line);
    match split_property_chars(v.as_slice()) {
        Some((a, b, c)) => Some((string_of(a.as_slice()), string_of(b.as_slice()), string_of(c.as_slice()))),
        None => None,
    }
}

/// The value is a date without a time: a `VALUE=DATE` parameter, or eight
/// digits with no `T`.
pub open spec fn date_only(params: Seq<char>, value: Seq<char>) -> bool {
    ||| exists|k: int| 0 <= k < split_on(params, ';').len()
            && eq_ignore_ascii_case(#[trigger] split_on(params, ';')[k], "VALUE=DATE"@)
    ||| (!has_char(value, 'T') && value.len() == 8 && all_digits(value))
}

pub fn is_date_only(params: &str, value: &str) -> (r: bool)
    ensures
        r == date_only(params@, value@),
{
    let p = chars_of(params);
    let parts = split_chars(p.as_slice(), ';');
    let marker = vec!['V', 'A', 'L', 'U', 'E', '=', 'D', 'A', 'T', 'E'];
    proof {
        reveal_strlit("VALUE=DATE");
        assert(marker@ == "VALUE=DATE"@);
    }
    let mut i: usize = 0;
    while i < parts.len()
        invariant
            i <= parts.len(),
            parts@.len() == split_on(p@, ';').len(),
            forall|k: int| 0 <= k < parts@.len() ==> #[trigger] parts@[k]@ == split_on(p@, ';')[k],
            marker@ == "VALUE=DATE"@,
            p@ == params@,
            forall|k: int| 0 <= k < i ==> !eq_ignore_ascii_case(#[trigger] split_on(p@, ';')[k], "VALUE=DATE"@),
        decreases parts.len() - i,
    {
        if eq_ignore_case_chars(parts[i].as_slice(), marker.as_slice()) {
            assert(eq_ignore_ascii_case(split_on(p@, ';')[i as int], "VALUE=DATE"@));
            assert(p@ == params@);
            assert(date_only(params@, value@));
            return true;
        }
        i = i + 1;
    }
    let v = chars_of(value);
    if has_char_exec(v.as_slice(), 'T') || v.len() != 8 {
        return false;
    }
    let ghost no_marker = forall|k: int| 0 <= k < split_on(params@, ';').len() ==> !eq_ignore_ascii_case(#[trigger] split_on(params@, ';')[k], "VALUE=DATE"@);
    assert(no_marker);
    let mut j: usize = 0;
    while j < v.len()
        invariant
            j <= v.len(),
            v@ == value@,
            no_marker == forall|k: int| 0 <= k < split_on(params@, ';').len() ==> !eq_ignore_ascii_case(#[trigger] split_on(params@, ';')[k], "VALUE=DATE"@),
            no_marker,
            !has_char(value@, 'T'),
            value@.len() == 8,
            forall|k: int| 0 <= k < j ==> is_ascii_digit(#[trigger] v@[k]),
        decreases v.len() - j,
    {
        if !('0' <= v[j] && v[j] <= '9') {
            assert(!is_ascii_digit(v@[j as int]));
            return false;
        }
        j = j + 1;
    }
    true
}

/// Zero-padded 14-digit key (YYYYMMDDHHMMSS) of a date value for
/// chronological sorting; a missing or digit-less value sorts last.
pub open spec fn sort_key_of(raw: Option<Seq<char>>) -> Seq<char> {
    let all = digits_of(match raw { Some(s) => s, None => Seq::empty() });
    let digits = if all.len() > 14 { all.take(14) } else { all };
    if digits.len() == 0 {
        Seq::new(14, |i: int| '9')
    } else {
        digits + zeros(14 - digits.len())
    }
}

pub open spec fn opt_view(raw: Option<String>) -> Option<Seq<char>> {
    match raw {
        Some(s) => Some(s@),
        None => None,
    }
}

pub fn sort_key(raw: &Option<String>) -> (r: String)
    ensures
        r@ == sort_key_of(opt_view(*raw)),
{
    let v = match raw {
        Some(s) => chars_of(s.as_str()),
        None => Vec::new(),
    };
    let all = digits_only(v.as_slice());
    let n = if all.len() < 14 { all.len() } else { 14 };
    let digits = slice_of(all.as_slice(), 0, n);
    let mut out = String::new();
    if n == 0 {
        let mut k: usize = 0;
        while k < 14
            invariant
                k <= 14,
                out@ == Seq::new(k as nat, |i: int| '9'),
            decreases 14 - k,
        {
            push_char(&mut out, '9');
            assert(out@ =~= Seq::new((k + 1) as nat, |i: int| '9'));
            k = k + 1;
        }
        return out;
    }
    push_chars(&mut out, digits.as_slice());
    let mut k = n;
    while k < 14
        invariant
            n <= k <= 14,
            out@ == digits@ + zeros(k - n),
        decreases 14 - k,
    {
        push_char(&mut out, '0');
        assert(zeros(k - n).push('0') =~= zeros(k + 1 - n));
        k = k + 1;
    }
    out
}

// ---------------------------------------------------------------------------
// Escaping (RFC 5545 §3.3.11)
// ---------------------------------------------------------------------------

/// Text value with its backslash escapes resolved.
pub open spec fn unescaped(s: Seq<char>) -> Seq<char>
    decreases s.len(),
{
    if s.len() == 0 {
        Seq::empty()
    } else if s[0] == '\\' {
        if s.len() == 1 {
            Seq::empty()
        } else {
            let c = if s[1] == 'n' || s[1] == 'N' { '\n' } else { s[1] };
            seq![c] + unescaped(s.skip(2))
        }
    } else {
        seq![s[0]] + unescaped(s.drop_first())
    }
}

pub fn unescape(s: &str) -> (r: String)
    ensures
        r@ == unescaped(s@),
{
    let v = chars_of(s);
    let mut out = String::new();
    let mut i: usize = 0;
    assert(v@.skip(0) == v@);
    while i < v.len()
        invariant
            i <= v.len(),
            out@ + unescaped(v@.skip(i as int)) == unescaped(v@),
        decreases v.len() - i,
    {
        let ghost rest = v@.skip(i as int);
        if v[i] == '\\' {
            if i + 1 == v.len() {
                assert(unescaped(rest) == Seq::<char>::empty());
                assert(v@.skip(i + 1) == Seq::<char>::empty());
                i = i + 1;
            } else {
                let c = v[i + 1];
                let o = if c == 'n' || c == 'N' { '\n' } else { c };
                push_char(&mut out, o);
                assert(rest.skip(2) == v@.skip(i + 2));
                i = i + 2;
            }
        } else {
            push_char(&mut out, v[i]);
            assert(rest.drop_first() == v@.skip(i + 1));
            i = i + 1;
        }
    }
    assert(v@.skip(v.len() as int) == Seq::<char>::empty());
    out
}

/// How one character is written in a text value.
pub open spec fn escaped_char(c: char) -> Seq<char> {
    if c == '\\' {
        seq!['\\', '\\']
    } else if c == ';' {
        seq!['\\', ';']
    } else if c == ',' {
        seq!['\\', ',']
    } else if c == '\n' {
        seq!['\\', 'n']
    } else if c == '\r' {
        Seq::empty()
    } else {
        seq![c]
    }
}

pub open spec fn escaped(s: Seq<char>) -> Seq<char>
    decreases s.len(),
{
    if s.len() == 0 {
        Seq::empty()
    } else {
        escaped(s.drop_last()) + escaped_char(s.last())
    }
}

pub fn escape(s: &str) -> (r: String)
    ensures
        r@ == escaped(s@),
{
    let v = chars_of(s);
    let mut out = String::new();
    let mut i: usize = 0;
    while i < v.len()
        invariant
            i <= v.len(),
            out@ == escaped(v@.take(i as int)),
        decreases v.len() - i,
    {
        let c = v[i];
        assert(v@.take(i + 1).drop_last() == v@.take(i as int));
        if c == '\\' {
            push_char(&mut out, '\\');
            push_char(&mut out, '\\');
        } else if c == ';' {
            push_char(&mut out, '\\');
            push_char(&mut out, ';');
        } else if c == ',' {
            push_char(&mut out, '\\');
            push_char(&mut out, ',');
        } else if c == '\n' {
            push_char(&mut out, '\\');
            push_char(&mut out, 'n');
        } else if c == '\r' {
        } else {
            push_char(&mut out, c);
        }
        assert(out@ =~= escaped(v@.take(i + 1)));
        i = i + 1;
    }
    assert(v@.take(v.len() as int) == v@);
    out
}

// ---------------------------------------------------------------------------
// Date/time values
// ---------------------------------------------------------------------------

/// `YYYY-MM-DD` from the first eight digits.
pub open spec fn dashed_date(d: Seq<char>) -> Seq<char> {
    d.subrange(0, 4) + seq!['-'] + d.subrange(4, 6) + seq!['-'] + d.subrange(6, 8)
}

/// Display text of an iCalendar date/time value. All-day → `YYYY-MM-DD`;
/// timed → `YYYY-MM-DD HH:MM` with ` UTC` when the value ends in `Z`;
/// anything with too few digits is shown as it is.
pub open spec fn display_dt(raw: Seq<char>, all_day: bool) -> Seq<char> {
    let utc = raw.len() > 0 && raw.last() == 'Z';
    let d = digits_of(raw);
    if all_day || (!has_char(raw, 'T') && d.len() == 8) {
        if d.len() >= 8 { dashed_date(d) } else { raw }
    } else if d.len() >= 12 {
        let base = dashed_date(d) + seq![' '] + d.subrange(8, 10) + seq![':'] + d.subrange(10, 12);
        if utc { base + " UTC"@ } else { base }
    } else {
        raw
    }
}

fn push_dashed_date(out: &mut String, d: &Vec<char>)
    requires
        d@.len() >= 8,
    ensures
        final(out)@ == old(out)@ + dashed_date(d@),
{
    push_chars(out, slice_of(d.as_slice(), 0, 4).as_slice());
    push_char(out, '-');
    push_chars(out, slice_of(d.as_slice(), 4, 6).as_slice());
    push_char(out, '-');
    push_chars(out, slice_of(d.as_slice(), 6, 8).as_slice());
}

/// Render an iCalendar date/time value for display.
pub fn format_dt(raw: &str, all_day: bool) -> (r: String)
    ensures
        r@ == display_dt(raw@, all_day),
{
    let v = chars_of(raw);
    let utc = v.len() > 0 && v[v.len() - 1] == 'Z';
    let d = digits_only(v.as_slice());
    let mut out = String::new();
    if all_day || (!has_char_exec(v.as_slice(), 'T') && d.len() == 8) {
        if d.len() >= 8 {
            push_dashed_date(&mut out, &d);
        } else {
            push_chars(&mut out, v.as_slice());
        }
    } else if d.len() >= 12 {
        push_dashed_date(&mut out, &d);
        push_char(&mut out, ' ');
        push_chars(&mut out, slice_of(d.as_slice(), 8, 10).as_slice());
        push_char(&mut out, ':');
        push_chars(&mut out, slice_of(d.as_slice(), 10, 12).as_slice());
        if utc {
            push_str(&mut out, " UTC");
            proof { reveal_strlit(" UTC"); }
        }
    } else {
        push_chars(&mut out, v.as_slice());
    }
    out
}

/// The property line a date/time property gets from ISO input: `;VALUE=DATE`
/// with the date for date-only input, else the UTC timestamp.
pub open spec fn dt_property_result(name: Seq<char>, iso: Seq<char>) -> Result<Seq<char>, Seq<char>> {
    match parse_iso_result(iso) {
        Ok((secs, true)) => Ok(name + seq![':'] + make_time_text(secs)),
        Ok((secs, false)) => Ok(name + ";VALUE=DATE:"@ + date_digits(secs)),
        Err(e) => Err(e),
    }
}

pub open spec fn text_result_view(r: Result<String, String>) -> Result<Seq<char>, Seq<char>> {
    match r {
        Ok(s) => Ok(s@),
        Err(e) => Err(e@),
    }
}

/// A date/time property line (e.g. `DTSTART`, `DUE`) from ISO input.
pub fn dt_property(name: &str, iso: &str) -> (r: Result<String, String>)
    requires
        iso_fits(iso@),
    ensures
        text_result_view(r) == dt_property_result(name@, iso@),
{
    let (secs, has_time) = match parse_iso(iso) {
        Ok(p) => p,
        Err(e) => {
            return Err(e);
        },
    };
    let mut out = String::new();
    push_str(&mut out, name);
    if has_time {
        push_char(&mut out, ':');
        let t = epoch_to_make_time(secs);
        push_str(&mut out, t.as_str());
        assert(out@ =~= name@ + seq![':'] + make_time_text(secs as int));
    } else {
        push_str(&mut out, ";VALUE=DATE:");
        proof { reveal_strlit(";VALUE=DATE:"); }
        let t = epoch_to_date(secs);
        push_str(&mut out, t.as_str());
        assert(out@ =~= name@ + ";VALUE=DATE:"@ + date_digits(secs as int));
    }
    Ok(out)
}

// ---------------------------------------------------------------------------
// Editing a component in place
// ---------------------------------------------------------------------------

/// The upper-cased property name a line starts with (up to its first `;` or
/// `:`).
pub open spec fn line_property_name(line: Seq<char>) -> Seq<char> {
    upper_seq(
        match first_of_either(line, ';', ':') {
            Some(i) => line.take(i),
            None => line,
        },
    )
}

/// `lines` without the lines of property `name`.
pub open spec fn without_property(lines: Seq<Seq<char>>, name: Seq<char>) -> Seq<Seq<char>>
    decreases lines.len(),
{
    if lines.len() == 0 {
        Seq::empty()
    } else {
        let rest = without_property(lines.drop_last(), name);
        if line_property_name(lines.last()) != name { rest.push(lines.last()) } else { rest }
    }
}

pub open spec fn is_end_line(line: Seq<char>) -> bool {
    starts_with(upper_seq(trim(line)), "END:"@)
}

/// Index of the last `END:` line.
pub open spec fn last_end_line(lines: Seq<Seq<char>>) -> Option<int>
    decreases lines.len(),
{
    if lines.len() == 0 {
        None
    } else if is_end_line(lines.last()) {
        Some(lines.len() - 1)
    } else {
        last_end_line(lines.drop_last())
    }
}

/// Lines of property `name` removed, and `new_line` (if any) inserted just
/// before the last `END:` line (at the end when there is none).
pub open spec fn property_set(lines: Seq<Seq<char>>, name: Seq<char>, new_line: Option<Seq<char>>) -> Seq<Seq<char>> {
    let kept = without_property(lines, name);
    match new_line {
        Some(l) => {
            let pos = match last_end_line(kept) {
                Some(i) => i,
                None => kept.len() as int,
            };
            kept.insert(pos, l)
        },
        None => kept,
    }
}

fn line_property_name_exec(line: &String) -> (r: Vec<char>)
    ensures
        r@ == line_property_name(line@),
{
    let v = chars_of(line.as_str());
    let end = match first_of_either_exec(v.as_slice(), 0, v.len(), ';', ':') {
        Some(i) => i,
        None => v.len(),
    };
    assert(v@.subrange(0, v@.len() as int) == v@);
    upper_chars(slice_of(v.as_slice(), 0, end).as_slice())
}

fn is_end_line_exec(line: &String) -> (r: bool)
    ensures
        r == is_end_line(line@),
{
    let v = chars_of(line.as_str());
    let u = upper_chars(trim_chars(v.as_slice()).as_slice());
    proof { reveal_strlit("END:"); }
    let r = u.len() >= 4 && u[0] == 'E' && u[1] == 'N' && u[2] == 'D' && u[3] == ':';
    proof {
        if u.len() >= 4 {
            if r {
                assert(u@.take(4) =~= "END:"@);
            } else {
                assert(u@.take(4) != "END:"@ ) by {
                    if u@.take(4) == "END:"@ {
                        assert(u@.take(4)[0] == u@[0]);
                        assert(u@.take(4)[1] == u@[1]);
                        assert(u@.take(4)[2] == u@[2]);
                        assert(u@.take(4)[3] == u@[3]);
                    }
                }
            }
        }
    }
    r
}

fn last_end_index(lines: &Vec<String>) -> (r: Option<usize>)
    ensures
        r matches Some(p) ==> p < lines@.len() && last_end_line(strings_view(lines@)) == Some(p as int),
        r is None ==> last_end_line(strings_view(lines@)) is None,
{
    let ghost kv = strings_view(lines@);
    let mut j = lines.len();
    assert(kv.take(j as int) == kv);
    while j > 0
        invariant
            j <= lines.len(),
            kv == strings_view(lines@),
            last_end_line(kv.take(j as int)) == last_end_line(kv),
        decreases j,
    {
        assert(kv.take(j as int).drop_last() == kv.take(j - 1));
        assert(kv.take(j as int).last() == lines@[j - 1]@);
        if is_end_line_exec(&lines[j - 1]) {
            return Some(j - 1);
        }
        j = j - 1;
    }
    None
}

/// Replace (or remove) all lines of property `name` in an unfolded
/// component, inserting `new_line` just before the component's closing `END:`
/// line. The terminator is the *last* `END:` line, so a nested block (e.g. a
/// VEVENT's VALARM) doesn't capture the insertion point.
pub fn set_property(lines: &mut Vec<String>, name: &str, new_line: Option<String>)
    ensures
        strings_view(final(lines)@) == property_set(strings_view(old(lines)@), name@, opt_view(new_line)),
{
    let ghost orig = strings_view(lines@);
    let target = chars_of(name);
    let mut kept: Vec<String> = Vec::new();
    let mut i: usize = 0;
    while i < lines.len()
        invariant
            i <= lines.len(),
            orig == strings_view(lines@),
            target@ == name@,
            strings_view(kept@) == without_property(orig.take(i as int), name@),
        decreases lines.len() - i,
    {
        let pname = line_property_name_exec(&lines[i]);
        assert(orig.take(i + 1).drop_last() == orig.take(i as int));
        assert(orig[i as int] == lines@[i as int]@);
        if !crate::text::chars_eq(pname.as_slice(), target.as_slice()) {
            let ghost before = kept@;
            kept.push(lines[i].clone());
            assert(strings_view(kept@) =~= strings_view(before).push(lines@[i as int]@));
        }
        i = i + 1;
    }
    assert(orig.take(orig.len() as int) == orig);
    match new_line {
        Some(line) => {
            let at = match last_end_index(&kept) {
                Some(p) => p,
                None => kept.len(),
            };
            let ghost before = kept@;
            kept.insert(at, line);
            assert(strings_view(kept@) =~= strings_view(before).insert(at as int, line@));
        },
        None => {},
    }
    *lines = kept;
}

// ---------------------------------------------------------------------------
// Editing a component's properties
// ---------------------------------------------------------------------------

/// `lines` with text property `name` set to the escaped `value`, when one is
/// given.
pub open spec fn with_text(lines: Seq<Seq<char>>, name: Seq<char>, value: Option<Seq<char>>) -> Seq<Seq<char>> {
    match value {
        Some(v) => property_set(lines, name, Some(text_line(name, v))),
        None => lines,
    }
}

/// The line of text property `name` holding `value`, escaped.
pub open spec fn text_line(name: Seq<char>, value: Seq<char>) -> Seq<char> {
    name + seq![':'] + escaped(value)
}

/// `lines` with date property `name` set from ISO input, when one is given.
pub open spec fn with_dt(lines: Seq<Seq<char>>, name: Seq<char>, iso: Option<Seq<char>>) -> Result<Seq<Seq<char>>, Seq<char>> {
    match iso {
        None => Ok(lines),
        Some(t) => match dt_property_result(name, t) {
            Ok(l) => Ok(property_set(lines, name, Some(l))),
            Err(e) => Err(e),
        },
    }
}

/// Set text property `name` to the escaped `value`, when one is given.
pub fn set_text_property(lines: &mut Vec<String>, name: &str, value: Option<&str>)
    ensures
        strings_view(final(lines)@) == with_text(strings_view(old(lines)@), name@, match value {
            Some(v) => Some(v@),
            None => None,
        }),
{
    match value {
        Some(v) => {
            let mut line = String::new();
            push_str(&mut line, name);
            push_char(&mut line, ':');
            let e = escape(v);
            push_str(&mut line, e.as_str());
            assert(line@ =~= name@ + seq![':'] + escaped(v@));
            set_property(lines, name, Some(line));
        },
        None => {},
    }
}

/// Set date property `name` from ISO input, when one is given; an input that
/// does not parse is an error.
pub fn set_dt_property(lines: &mut Vec<String>, name: &str, iso: Option<&str>) -> (r: Result<(), String>)
    requires
        iso matches Some(t) ==> iso_fits(t@),
    ensures
        match with_dt(strings_view(old(lines)@), name@, match iso {
            Some(t) => Some(t@),
            None => None,
        }) {
            Ok(l) => r is Ok && strings_view(final(lines)@) == l,
            Err(e) => r matches Err(m) && m@ == e,
        },
{
    match iso {
        Some(t) => {
            let line = dt_property(name, t)?;
            set_property(lines, name, Some(line));
            Ok(())
        },
        None => Ok(()),
    }
}

// ---------------------------------------------------------------------------
// Laws of escaping and editing
// ---------------------------------------------------------------------------

proof fn lemma_escaped_cons(c: char, rest: Seq<char>)
    ensures
        escaped(seq![c] + rest) == escaped_char(c) + escaped(rest),
    decreases rest.len(),
{
    if rest.len() == 0 {
        assert(seq![c] + rest =~= seq![c]);
        assert(seq![c].drop_last() =~= Seq::<char>::empty());
        assert(seq![c].last() == c);
        assert(escaped(Seq::<char>::empty()) =~= Seq::<char>::empty());
        assert(escaped(seq![c]) == escaped(seq![c].drop_last()) + escaped_char(seq![c].last()));
        assert(escaped(seq![c]) =~= escaped_char(c));
        assert(escaped_char(c) + escaped(rest) =~= escaped_char(c));
    } else {
        lemma_escaped_cons(c, rest.drop_last());
        assert((seq![c] + rest).drop_last() =~= seq![c] + rest.drop_last());
        assert((seq![c] + rest).last() == rest.last());
        assert(escaped_char(c) + escaped(rest.drop_last()) + escaped_char(rest.last()) =~= escaped_char(c) + escaped(
            rest,
        ));
    }
}

/// `s` without its carriage returns.
pub open spec fn without_crs(s: Seq<char>) -> Seq<char>
    decreases s.len(),
{
    if s.len() == 0 {
        Seq::empty()
    } else if s[0] == '\r' {
        without_crs(s.drop_first())
    } else {
        seq![s[0]] + without_crs(s.drop_first())
    }
}

/// A text value written with `escape` reads back through `unescape` as the
/// same text, less the carriage returns that writing drops.
pub proof fn law_unescape_escape(s: Seq<char>)
    ensures
        unescaped(escaped(s)) == without_crs(s),
    decreases s.len(),
{
    if s.len() > 0 {
        let c = s[0];
        let rest = s.drop_first();
        assert(s =~= seq![c] + rest);
        law_unescape_escape(rest);
        lemma_escaped_cons(c, rest);
        let x = escaped(rest);
        let e = escaped_char(c) + x;
        if c == '\r' {
            assert(e =~= x);
        } else if c == '\\' || c == ';' || c == ',' || c == '\n' {
            assert(e[0] == '\\');
            assert(e.skip(2) =~= x);
        } else {
            assert(e[0] == c);
            assert(e.drop_first() =~= x);
        }
        assert(seq![c] + rest =~= s);
    }
}

proof fn lemma_without_property_append(a: Seq<Seq<char>>, b: Seq<Seq<char>>, name: Seq<char>)
    ensures
        without_property(a + b, name) == without_property(a, name) + without_property(b, name),
    decreases b.len(),
{
    if b.len() == 0 {
        assert(a + b =~= a);
        assert(without_property(a, name) + without_property(b, name) =~= without_property(a, name));
    } else {
        lemma_without_property_append(a, b.drop_last(), name);
        assert((a + b).drop_last() =~= a + b.drop_last());
        assert((a + b).last() == b.last());
        if line_property_name(b.last()) != name {
            assert(without_property(a, name) + without_property(b.drop_last(), name).push(b.last()) =~= (without_property(
                a,
                name,
            ) + without_property(b.drop_last(), name)).push(b.last()));
        }
    }
}

proof fn lemma_without_property_idem(lines: Seq<Seq<char>>, name: Seq<char>)
    ensures
        without_property(without_property(lines, name), name) == without_property(lines, name),
    decreases lines.len(),
{
    if lines.len() > 0 {
        lemma_without_property_idem(lines.drop_last(), name);
        let rest = without_property(lines.drop_last(), name);
        if line_property_name(lines.last()) != name {
            assert(rest.push(lines.last()).drop_last() =~= rest);
        }
    }
}

proof fn lemma_without_property_none(lines: Seq<Seq<char>>, name: Seq<char>)
    ensures
        forall|i: int| 0 <= i < without_property(lines, name).len() ==> line_property_name(
            #[trigger] without_property(lines, name)[i],
        ) != name,
    decreases lines.len(),
{
    if lines.len() > 0 {
        lemma_without_property_none(lines.drop_last(), name);
        let rest = without_property(lines.drop_last(), name);
        let r = without_property(lines, name);
        assert forall|i: int| 0 <= i < r.len() implies line_property_name(#[trigger] r[i]) != name by {
            if i < rest.len() {
                assert(r[i] == rest[i]);
            }
        }
    }
}

/// Setting a property touches only the lines of that property: the other
/// lines stay, in order.
pub proof fn law_set_property_keeps_others(lines: Seq<Seq<char>>, name: Seq<char>, new_line: Option<Seq<char>>)
    requires
        new_line matches Some(l) ==> line_property_name(l) == name,
    ensures
        without_property(property_set(lines, name, new_line), name) == without_property(lines, name),
{
    let kept = without_property(lines, name);
    lemma_without_property_idem(lines, name);
    if let Some(l) = new_line {
        let pos = match last_end_line(kept) {
            Some(i) => i,
            None => kept.len() as int,
        };
        lemma_last_end_line_bound(kept);
        assert(kept.insert(pos, l) =~= kept.take(pos) + seq![l] + kept.skip(pos));
        lemma_without_property_append(kept.take(pos) + seq![l], kept.skip(pos), name);
        lemma_without_property_append(kept.take(pos), seq![l], name);
        lemma_without_property_append(kept.take(pos), kept.skip(pos), name);
        assert(seq![l].drop_last() =~= Seq::<Seq<char>>::empty());
        assert(seq![l].last() == l);
        assert(without_property(Seq::<Seq<char>>::empty(), name) =~= Seq::<Seq<char>>::empty());
        assert(without_property(seq![l], name) == without_property(seq![l].drop_last(), name));
        assert(without_property(seq![l], name) =~= Seq::<Seq<char>>::empty());
        assert(kept.take(pos) + kept.skip(pos) =~= kept);
        assert(without_property(kept.take(pos), name) + Seq::<Seq<char>>::empty() =~= without_property(
            kept.take(pos),
            name,
        ));
    }
}

proof fn lemma_last_end_line_bound(lines: Seq<Seq<char>>)
    ensures
        last_end_line(lines) matches Some(i) ==> 0 <= i < lines.len(),
    decreases lines.len(),
{
    if lines.len() > 0 && !is_end_line(lines.last()) {
        lemma_last_end_line_bound(lines.drop_last());
    }
}

/// After setting a property, its only line is the new one; after removing
/// it, no line of it is left.
pub proof fn law_set_property_sole_line(lines: Seq<Seq<char>>, name: Seq<char>, new_line: Option<Seq<char>>)
    requires
        new_line matches Some(l) ==> line_property_name(l) == name,
    ensures
        forall|i: int| 0 <= i < property_set(lines, name, new_line).len() && line_property_name(
            #[trigger] property_set(lines, name, new_line)[i],
        ) == name ==> new_line == Some(property_set(lines, name, new_line)[i]),
        new_line matches Some(l) ==> property_set(lines, name, new_line).contains(l),
{
    let kept = without_property(lines, name);
    lemma_without_property_none(lines, name);
    lemma_last_end_line_bound(kept);
    if let Some(l) = new_line {
        let pos = match last_end_line(kept) {
            Some(i) => i,
            None => kept.len() as int,
        };
        let r = kept.insert(pos, l);
        assert(r[pos] == l);
        assert forall|i: int| 0 <= i < r.len() && line_property_name(#[trigger] r[i]) == name implies new_line == Some(
            r[i],
        ) by {
            if i < pos {
                assert(r[i] == kept[i]);
            } else if i > pos {
                assert(r[i] == kept[i - 1]);
            }
        }
    }
}

/// Setting a property twice to the same line is the same as setting it once.
pub proof fn law_set_property_idempotent(lines: Seq<Seq<char>>, name: Seq<char>, new_line: Option<Seq<char>>)
    requires
        new_line matches Some(l) ==> line_property_name(l) == name,
    ensures
        property_set(property_set(lines, name, new_line), name, new_line) == property_set(lines, name, new_line),
{
    law_set_property_keeps_others(lines, name, new_line);
}


// ---------------------------------------------------------------------------
// Which lines an edit touches
// ---------------------------------------------------------------------------

/// `lines` without the lines of any property in `names`.
pub open spec fn without_names(lines: Seq<Seq<char>>, names: Set<Seq<char>>) -> Seq<Seq<char>>
    decreases lines.len(),
{
    if lines.len() == 0 {
        Seq::empty()
    } else {
        let rest = without_names(lines.drop_last(), names);
        if names.contains(line_property_name(lines.last())) { rest } else { rest.push(lines.last()) }
    }
}

/// Every property name but `name`.
pub open spec fn all_but(name: Seq<char>) -> Set<Seq<char>> {
    Set::new(|n: Seq<char>| n != name)
}

/// The lines of property `name`, in order.
pub open spec fn lines_named(lines: Seq<Seq<char>>, name: Seq<char>) -> Seq<Seq<char>> {
    without_names(lines, all_but(name))
}

/// A property name as iCalendar writes it: upper-case letters and `-`.
pub open spec fn plain_name(name: Seq<char>) -> bool {
    forall|i: int| 0 <= i < name.len() ==> ('A' <= #[trigger] name[i] <= 'Z' || name[i] == '-')
}

/// The lines setting property `name` to `new_line` leave: the new line, or
/// none.
pub open spec fn set_lines(new_line: Option<Seq<char>>) -> Seq<Seq<char>> {
    match new_line {
        Some(l) => seq![l],
        None => Seq::empty(),
    }
}

proof fn lemma_first_separator(name: Seq<char>, c: char, rest: Seq<char>)
    requires
        plain_name(name),
        c == ';' || c == ':',
    ensures
        first_of_either(name + seq![c] + rest, ';', ':') == Some(name.len() as int),
    decreases name.len(),
{
    let s = name + seq![c] + rest;
    if name.len() == 0 {
        assert(s[0] == c);
    } else {
        assert(s[0] == name[0]);
        let tail = name.drop_first();
        assert forall|i: int| 0 <= i < tail.len() implies ('A' <= #[trigger] tail[i] <= 'Z' || tail[i] == '-') by {
            assert(tail[i] == name[i + 1]);
        }
        lemma_first_separator(tail, c, rest);
        assert(s.drop_first() =~= tail + seq![c] + rest);
    }
}

/// A line that starts with a plain name and then `;` or `:` is a line of that
/// property.
pub proof fn lemma_line_name(name: Seq<char>, c: char, rest: Seq<char>)
    requires
        plain_name(name),
        c == ';' || c == ':',
    ensures
        line_property_name(name + seq![c] + rest) == name,
{
    lemma_first_separator(name, c, rest);
    let s = name + seq![c] + rest;
    assert(s.take(name.len() as int) =~= name);
    assert forall|i: int| 0 <= i < name.len() implies #[trigger] upper_seq(name)[i] == name[i] by {
        assert('A' <= name[i] <= 'Z' || name[i] == '-');
    }
    assert(upper_seq(name) =~= name);
}

/// The line a date/time property gets is a line of that property.
pub proof fn lemma_dt_line_name(name: Seq<char>, iso: Seq<char>)
    requires
        plain_name(name),
    ensures
        dt_property_result(name, iso) matches Ok(l) ==> line_property_name(l) == name,
{
    match parse_iso_result(iso) {
        Ok((secs, true)) => {
            lemma_line_name(name, ':', make_time_text(secs));
        },
        Ok((secs, false)) => {
            reveal_strlit(";VALUE=DATE:");
            let x = ";VALUE=DATE:"@;
            assert(x[0] == ';');
            assert(name + x + date_digits(secs) =~= name + seq![';'] + (x.drop_first() + date_digits(secs)));
            lemma_line_name(name, ';', x.drop_first() + date_digits(secs));
        },
        Err(_) => {},
    }
}

proof fn lemma_without_names_append(a: Seq<Seq<char>>, b: Seq<Seq<char>>, names: Set<Seq<char>>)
    ensures
        without_names(a + b, names) == without_names(a, names) + without_names(b, names),
    decreases b.len(),
{
    if b.len() == 0 {
        assert(a + b =~= a);
        assert(without_names(a, names) + without_names(b, names) =~= without_names(a, names));
    } else {
        lemma_without_names_append(a, b.drop_last(), names);
        assert((a + b).drop_last() =~= a + b.drop_last());
        assert((a + b).last() == b.last());
        if !names.contains(line_property_name(b.last())) {
            assert(without_names(a, names) + without_names(b.drop_last(), names).push(b.last()) =~= (
            without_names(a, names) + without_names(b.drop_last(), names)).push(b.last()));
        }
    }
}

proof fn lemma_without_names_absorb(lines: Seq<Seq<char>>, name: Seq<char>, names: Set<Seq<char>>)
    ensures
        without_names(without_property(lines, name), names) == without_names(lines, names.insert(name)),
    decreases lines.len(),
{
    if lines.len() > 0 {
        lemma_without_names_absorb(lines.drop_last(), name, names);
        let rest = without_property(lines.drop_last(), name);
        if line_property_name(lines.last()) != name {
            assert(rest.push(lines.last()).drop_last() =~= rest);
            assert(rest.push(lines.last()).last() == lines.last());
        }
    }
}

proof fn lemma_without_names_all(lines: Seq<Seq<char>>, names: Set<Seq<char>>)
    requires
        forall|n: Seq<char>| #[trigger] names.contains(n),
    ensures
        without_names(lines, names) == Seq::<Seq<char>>::empty(),
    decreases lines.len(),
{
    if lines.len() > 0 {
        assert(names.contains(line_property_name(lines.last())));
        lemma_without_names_all(lines.drop_last(), names);
    }
}

/// Setting property `name` leaves every line of the properties outside
/// `names` where it was, when `name` is one of `names`.
pub proof fn lemma_set_keeps_unnamed(
    lines: Seq<Seq<char>>,
    name: Seq<char>,
    new_line: Option<Seq<char>>,
    names: Set<Seq<char>>,
)
    requires
        names.contains(name),
        new_line matches Some(l) ==> line_property_name(l) == name,
    ensures
        without_names(property_set(lines, name, new_line), names) == without_names(lines, names),
{
    let kept = without_property(lines, name);
    lemma_without_names_absorb(lines, name, names);
    assert(names.insert(name) =~= names);
    if let Some(l) = new_line {
        let pos = match last_end_line(kept) {
            Some(i) => i,
            None => kept.len() as int,
        };
        lemma_last_end_line_bound(kept);
        assert(kept.insert(pos, l) =~= kept.take(pos) + seq![l] + kept.skip(pos));
        lemma_without_names_append(kept.take(pos) + seq![l], kept.skip(pos), names);
        lemma_without_names_append(kept.take(pos), seq![l], names);
        lemma_without_names_append(kept.take(pos), kept.skip(pos), names);
        assert(seq![l].drop_last() =~= Seq::<Seq<char>>::empty());
        assert(seq![l].last() == l);
        assert(without_names(seq![l].drop_last(), names) =~= Seq::<Seq<char>>::empty());
        assert(without_names(seq![l], names) =~= Seq::<Seq<char>>::empty());
        assert(kept.take(pos) + kept.skip(pos) =~= kept);
        assert(without_names(kept.take(pos), names) + Seq::<Seq<char>>::empty() =~= without_names(
            kept.take(pos),
            names,
        ));
    }
}

/// Setting property `name`: its lines become exactly the new line (none when
/// it is removed), and the lines of every other property stay as they were.
pub proof fn lemma_set_property_lines(lines: Seq<Seq<char>>, name: Seq<char>, new_line: Option<Seq<char>>)
    requires
        new_line matches Some(l) ==> line_property_name(l) == name,
    ensures
        lines_named(property_set(lines, name, new_line), name) == set_lines(new_line),
        forall|n: Seq<char>|
            n != name ==> #[trigger] lines_named(property_set(lines, name, new_line), n) == lines_named(lines, n),
{
    let result = property_set(lines, name, new_line);
    assert forall|n: Seq<char>| n != name implies #[trigger] lines_named(result, n) == lines_named(lines, n) by {
        lemma_set_keeps_unnamed(lines, name, new_line, all_but(n));
    }
    let others = all_but(name);
    let kept = without_property(lines, name);
    lemma_without_names_absorb(lines, name, others);
    assert forall|n: Seq<char>| #[trigger] others.insert(name).contains(n) by {
        if n != name {
            assert(others.contains(n));
        }
    }
    lemma_without_names_all(lines, others.insert(name));
    match new_line {
        None => {
            assert(result == kept);
            assert(without_names(kept, others) =~= Seq::<Seq<char>>::empty());
        },
        Some(l) => {
            let pos = match last_end_line(kept) {
                Some(i) => i,
                None => kept.len() as int,
            };
            lemma_last_end_line_bound(kept);
            assert(kept.insert(pos, l) =~= kept.take(pos) + seq![l] + kept.skip(pos));
            lemma_without_names_append(kept.take(pos) + seq![l], kept.skip(pos), others);
            lemma_without_names_append(kept.take(pos), seq![l], others);
            lemma_without_names_append(kept.take(pos), kept.skip(pos), others);
            assert(kept.take(pos) + kept.skip(pos) =~= kept);
            assert(seq![l].drop_last() =~= Seq::<Seq<char>>::empty());
            assert(seq![l].last() == l);
            assert(!others.contains(name));
            assert(without_names(seq![l].drop_last(), others) =~= Seq::<Seq<char>>::empty());
            assert(without_names(seq![l], others) =~= seq![l]);
            assert(without_names(kept.take(pos), others).len() == 0);
            assert(without_names(kept.skip(pos), others).len() == 0);
            assert(without_names(result, others) =~= seq![l]);
        },
    }
}


/// `name`, when a value for it is given.
pub open spec fn named_if<T>(name: Seq<char>, value: Option<T>) -> Set<Seq<char>> {
    if value is Some { Set::empty().insert(name) } else { Set::empty() }
}

/// Setting a text property when a value is given: what it does to the lines
/// of that property and of the others.
pub proof fn lemma_with_text_lines(lines: Seq<Seq<char>>, name: Seq<char>, value: Option<Seq<char>>, names: Set<Seq<char>>)
    requires
        plain_name(name),
        value is Some ==> names.contains(name),
    ensures
        without_names(with_text(lines, name, value), names) == without_names(lines, names),
        value matches Some(v) ==> lines_named(with_text(lines, name, value), name) == seq![text_line(name, v)],
        forall|n: Seq<char>| n != name ==> #[trigger] lines_named(with_text(lines, name, value), n) == lines_named(lines, n),
{
    if let Some(v) = value {
        lemma_line_name(name, ':', escaped(v));
        lemma_set_keeps_unnamed(lines, name, Some(text_line(name, v)), names);
        lemma_set_property_lines(lines, name, Some(text_line(name, v)));
    }
}

/// Setting a date/time property when an input is given and parses: what it
/// does to the lines of that property and of the others.
pub proof fn lemma_with_dt_lines(
    lines: Seq<Seq<char>>,
    name: Seq<char>,
    iso: Option<Seq<char>>,
    names: Set<Seq<char>>,
    result: Seq<Seq<char>>,
)
    requires
        plain_name(name),
        iso is Some ==> names.contains(name),
        with_dt(lines, name, iso) == Ok::<Seq<Seq<char>>, Seq<char>>(result),
    ensures
        without_names(result, names) == without_names(lines, names),
        iso matches Some(t) ==> (dt_property_result(name, t) matches Ok(p) && lines_named(result, name) == seq![p]),
        forall|n: Seq<char>| n != name ==> #[trigger] lines_named(result, n) == lines_named(lines, n),
{
    if let Some(t) = iso {
        lemma_dt_line_name(name, t);
        if let Ok(p) = dt_property_result(name, t) {
            lemma_set_keeps_unnamed(lines, name, Some(p), names);
            lemma_set_property_lines(lines, name, Some(p));
        }
    }
}


/// An all-day date given as `YYYY-MM-DD` is written as a `VALUE=DATE`
/// property whose value a listing shows as that same `YYYY-MM-DD`.
pub proof fn law_all_day_date_round_trip(name: Seq<char>, y: int, m: int, d: int)
    requires
        is_valid_date(y, m, d),
        0 <= y <= 9999,
    ensures
        dt_property_result(name, iso_date_text(y, m, d)) == Ok::<Seq<char>, Seq<char>>(
            name + ";VALUE=DATE:"@ + date_digits(days_since_epoch(y, m, d) * 86400),
        ),
        display_dt(date_digits(days_since_epoch(y, m, d) * 86400), true) == iso_date_text(y, m, d),
{
    law_iso_date_round_trip(y, m, d);
    lemma_decimal(y as nat);
    lemma_decimal(m as nat);
    lemma_decimal(d as nat);
    lemma_padded_digits(y, 4);
    lemma_padded_digits(m, 2);
    lemma_padded_digits(d, 2);
    let py = padded(y, 4);
    let pm = padded(m, 2);
    let pd = padded(d, 2);
    let raw = py + pm + pd;
    assert(all_digits(raw)) by {
        assert forall|i: int| 0 <= i < raw.len() implies is_ascii_digit(#[trigger] raw[i]) by {
            if i < 4 {
                assert(raw[i] == py[i]);
            } else if i < 6 {
                assert(raw[i] == pm[i - 4]);
            } else {
                assert(raw[i] == pd[i - 6]);
            }
        }
    }
    lemma_digits_of_digits(raw);
    assert(raw.subrange(0, 4) =~= py);
    assert(raw.subrange(4, 6) =~= pm);
    assert(raw.subrange(6, 8) =~= pd);
    assert(dashed_date(raw) =~= iso_date_text(y, m, d));
}


/// A time given as `YYYY-MM-DDTHH:MM:SSZ` is written as a UTC `make-time`
/// value that a listing shows as that date and minute, marked UTC.
pub proof fn law_timed_round_trip(name: Seq<char>, y: int, m: int, d: int, h: int, mi: int, se: int)
    requires
        is_valid_date(y, m, d),
        0 <= y <= 9999,
        0 <= h < 24,
        0 <= mi < 60,
        0 <= se < 60,
    ensures
        ({
            let secs = days_since_epoch(y, m, d) * 86400 + h * 3600 + mi * 60 + se;
            &&& dt_property_result(name, iso_instant_text(y, m, d, h, mi, se)) == Ok::<Seq<char>, Seq<char>>(
                name + seq![':'] + make_time_text(secs),
            )
            &&& display_dt(make_time_text(secs), false) == iso_date_text(y, m, d) + seq![' '] + padded(h, 2)
                + seq![':'] + padded(mi, 2) + " UTC"@
        }),
{
    law_iso_instant_round_trip(y, m, d, h, mi, se);
    lemma_decimal(y as nat);
    lemma_decimal(m as nat);
    lemma_decimal(d as nat);
    lemma_decimal(h as nat);
    lemma_decimal(mi as nat);
    lemma_decimal(se as nat);
    lemma_padded_digits(y, 4);
    lemma_padded_digits(m, 2);
    lemma_padded_digits(d, 2);
    lemma_padded_digits(h, 2);
    lemma_padded_digits(mi, 2);
    lemma_padded_digits(se, 2);
    let a = padded(y, 4) + padded(m, 2) + padded(d, 2);
    let b = padded(h, 2) + padded(mi, 2) + padded(se, 2);
    lemma_digits_all3(padded(y, 4), padded(m, 2), padded(d, 2));
    lemma_digits_all3(padded(h, 2), padded(mi, 2), padded(se, 2));
    let raw = a + seq!['T'] + b + seq!['Z'];
    let secs = days_since_epoch(y, m, d) * 86400 + h * 3600 + mi * 60 + se;
    assert(make_time_text(secs) =~= raw);
    lemma_digits_of_digits(a);
    lemma_digits_of_digits(b);
    assert((a + seq!['T']).drop_last() =~= a);
    assert(digits_of(a + seq!['T']) == a);
    lemma_digits_of_append(a + seq!['T'], b);
    assert(raw.drop_last() =~= a + seq!['T'] + b);
    assert(digits_of(raw) == digits_of(a + seq!['T'] + b));
    let dg = a + b;
    assert(digits_of(raw) =~= dg);
    assert(raw[a.len() as int] == 'T');
    assert(has_char(raw, 'T'));
    assert(raw.last() == 'Z');
    assert(dg.subrange(0, 4) =~= padded(y, 4));
    assert(dg.subrange(4, 6) =~= padded(m, 2));
    assert(dg.subrange(6, 8) =~= padded(d, 2));
    assert(dg.subrange(8, 10) =~= padded(h, 2));
    assert(dg.subrange(10, 12) =~= padded(mi, 2));
    assert(dashed_date(dg) =~= iso_date_text(y, m, d));
}

proof fn lemma_digits_all3(p: Seq<char>, q: Seq<char>, r: Seq<char>)
    requires
        all_digits(p),
        all_digits(q),
        all_digits(r),
    ensures
        all_digits(p + q + r),
{
    let s = p + q + r;
    assert forall|i: int| 0 <= i < s.len() implies is_ascii_digit(#[trigger] s[i]) by {
        if i < p.len() {
            assert(s[i] == p[i]);
        } else if i < p.len() + q.len() {
            assert(s[i] == q[i - p.len()]);
        } else {
            assert(s[i] == r[i - p.len() - q.len()]);
        }
    }
}


/// The raw lines of lines joined with CRLF: each but the last keeps its
/// carriage return.
pub open spec fn crlf_raws(lines: Seq<Seq<char>>) -> Seq<Seq<char>> {
    Seq::new(lines.len(), |i: int| if i < lines.len() - 1 { lines[i].push('\r') } else { lines[i] })
}

proof fn lemma_split_joined(lines: Seq<Seq<char>>)
    requires
        lines.len() >= 1,
        forall|i: int| 0 <= i < lines.len() ==> !has_char(#[trigger] lines[i], '\n'),
    ensures
        split_on(joined(lines, "\r\n"@), '\n') == crlf_raws(lines),
    decreases lines.len(),
{
    reveal_strlit("\r\n");
    if lines.len() == 1 {
        lemma_split_on_none(lines[0], '\n');
        assert(crlf_raws(lines) =~= seq![lines[0]]);
    } else {
        let t = lines.drop_last();
        assert forall|i: int| 0 <= i < t.len() implies !has_char(#[trigger] t[i], '\n') by {
            assert(t[i] == lines[i]);
        }
        lemma_split_joined(t);
        let x = joined(t, "\r\n"@);
        let last = lines.last();
        assert(joined(lines, "\r\n"@) =~= (x + seq!['\r']) + seq!['\n'] + last);
        assert(!has_char(last, '\n'));
        lemma_split_on_append(x + seq!['\r'], '\n', last);
        assert((x + seq!['\r']).drop_last() =~= x);
        assert((x + seq!['\r']).last() == '\r');
        let rest = split_on(x, '\n');
        assert(rest == crlf_raws(t));
        assert(rest.last() == t.last());
        assert(split_on(x + seq!['\r'], '\n') == rest.update(rest.len() - 1, rest.last().push('\r')));
        assert(rest.update(rest.len() - 1, rest.last().push('\r')).push(last) =~= crlf_raws(lines));
    }
}

proof fn lemma_unfold_plain(raws: Seq<Seq<char>>)
    requires
        forall|i: int| 0 <= i < raws.len() ==> !is_continuation(strip_cr(#[trigger] raws[i])),
    ensures
        unfold_lines(raws) == raws.map_values(|r: Seq<char>| strip_cr(r)),
    decreases raws.len(),
{
    if raws.len() > 0 {
        let t = raws.drop_last();
        assert forall|i: int| 0 <= i < t.len() implies !is_continuation(strip_cr(#[trigger] t[i])) by {
            assert(t[i] == raws[i]);
        }
        lemma_unfold_plain(t);
        assert(!is_continuation(strip_cr(raws[raws.len() - 1])));
        assert(t.map_values(|r: Seq<char>| strip_cr(r)).push(strip_cr(raws.last())) =~= raws.map_values(
            |r: Seq<char>| strip_cr(r),
        ));
    }
}

/// Lines with no line break or carriage return in them, none of which starts
/// like a continuation, joined with CRLF, unfold back to the same lines.
pub proof fn law_unfold_joined(lines: Seq<Seq<char>>)
    requires
        lines.len() >= 1,
        forall|i: int|
            0 <= i < lines.len() ==> !has_char(#[trigger] lines[i], '\n') && !has_char(lines[i], '\r')
                && !is_continuation(lines[i]),
    ensures
        unfold_text(joined(lines, "\r\n"@)) == lines,
{
    lemma_split_joined(lines);
    let raws = crlf_raws(lines);
    assert forall|i: int| 0 <= i < raws.len() implies strip_cr(#[trigger] raws[i]) == lines[i] by {
        if lines[i].len() > 0 && lines[i].last() == '\r' {
            assert(has_char(lines[i], '\r'));
        }
        if i < raws.len() - 1 {
            assert(lines[i].push('\r').drop_last() =~= lines[i]);
        }
    }
    lemma_unfold_plain(raws);
    assert(raws.map_values(|r: Seq<char>| strip_cr(r)) =~= lines);
}


/// The sort key of a `make-time` value is its fourteen digits,
/// `YYYYMMDDHHMMSS`, worth the date and time read as one number.
proof fn lemma_make_time_key(secs: int)
    requires
        0 <= civil_of_days(day_of(secs)).0 <= 9999,
    ensures
        ({
            let (y, m, d) = civil_of_days(day_of(secs));
            let r = second_of_day(secs);
            let key = sort_key_of(Some(make_time_text(secs)));
            &&& all_digits(key)
            &&& key.len() == 14
            &&& digits_value(key) == (y * 10000 + m * 100 + d) * 1000000 + (r / 3600) * 10000 + ((r % 3600) / 60)
                * 100 + r % 60
        }),
{
    let z = day_of(secs);
    let (y, m, d) = civil_of_days(z);
    law_civil_of_days_round_trip(z);
    let r = second_of_day(secs);
    let h = r / 3600;
    let mi = (r % 3600) / 60;
    let se = r % 60;
    assert(0 <= r < 86400);
    assert(0 <= h < 24 && 0 <= mi < 60 && 0 <= se < 60);
    assert(1 <= d <= 31);
    lemma_decimal(y as nat);
    lemma_decimal(m as nat);
    lemma_decimal(d as nat);
    lemma_decimal(h as nat);
    lemma_decimal(mi as nat);
    lemma_decimal(se as nat);
    lemma_padded_digits(y, 4);
    lemma_padded_digits(m, 2);
    lemma_padded_digits(d, 2);
    lemma_padded_digits(h, 2);
    lemma_padded_digits(mi, 2);
    lemma_padded_digits(se, 2);
    let py = padded(y, 4);
    let pm = padded(m, 2);
    let pd = padded(d, 2);
    let ph = padded(h, 2);
    let pi = padded(mi, 2);
    let ps = padded(se, 2);
    let a = py + pm + pd;
    let b = ph + pi + ps;
    lemma_digits_all3(py, pm, pd);
    lemma_digits_all3(ph, pi, ps);
    let raw = a + seq!['T'] + b + seq!['Z'];
    assert(make_time_text(secs) =~= raw);
    lemma_digits_of_digits(a);
    lemma_digits_of_digits(b);
    assert((a + seq!['T']).drop_last() =~= a);
    assert(digits_of(a + seq!['T']) == a);
    lemma_digits_of_append(a + seq!['T'], b);
    assert(raw.drop_last() =~= a + seq!['T'] + b);
    let key = a + b;
    assert(digits_of(raw) =~= key);
    assert(zeros(0) =~= Seq::<char>::empty());
    assert(sort_key_of(Some(make_time_text(secs))) =~= key);
    lemma_digits_all3(a, ph, pi + ps);
    assert(key =~= a + ph + (pi + ps));
    lemma_digits_value_two_more(py, pm);
    lemma_digits_value_two_more(py + pm, pd);
    lemma_digits_value_two_more(a, ph);
    lemma_digits_value_two_more(a + ph, pi);
    lemma_digits_value_two_more(a + ph + pi, ps);
    assert(key =~= a + ph + pi + ps);
}

/// Among `make-time` values, earlier instants get smaller sort keys.
pub proof fn law_sort_keys_follow_time(s1: int, s2: int)
    requires
        s1 < s2,
        0 <= civil_of_days(day_of(s1)).0 <= 9999,
        0 <= civil_of_days(day_of(s2)).0 <= 9999,
    ensures
        text_lt(sort_key_of(Some(make_time_text(s1))), sort_key_of(Some(make_time_text(s2)))),
{
    lemma_make_time_key(s1);
    lemma_make_time_key(s2);
    let z1 = day_of(s1);
    let z2 = day_of(s2);
    let (y1, m1, d1) = civil_of_days(z1);
    let (y2, m2, d2) = civil_of_days(z2);
    law_civil_of_days_round_trip(z1);
    law_civil_of_days_round_trip(z2);
    let r1 = second_of_day(s1);
    let r2 = second_of_day(s2);
    assert(s1 == z1 * 86400 + r1 && 0 <= r1 < 86400) by (nonlinear_arith)
        requires
            z1 == s1 / 86400,
            r1 == s1 % 86400,
    ;
    assert(s2 == z2 * 86400 + r2 && 0 <= r2 < 86400) by (nonlinear_arith)
        requires
            z2 == s2 / 86400,
            r2 == s2 % 86400,
    ;
    assert(z1 <= z2) by (nonlinear_arith)
        requires
            s1 == z1 * 86400 + r1,
            0 <= r1 < 86400,
            s2 == z2 * 86400 + r2,
            0 <= r2 < 86400,
            s1 < s2,
    ;
    let t1 = (r1 / 3600) * 10000 + ((r1 % 3600) / 60) * 100 + r1 % 60;
    let t2 = (r2 / 3600) * 10000 + ((r2 % 3600) / 60) * 100 + r2 % 60;
    assert(0 <= t1 < 1000000 && 0 <= t2 < 1000000) by (nonlinear_arith)
        requires
            0 <= r1 < 86400,
            0 <= r2 < 86400,
            t1 == (r1 / 3600) * 10000 + ((r1 % 3600) / 60) * 100 + r1 % 60,
            t2 == (r2 / 3600) * 10000 + ((r2 % 3600) / 60) * 100 + r2 % 60,
    ;
    let e1 = y1 * 10000 + m1 * 100 + d1;
    let e2 = y2 * 10000 + m2 * 100 + d2;
    if z1 == z2 {
        assert(r1 < r2);
        assert(t1 < t2) by (nonlinear_arith)
            requires
                0 <= r1 < r2 < 86400,
                t1 == (r1 / 3600) * 10000 + ((r1 % 3600) / 60) * 100 + r1 % 60,
                t2 == (r2 / 3600) * 10000 + ((r2 % 3600) / 60) * 100 + r2 % 60,
        ;
    } else {
        if !date_before(y1, m1, d1, y2, m2, d2) {
            if y1 == y2 && m1 == m2 && d1 == d2 {
                assert(z1 == z2);
            } else {
                lemma_days_increase(y2, m2, d2, y1, m1, d1);
            }
        }
        assert(1 <= m1 <= 12 && 1 <= d1 <= 31 && 1 <= m2 <= 12 && 1 <= d2 <= 31);
        assert(e1 < e2);
    }
    assert(e1 * 1000000 + t1 < e2 * 1000000 + t2) by (nonlinear_arith)
        requires
            e1 <= e2,
            e1 == e2 ==> t1 < t2,
            0 <= t1 < 1000000,
            0 <= t2 < 1000000,
    ;
    lemma_digits_order(sort_key_of(Some(make_time_text(s1))), sort_key_of(Some(make_time_text(s2))));
}


/// The lines of `blocks`, each wrapped in a `begin` and an `end` line, one
/// after the other.
pub open spec fn wrapped_blocks(blocks: Seq<Seq<Seq<char>>>, begin: Seq<char>, end: Seq<char>) -> Seq<Seq<char>>
    decreases blocks.len(),
{
    if blocks.len() == 0 {
        Seq::empty()
    } else {
        wrapped_blocks(blocks.drop_last(), begin, end) + seq![begin] + blocks.last() + seq![end]
    }
}

/// A line that neither opens nor closes a block.
pub open spec fn neutral_line(line: Seq<char>, begin: Seq<char>, end: Seq<char>) -> bool {
    !eq_ignore_ascii_case(trim(line), begin) && !eq_ignore_ascii_case(trim(line), end)
}

proof fn lemma_scan_start(lines: Seq<Seq<char>>, begin: Seq<char>, end: Seq<char>, i: int)
    requires
        0 <= i,
    ensures
        component_scan(lines, begin, end, i).0 matches Some(s) ==> 1 <= s <= i,
    decreases i,
{
    if i > 0 {
        lemma_scan_start(lines, begin, end, i - 1);
    }
}

proof fn lemma_scan_prefix(a: Seq<Seq<char>>, b: Seq<Seq<char>>, begin: Seq<char>, end: Seq<char>, i: int)
    requires
        0 <= i <= a.len(),
    ensures
        component_scan(a + b, begin, end, i) == component_scan(a, begin, end, i),
    decreases i,
{
    if i > 0 {
        lemma_scan_prefix(a, b, begin, end, i - 1);
        lemma_scan_start(a, begin, end, i - 1);
        assert((a + b)[i - 1] == a[i - 1]);
        if let Some(s) = component_scan(a, begin, end, i - 1).0 {
            assert((a + b).subrange(s, i - 1) =~= a.subrange(s, i - 1));
        }
    }
}

proof fn lemma_scan_inner(
    lines: Seq<Seq<char>>,
    begin: Seq<char>,
    end: Seq<char>,
    base: int,
    k: int,
    out: Seq<Seq<Seq<char>>>,
)
    requires
        0 <= k,
        0 <= base,
        base + k <= lines.len(),
        component_scan(lines, begin, end, base) == (Some(base), out),
        forall|j: int| base <= j < base + k ==> neutral_line(#[trigger] lines[j], begin, end),
    ensures
        component_scan(lines, begin, end, base + k) == (Some(base), out),
    decreases k,
{
    if k > 0 {
        lemma_scan_inner(lines, begin, end, base, k - 1, out);
        assert(neutral_line(lines[base + k - 1], begin, end));
    }
}

/// Scanning a closed block after any lines adds its inner lines as one more
/// component.
proof fn lemma_scan_block(p: Seq<Seq<char>>, a: Seq<Seq<char>>, begin: Seq<char>, end: Seq<char>)
    requires
        trim(begin) == begin,
        trim(end) == end,
        !eq_ignore_ascii_case(end, begin),
        forall|j: int| 0 <= j < a.len() ==> neutral_line(#[trigger] a[j], begin, end),
    ensures
        component_scan(p + seq![begin] + a + seq![end], begin, end, (p.len() + a.len() + 2) as int) == (
            None::<int>,
            component_scan(p, begin, end, p.len() as int).1.push(a),
        ),
{
    let lines = p + seq![begin] + a + seq![end];
    let n = p.len() as int;
    let out = component_scan(p, begin, end, n).1;
    assert(lines =~= p + (seq![begin] + a + seq![end]));
    lemma_scan_prefix(p, seq![begin] + a + seq![end], begin, end, n);
    assert(lines[n] == begin);
    assert(eq_ignore_ascii_case(begin, begin));
    assert(component_scan(lines, begin, end, n + 1) == (Some(n + 1), out));
    assert forall|j: int| n + 1 <= j < n + 1 + a.len() implies neutral_line(#[trigger] lines[j], begin, end) by {
        assert(lines[j] == a[j - n - 1]);
    }
    lemma_scan_inner(lines, begin, end, n + 1, a.len() as int, out);
    assert(lines[n + 1 + a.len()] == end);
    assert(eq_ignore_ascii_case(end, end));
    assert(lines.subrange(n + 1, n + 1 + a.len()) =~= a);
}

proof fn lemma_scan_wrapped(blocks: Seq<Seq<Seq<char>>>, begin: Seq<char>, end: Seq<char>)
    requires
        trim(begin) == begin,
        trim(end) == end,
        !eq_ignore_ascii_case(end, begin),
        forall|k: int, j: int|
            0 <= k < blocks.len() && 0 <= j < blocks[k].len() ==> neutral_line(#[trigger] blocks[k][j], begin, end),
    ensures
        component_scan(
            wrapped_blocks(blocks, begin, end),
            begin,
            end,
            wrapped_blocks(blocks, begin, end).len() as int,
        ) == (None::<int>, blocks),
    decreases blocks.len(),
{
    if blocks.len() == 0 {
        assert(Seq::<Seq<Seq<char>>>::empty() =~= blocks);
    } else {
        let t = blocks.drop_last();
        assert forall|k: int, j: int| 0 <= k < t.len() && 0 <= j < t[k].len() implies neutral_line(
            #[trigger] t[k][j],
            begin,
            end,
        ) by {
            assert(t[k] == blocks[k]);
        }
        lemma_scan_wrapped(t, begin, end);
        let last = blocks.last();
        assert forall|j: int| 0 <= j < last.len() implies neutral_line(#[trigger] last[j], begin, end) by {
            assert(blocks[blocks.len() - 1][j] == last[j]);
        }
        lemma_scan_block(wrapped_blocks(t, begin, end), last, begin, end);
        assert(t.push(last) =~= blocks);
    }
}

proof fn lemma_wrapped_lines(blocks: Seq<Seq<Seq<char>>>, begin: Seq<char>, end: Seq<char>, i: int)
    requires
        0 <= i < wrapped_blocks(blocks, begin, end).len(),
    ensures
        ({
            let l = wrapped_blocks(blocks, begin, end)[i];
            l == begin || l == end || exists|k: int, j: int|
                0 <= k < blocks.len() && 0 <= j < blocks[k].len() && l == #[trigger] blocks[k][j]
        }),
    decreases blocks.len(),
{
    let t = blocks.drop_last();
    let w = wrapped_blocks(t, begin, end);
    let last = blocks.last();
    let all = wrapped_blocks(blocks, begin, end);
    if i < w.len() {
        assert(all[i] == w[i]);
        lemma_wrapped_lines(t, begin, end, i);
        if all[i] != begin && all[i] != end {
            let (k, j) = choose|k: int, j: int| 0 <= k < t.len() && 0 <= j < t[k].len() && w[i] == #[trigger] t[k][j];
            assert(blocks[k] == t[k]);
            assert(all[i] == blocks[k][j]);
        }
    } else if i == w.len() {
    } else if i < w.len() + 1 + last.len() {
        assert(all[i] == last[i - w.len() - 1]);
        assert(all[i] == blocks[blocks.len() - 1][i - w.len() - 1]);
    }
}

/// Each closed `BEGIN:{kind}` … `END:{kind}` block of a reply gives one
/// component, in order: a reply made of blocks, one after the other, gives
/// back exactly the inner lines of every block.
pub proof fn law_components_of_blocks(blocks: Seq<Seq<Seq<char>>>, kind: Seq<char>)
    requires
        blocks.len() >= 1,
        trim("BEGIN:"@ + kind) == "BEGIN:"@ + kind,
        trim("END:"@ + kind) == "END:"@ + kind,
        !has_char(kind, '\n'),
        !has_char(kind, '\r'),
        forall|k: int, j: int|
            0 <= k < blocks.len() && 0 <= j < blocks[k].len() ==> {
                let l = #[trigger] blocks[k][j];
                &&& !has_char(l, '\n')
                &&& !has_char(l, '\r')
                &&& !is_continuation(l)
                &&& neutral_line(l, "BEGIN:"@ + kind, "END:"@ + kind)
            },
    ensures
        components_of(joined(wrapped_blocks(blocks, "BEGIN:"@ + kind, "END:"@ + kind), "\r\n"@), kind) == blocks,
{
    reveal_strlit("BEGIN:");
    reveal_strlit("END:");
    let begin = "BEGIN:"@ + kind;
    let end = "END:"@ + kind;
    let w = wrapped_blocks(blocks, begin, end);
    assert(begin.len() != end.len());
    assert(!has_char(begin, '\n') && !has_char(begin, '\r') && !has_char(end, '\n') && !has_char(end, '\r')) by {
        if has_char(begin, '\n') || has_char(begin, '\r') {
            let i = choose|i: int| 0 <= i < begin.len() && (begin[i] == '\n' || begin[i] == '\r');
            if i >= 6 {
                assert(begin[i] == kind[i - 6]);
            }
        }
        if has_char(end, '\n') || has_char(end, '\r') {
            let i = choose|i: int| 0 <= i < end.len() && (end[i] == '\n' || end[i] == '\r');
            if i >= 4 {
                assert(end[i] == kind[i - 4]);
            }
        }
    }
    assert forall|k: int, j: int| 0 <= k < blocks.len() && 0 <= j < blocks[k].len() implies neutral_line(
        #[trigger] blocks[k][j],
        begin,
        end,
    ) by {}
    lemma_scan_wrapped(blocks, begin, end);
    assert(w.len() >= 1) by {
        assert(w == wrapped_blocks(blocks.drop_last(), begin, end) + seq![begin] + blocks.last() + seq![end]);
    }
    assert forall|i: int| 0 <= i < w.len() implies !has_char(#[trigger] w[i], '\n') && !has_char(w[i], '\r')
        && !is_continuation(w[i]) by {
        lemma_wrapped_lines(blocks, begin, end, i);
        if w[i] != begin && w[i] != end {
            let (k, j) = choose|k: int, j: int|
                0 <= k < blocks.len() && 0 <= j < blocks[k].len() && w[i] == #[trigger] blocks[k][j];
        }
    }
    law_unfold_joined(w);
}

} // verus!
