//! Character-level building blocks shared by every text-producing module:
//! the specifications of the standard string operations the library uses,
//! and verified implementations of them over character vectors.

use vstd::prelude::*;
use vstd::string::StringExecFns;

verus! {

broadcast use vstd::seq_lib::group_seq_properties;

/// Appends one character to a `String` (`String::push`).
#[verifier::external_body]
pub(crate) fn push_char(s: &mut String, c: char)
    ensures
        final(s)@ == old(s)@.push(c),
{
    s.push(c);
}

/// Appends a string slice.
pub fn push_str(s: &mut String, t: &str)
    ensures
        final(s)@ == old(s)@ + t@,
{
    s.append(t);
}

/// The characters of `s`, in order.
pub fn chars_of(s: &str) -> (v: Vec<char>)
    ensures
        v@ == s@,
{
    let mut v: Vec<char> = Vec::new();
    for c in it: s.chars()
        invariant
            v@ == it.seq().take(it.index() as int),
    {
        v.push(c);
    }
    v
}

/// Appends a run of characters.
pub fn push_chars(s: &mut String, v: &[char])
    ensures
        final(s)@ == old(s)@ + v@,
{
    let ghost start = s@;
    let mut i: usize = 0;
    while i < v.len()
        invariant
            i <= v.len(),
            s@ == start + v@.take(i as int),
        decreases v.len() - i,
    {
        push_char(s, v[i]);
        assert(v@.take(i as int).push(v@[i as int]) == v@.take(i + 1));
        i = i + 1;
    }
    assert(v@.take(v.len() as int) == v@);
}

/// A `String` holding exactly the characters of `v`.
pub fn string_of(v: &[char]) -> (s: String)
    ensures
        s@ == v@,
{
    let mut s = String::new();
    push_chars(&mut s, v);
    s
}

/// `v[lo..hi]` as a new vector.
pub fn slice_of(v: &[char], lo: usize, hi: usize) -> (r: Vec<char>)
    requires
        lo <= hi <= v.len(),
    ensures
        r@ == v@.subrange(lo as int, hi as int),
{
    let mut r: Vec<char> = Vec::new();
    let mut i = lo;
    while i < hi
        invariant
            lo <= i <= hi <= v.len(),
            r@ == v@.subrange(lo as int, i as int),
        decreases hi - i,
    {
        r.push(v[i]);
        i = i + 1;
    }
    r
}

/// Character-wise equality.
pub fn chars_eq(a: &[char], b: &[char]) -> (r: bool)
    ensures
        r == (a@ == b@),
{
    if a.len() != b.len() {
        return false;
    }
    let mut i: usize = 0;
    while i < a.len()
        invariant
            a.len() == b.len(),
            i <= a.len(),
            forall|j: int| 0 <= j < i ==> a@[j] == b@[j],
        decreases a.len() - i,
    {
        if a[i] != b[i] {
            return false;
        }
        i = i + 1;
    }
    assert(a@ =~= b@);
    true
}

// ---------------------------------------------------------------------------
// Character classes
// ---------------------------------------------------------------------------

/// `char::is_whitespace`: the Unicode `White_Space` property.
pub open spec fn is_white_space(c: char) -> bool {
    ||| ('\u{9}' <= c && c <= '\u{d}')
    ||| c == ' '
    ||| c == '\u{85}'
    ||| c == '\u{a0}'
    ||| c == '\u{1680}'
    ||| ('\u{2000}' <= c && c <= '\u{200a}')
    ||| c == '\u{2028}'
    ||| c == '\u{2029}'
    ||| c == '\u{202f}'
    ||| c == '\u{205f}'
    ||| c == '\u{3000}'
}

pub fn is_white_space_exec(c: char) -> (r: bool)
    ensures
        r == is_white_space(c),
{
    ('\u{9}' <= c && c <= '\u{d}') || c == ' ' || c == '\u{85}' || c == '\u{a0}'
        || c == '\u{1680}' || ('\u{2000}' <= c && c <= '\u{200a}') || c == '\u{2028}'
        || c == '\u{2029}' || c == '\u{202f}' || c == '\u{205f}' || c == '\u{3000}'
}

pub open spec fn is_ascii_digit(c: char) -> bool {
    '0' <= c && c <= '9'
}

pub open spec fn is_ascii_alphanumeric(c: char) -> bool {
    ||| is_ascii_digit(c)
    ||| ('a' <= c && c <= 'z')
    ||| ('A' <= c && c <= 'Z')
}

/// `char::to_ascii_uppercase`.
pub open spec fn ascii_upper(c: char) -> char {
    if 'a' <= c && c <= 'z' { ((c as u32) - 32) as char } else { c }
}

/// `char::to_ascii_lowercase`.
pub open spec fn ascii_lower(c: char) -> char {
    if 'A' <= c && c <= 'Z' { ((c as u32) + 32) as char } else { c }
}

pub fn ascii_upper_exec(c: char) -> (r: char)
    ensures
        r == ascii_upper(c),
{
    if 'a' <= c && c <= 'z' {
        ((c as u8) - 32) as char
    } else {
        c
    }
}

pub fn ascii_lower_exec(c: char) -> (r: char)
    ensures
        r == ascii_lower(c),
{
    if 'A' <= c && c <= 'Z' {
        ((c as u8) + 32) as char
    } else {
        c
    }
}

/// `str::to_ascii_uppercase`, character by character.
pub open spec fn upper_seq(s: Seq<char>) -> Seq<char> {
    s.map_values(|c: char| ascii_upper(c))
}

pub fn upper_chars(v: &[char]) -> (r: Vec<char>)
    ensures
        r@ == upper_seq(v@),
{
    let mut r: Vec<char> = Vec::new();
    let mut i: usize = 0;
    while i < v.len()
        invariant
            i <= v.len(),
            r@ == upper_seq(v@.take(i as int)),
        decreases v.len() - i,
    {
        r.push(ascii_upper_exec(v[i]));
        assert(upper_seq(v@.take(i + 1)) == upper_seq(v@.take(i as int)).push(ascii_upper(v@[i as int])));
        i = i + 1;
    }
    assert(v@.take(v.len() as int) == v@);
    r
}

/// `str::eq_ignore_ascii_case`.
pub open spec fn eq_ignore_ascii_case(a: Seq<char>, b: Seq<char>) -> bool {
    &&& a.len() == b.len()
    &&& forall|i: int| 0 <= i < a.len() ==> ascii_lower(#[trigger] a[i]) == ascii_lower(b[i])
}

pub fn eq_ignore_case_chars(a: &[char], b: &[char]) -> (r: bool)
    ensures
        r == eq_ignore_ascii_case(a@, b@),
{
    if a.len() != b.len() {
        return false;
    }
    let mut i: usize = 0;
    while i < a.len()
        invariant
            a.len() == b.len(),
            i <= a.len(),
            forall|j: int| 0 <= j < i ==> ascii_lower(#[trigger] a@[j]) == ascii_lower(b@[j]),
        decreases a.len() - i,
    {
        if ascii_lower_exec(a[i]) != ascii_lower_exec(b[i]) {
            return false;
        }
        i = i + 1;
    }
    true
}

// ---------------------------------------------------------------------------
// Searching
// ---------------------------------------------------------------------------

pub open spec fn has_char(s: Seq<char>, c: char) -> bool {
    exists|i: int| 0 <= i < s.len() && s[i] == c
}

pub fn has_char_exec(v: &[char], c: char) -> (r: bool)
    ensures
        r == has_char(v@, c),
{
    let mut i: usize = 0;
    while i < v.len()
        invariant
            i <= v.len(),
            forall|j: int| 0 <= j < i ==> v@[j] != c,
        decreases v.len() - i,
    {
        if v[i] == c {
            return true;
        }
        i = i + 1;
    }
    false
}

/// `s` holds `needle` as a contiguous run (`str::contains`).
pub open spec fn contains_seq(s: Seq<char>, needle: Seq<char>) -> bool {
    exists|i: int| 0 <= i <= s.len() - needle.len() && #[trigger] s.subrange(i, i + needle.len()) == needle
}

/// `needle` occurs in `v` starting at `at`.
pub fn matches_at(v: &[char], at: usize, needle: &[char]) -> (r: bool)
    requires
        at <= v.len(),
    ensures
        r == (at + needle.len() <= v.len() && v@.subrange(at as int, at + needle.len()) == needle@),
{
    if needle.len() > v.len() - at {
        return false;
    }
    let mut i: usize = 0;
    while i < needle.len()
        invariant
            at + needle.len() <= v.len(),
            i <= needle.len(),
            forall|j: int| 0 <= j < i ==> v@[at + j] == needle@[j],
        decreases needle.len() - i,
    {
        if v[at + i] != needle[i] {
            assert(v@.subrange(at as int, at + needle.len())[i as int] != needle@[i as int]);
            return false;
        }
        i = i + 1;
    }
    assert(v@.subrange(at as int, at + needle.len()) =~= needle@);
    true
}

pub fn contains_chars(v: &[char], needle: &[char]) -> (r: bool)
    ensures
        r == contains_seq(v@, needle@),
{
    if needle.len() > v.len() {
        return false;
    }
    let last = v.len() - needle.len();
    let mut i: usize = 0;
    loop
        invariant
            last == v.len() - needle.len(),
            i <= last,
            forall|j: int| 0 <= j < i ==> #[trigger] v@.subrange(j, j + needle.len()) != needle@,
        decreases last - i,
    {
        if matches_at(v, i, needle) {
            return true;
        }
        if i == last {
            return false;
        }
        i = i + 1;
    }
}

pub open spec fn starts_with(s: Seq<char>, p: Seq<char>) -> bool {
    p.len() <= s.len() && s.take(p.len() as int) == p
}

pub open spec fn ends_with(s: Seq<char>, p: Seq<char>) -> bool {
    p.len() <= s.len() && s.skip(s.len() - p.len()) == p
}

// ---------------------------------------------------------------------------
// Trimming and splitting
// ---------------------------------------------------------------------------

/// Length of the longest prefix of `s` made of white space.
pub open spec fn leading_ws(s: Seq<char>) -> nat
    decreases s.len(),
{
    if s.len() > 0 && is_white_space(s[0]) {
        1 + leading_ws(s.drop_first())
    } else {
        0
    }
}

/// Length of the longest suffix of `s` made of white space.
pub open spec fn trailing_ws(s: Seq<char>) -> nat
    decreases s.len(),
{
    if s.len() > 0 && is_white_space(s.last()) {
        1 + trailing_ws(s.drop_last())
    } else {
        0
    }
}

/// `str::trim`.
pub open spec fn trim(s: Seq<char>) -> Seq<char> {
    let t = s.skip(leading_ws(s) as int);
    t.take(t.len() - trailing_ws(t))
}

proof fn lemma_leading_ws(s: Seq<char>, i: int)
    requires
        0 <= i <= s.len(),
        forall|j: int| 0 <= j < i ==> is_white_space(#[trigger] s[j]),
        i == s.len() || !is_white_space(s[i]),
    ensures
        leading_ws(s) == i,
    decreases i,
{
    if i > 0 {
        lemma_leading_ws(s.drop_first(), i - 1);
    }
}

proof fn lemma_trailing_ws(s: Seq<char>, k: int)
    requires
        0 <= k <= s.len(),
        forall|j: int| s.len() - k <= j < s.len() ==> is_white_space(#[trigger] s[j]),
        k == s.len() || !is_white_space(s[s.len() - k - 1]),
    ensures
        trailing_ws(s) == k,
    decreases k,
{
    if k > 0 {
        lemma_trailing_ws(s.drop_last(), k - 1);
    }
}

/// Bounds `(lo, hi)` of `trim(v)` within `v`.
pub fn trim_bounds(v: &[char]) -> (r: (usize, usize))
    ensures
        r.0 <= r.1 <= v.len(),
        v@.subrange(r.0 as int, r.1 as int) == trim(v@),
{
    let mut lo: usize = 0;
    while lo < v.len() && is_white_space_exec(v[lo])
        invariant
            lo <= v.len(),
            forall|j: int| 0 <= j < lo ==> is_white_space(#[trigger] v@[j]),
        decreases v.len() - lo,
    {
        lo = lo + 1;
    }
    proof {
        lemma_leading_ws(v@, lo as int);
    }
    let mut hi: usize = v.len();
    while hi > lo && is_white_space_exec(v[hi - 1])
        invariant
            lo <= hi <= v.len(),
            forall|j: int| hi <= j < v.len() ==> is_white_space(#[trigger] v@[j]),
        decreases hi,
    {
        hi = hi - 1;
    }
    proof {
        let t = v@.skip(lo as int);
        assert forall|j: int| t.len() - (v.len() - hi) <= j < t.len() implies is_white_space(#[trigger] t[j]) by {
            assert(t[j] == v@[lo + j]);
        }
        lemma_trailing_ws(t, (v.len() - hi) as int);
        assert(v@.subrange(lo as int, hi as int) =~= t.take(t.len() - trailing_ws(t)));
    }
    (lo, hi)
}

pub fn trim_chars(v: &[char]) -> (r: Vec<char>)
    ensures
        r@ == trim(v@),
{
    let (lo, hi) = trim_bounds(v);
    slice_of(v, lo, hi)
}

/// `str::split(c)`: the pieces between occurrences of `c` (always at least one).
pub open spec fn split_on(s: Seq<char>, c: char) -> Seq<Seq<char>>
    decreases s.len(),
{
    if s.len() == 0 {
        seq![Seq::<char>::empty()]
    } else if s.last() == c {
        split_on(s.drop_last(), c).push(Seq::<char>::empty())
    } else {
        let rest = split_on(s.drop_last(), c);
        rest.update(rest.len() - 1, rest.last().push(s.last()))
    }
}

pub proof fn lemma_split_on_nonempty(s: Seq<char>, c: char)
    ensures
        split_on(s, c).len() >= 1,
    decreases s.len(),
{
    if s.len() > 0 {
        lemma_split_on_nonempty(s.drop_last(), c);
    }
}

pub fn split_chars(v: &[char], c: char) -> (r: Vec<Vec<char>>)
    ensures
        r@.len() == split_on(v@, c).len(),
        forall|k: int| 0 <= k < r@.len() ==> #[trigger] r@[k]@ == split_on(v@, c)[k],
{
    let mut r: Vec<Vec<char>> = Vec::new();
    let mut cur: Vec<char> = Vec::new();
    let mut i: usize = 0;
    while i < v.len()
        invariant
            i <= v.len(),
            r@.len() + 1 == split_on(v@.take(i as int), c).len(),
            forall|k: int| 0 <= k < r@.len() ==> #[trigger] r@[k]@ == split_on(v@.take(i as int), c)[k],
            cur@ == split_on(v@.take(i as int), c).last(),
        decreases v.len() - i,
    {
        proof {
            lemma_split_on_nonempty(v@.take(i as int), c);
            assert(v@.take(i + 1).drop_last() == v@.take(i as int));
        }
        if v[i] == c {
            r.push(cur);
            cur = Vec::new();
        } else {
            cur.push(v[i]);
        }
        i = i + 1;
    }
    r.push(cur);
    assert(v@.take(v.len() as int) == v@);
    r
}

// ---------------------------------------------------------------------------
// Decimal numbers
// ---------------------------------------------------------------------------

pub open spec fn digit_char(d: int) -> char {
    (48 + d) as char
}

pub open spec fn digit_value(c: char) -> int {
    (c as int) - 48
}

/// Decimal digits of `n`, most significant first, without leading zeros.
pub open spec fn decimal(n: nat) -> Seq<char>
    decreases n,
{
    if n < 10 {
        seq![digit_char(n as int)]
    } else {
        decimal(n / 10).push(digit_char((n % 10) as int))
    }
}

/// `k` zeros (none when `k <= 0`).
pub open spec fn zeros(k: int) -> Seq<char> {
    Seq::new(if k > 0 { k as nat } else { 0 }, |i: int| '0')
}

/// `format!("{:0w$}", n)`: decimal with the sign counted in the width and
/// zeros between sign and digits.
pub open spec fn padded(n: int, w: int) -> Seq<char> {
    if n >= 0 {
        zeros(w - decimal(n as nat).len()) + decimal(n as nat)
    } else {
        seq!['-'] + zeros(w - 1 - decimal((-n) as nat).len()) + decimal((-n) as nat)
    }
}

pub fn digit_exec(d: u64) -> (c: char)
    requires
        d < 10,
    ensures
        c == digit_char(d as int),
{
    let b: u8 = 48 + d as u8;
    b as char
}

pub fn decimal_chars_wide(n: u128) -> (r: Vec<char>)
    ensures
        r@ == decimal(n as nat),
    decreases n,
{
    if n < 10 {
        let mut r = Vec::new();
        r.push(digit_exec(n as u64));
        r
    } else {
        let mut r = decimal_chars_wide(n / 10);
        r.push(digit_exec((n % 10) as u64));
        r
    }
}

pub fn decimal_chars(n: u64) -> (r: Vec<char>)
    ensures
        r@ == decimal(n as nat),
    decreases n,
{
    if n < 10 {
        let mut r = Vec::new();
        r.push(digit_exec(n));
        r
    } else {
        let mut r = decimal_chars(n / 10);
        r.push(digit_exec(n % 10));
        r
    }
}

/// Appends `format!("{:0width$}", n)`.
pub fn push_padded(out: &mut String, n: i64, width: usize)
    ensures
        final(out)@ == old(out)@ + padded(n as int, width as int),
{
    let ghost start = out@;
    let mag: u64 = if n >= 0 { n as u64 } else { (-(n as i128)) as u64 };
    let digits = decimal_chars(mag);
    let mut room: usize = width;
    if n < 0 {
        push_char(out, '-');
        room = if room > 0 { room - 1 } else { 0 };
    }
    let ghost before_zeros = out@;
    let mut k: usize = digits.len();
    while k < room
        invariant
            digits.len() <= k,
            k <= room || k == digits.len(),
            out@ == before_zeros + zeros(k - digits.len()),
        decreases room - k,
    {
        push_char(out, '0');
        assert(zeros(k - digits.len()).push('0') =~= zeros(k + 1 - digits.len()));
        k = k + 1;
    }
    push_chars(out, digits.as_slice());
    proof {
        let w = if n < 0 { width - 1 } else { width as int };
        assert(zeros(k - digits.len()) =~= zeros(w - digits@.len()));
        if n < 0 {
            assert(padded(n as int, width as int) =~= seq!['-'] + zeros(width - 1 - digits@.len()) + digits@);
        }
    }
}

/// Value of a run of decimal digits.
pub open spec fn digits_value(s: Seq<char>) -> int
    decreases s.len(),
{
    if s.len() == 0 {
        0
    } else {
        digits_value(s.drop_last()) * 10 + digit_value(s.last())
    }
}

pub open spec fn all_digits(s: Seq<char>) -> bool {
    forall|i: int| 0 <= i < s.len() ==> is_ascii_digit(#[trigger] s[i])
}

/// `str::parse` for an integer type with range `lo..=hi`: an optional `+`
/// (or `-` for signed types), then one or more ASCII digits.
pub open spec fn parse_integer(s: Seq<char>, signed: bool, lo: int, hi: int) -> Option<int> {
    let has_sign = s.len() > 0 && (s[0] == '+' || (signed && s[0] == '-'));
    let body = if has_sign { s.drop_first() } else { s };
    let neg = has_sign && s[0] == '-';
    if body.len() == 0 || !all_digits(body) {
        None
    } else {
        let v = if neg { -digits_value(body) } else { digits_value(body) };
        if lo <= v <= hi { Some(v) } else { None }
    }
}

/// `str::parse::<i64>`.
pub open spec fn parse_i64(s: Seq<char>) -> Option<int> {
    parse_integer(s, true, i64::MIN as int, i64::MAX as int)
}

/// `str::parse::<u32>`.
pub open spec fn parse_u32(s: Seq<char>) -> Option<int> {
    parse_integer(s, false, 0, u32::MAX as int)
}

proof fn lemma_digits_value_nonneg(s: Seq<char>)
    requires
        all_digits(s),
    ensures
        digits_value(s) >= 0,
    decreases s.len(),
{
    if s.len() > 0 {
        lemma_digits_value_nonneg(s.drop_last());
    }
}

pub fn parse_integer_chars(v: &[char], signed: bool, lo: i64, hi: i64) -> (r: Option<i64>)
    ensures
        r matches Some(x) ==> parse_integer(v@, signed, lo as int, hi as int) == Some(x as int),
        r is None ==> parse_integer(v@, signed, lo as int, hi as int) is None,
{
    let has_sign = v.len() > 0 && (v[0] == '+' || (signed && v[0] == '-'));
    let neg = has_sign && v[0] == '-';
    let start: usize = if has_sign { 1 } else { 0 };
    let ghost body = if has_sign { v@.drop_first() } else { v@ };
    assert(body == v@.skip(start as int));
    if start >= v.len() {
        return None;
    }
    let cap: u64 = 0x8000_0000_0000_0000;
    let mut acc: u64 = 0;
    let mut over = false;
    let mut i = start;
    while i < v.len()
        invariant
            start <= i <= v.len(),
            cap == 0x8000_0000_0000_0000u64,
            has_sign == (v@.len() > 0 && (v@[0] == '+' || (signed && v@[0] == '-'))),
            start == (if has_sign { 1usize } else { 0usize }),
            body == (if has_sign { v@.drop_first() } else { v@ }),
            body == v@.skip(start as int),
            all_digits(v@.subrange(start as int, i as int)),
            acc <= cap,
            !over ==> acc == digits_value(v@.subrange(start as int, i as int)),
            over ==> digits_value(v@.subrange(start as int, i as int)) > cap,
        decreases v.len() - i,
    {
        let c = v[i];
        if !('0' <= c && c <= '9') {
            assert(body[i - start] == c);
            assert(!is_ascii_digit(body[i - start]));
            assert(!all_digits(body));
            return None;
        }
        assert(48 <= c as u32 <= 57);
        let d = (c as u32 - 48) as u64;
        assert(d == digit_value(c));
        proof {
            assert(v@.subrange(start as int, i + 1).drop_last() == v@.subrange(start as int, i as int));
            lemma_digits_value_nonneg(v@.subrange(start as int, i as int));
        }
        if !over {
            if acc > (cap - d) / 10 {
                over = true;
                acc = 0;
            } else {
                acc = acc * 10 + d;
            }
        }
        i = i + 1;
    }
    assert(v@.subrange(start as int, v.len() as int) == body);
    proof {
        lemma_digits_value_nonneg(body);
    }
    if over {
        return None;
    }
    let value: i128 = if neg { -(acc as i128) } else { acc as i128 };
    if (lo as i128) <= value && value <= (hi as i128) {
        Some(value as i64)
    } else {
        None
    }
}

/// `s` with every trailing `c` removed (`str::trim_end_matches(c)`).
pub open spec fn trim_end_char(s: Seq<char>, c: char) -> Seq<char>
    decreases s.len(),
{
    if s.len() > 0 && s.last() == c {
        trim_end_char(s.drop_last(), c)
    } else {
        s
    }
}

/// Index of the first character of `s` that is `a` or `b`.
pub open spec fn first_of_either(s: Seq<char>, a: char, b: char) -> Option<int>
    decreases s.len(),
{
    if s.len() == 0 {
        None
    } else if s[0] == a || s[0] == b {
        Some(0)
    } else {
        match first_of_either(s.drop_first(), a, b) {
            Some(i) => Some(i + 1),
            None => None,
        }
    }
}

pub fn first_of_either_exec(v: &[char], lo: usize, hi: usize, a: char, b: char) -> (r: Option<usize>)
    requires
        lo <= hi <= v.len(),
    ensures
        r matches Some(i) ==> lo <= i < hi && first_of_either(v@.subrange(lo as int, hi as int), a, b) == Some(i - lo),
        r is None ==> first_of_either(v@.subrange(lo as int, hi as int), a, b) is None,
{
    let mut i = hi;
    let mut found: Option<usize> = None;
    while i > lo
        invariant
            lo <= i <= hi <= v.len(),
            found matches Some(k) ==> i <= k < hi && first_of_either(v@.subrange(i as int, hi as int), a, b) == Some(k - i),
            found is None ==> first_of_either(v@.subrange(i as int, hi as int), a, b) is None,
        decreases i - lo,
    {
        i = i - 1;
        assert(v@.subrange(i as int, hi as int).drop_first() == v@.subrange(i + 1, hi as int));
        if v[i] == a || v[i] == b {
            found = Some(i);
        }
    }
    found
}

pub fn trim_end_char_bound(v: &[char], lo: usize, hi: usize, c: char) -> (r: usize)
    requires
        lo <= hi <= v.len(),
    ensures
        lo <= r <= hi,
        v@.subrange(lo as int, r as int) == trim_end_char(v@.subrange(lo as int, hi as int), c),
{
    let mut j = hi;
    while j > lo && v[j - 1] == c
        invariant
            lo <= j <= hi <= v.len(),
            trim_end_char(v@.subrange(lo as int, j as int), c) == trim_end_char(v@.subrange(lo as int, hi as int), c),
        decreases j,
    {
        assert(v@.subrange(lo as int, j as int).drop_last() == v@.subrange(lo as int, j - 1));
        j = j - 1;
    }
    j
}

/// The ASCII digits of `s`, in order.
pub open spec fn digits_of(s: Seq<char>) -> Seq<char>
    decreases s.len(),
{
    if s.len() == 0 {
        Seq::empty()
    } else if is_ascii_digit(s.last()) {
        digits_of(s.drop_last()).push(s.last())
    } else {
        digits_of(s.drop_last())
    }
}

pub proof fn lemma_digits_of_all_digits(s: Seq<char>)
    ensures
        all_digits(digits_of(s)),
        digits_of(s).len() <= s.len(),
    decreases s.len(),
{
    if s.len() > 0 {
        lemma_digits_of_all_digits(s.drop_last());
    }
}

pub fn digits_only(v: &[char]) -> (r: Vec<char>)
    ensures
        r@ == digits_of(v@),
{
    let mut r: Vec<char> = Vec::new();
    let mut i: usize = 0;
    while i < v.len()
        invariant
            i <= v.len(),
            r@ == digits_of(v@.take(i as int)),
        decreases v.len() - i,
    {
        assert(v@.take(i + 1).drop_last() == v@.take(i as int));
        if '0' <= v[i] && v[i] <= '9' {
            r.push(v[i]);
        }
        i = i + 1;
    }
    assert(v@.take(v.len() as int) == v@);
    r
}

/// The lowercase form of `s` under the Unicode `Lowercase` mapping that
/// `str::to_lowercase` applies.
pub uninterp spec fn unicode_lowercase(s: Seq<char>) -> Seq<char>;

/// `str::to_lowercase`.
#[verifier::external_body]
pub(crate) fn to_lowercase(s: &str) -> (r: String)
    ensures
        r@ == unicode_lowercase(s@),
{
    s.to_lowercase()
}

/// Appends the decimal digits of `n`.
pub fn push_decimal(out: &mut String, n: u64)
    ensures
        final(out)@ == old(out)@ + decimal(n as nat),
{
    let d = decimal_chars(n);
    push_chars(out, d.as_slice());
}

/// A raw line without a trailing carriage return.
pub open spec fn without_cr(line: Seq<char>) -> Seq<char> {
    if line.len() > 0 && line.last() == '\r' { line.drop_last() } else { line }
}

/// `str::lines`: the pieces between `\n`s with a `\r` before the `\n`
/// dropped, and no empty piece after a final `\n`.
pub open spec fn text_lines(s: Seq<char>) -> Seq<Seq<char>> {
    let pieces = split_on(s, '\n');
    let body = pieces.take(pieces.len() - 1).map_values(|p: Seq<char>| without_cr(p));
    if pieces.last().len() == 0 { body } else { body.push(pieces.last()) }
}

pub fn text_lines_exec(v: &[char]) -> (r: Vec<Vec<char>>)
    ensures
        r@.len() == text_lines(v@).len(),
        forall|k: int| 0 <= k < r@.len() ==> #[trigger] r@[k]@ == text_lines(v@)[k],
{
    let pieces = split_chars(v, '\n');
    proof { lemma_split_on_nonempty(v@, '\n'); }
    let ghost sp = split_on(v@, '\n');
    let n = pieces.len();
    let mut r: Vec<Vec<char>> = Vec::new();
    let mut i: usize = 0;
    while i + 1 < n
        invariant
            n == pieces@.len(),
            n == sp.len(),
            n >= 1,
            i + 1 <= n,
            forall|k: int| 0 <= k < n ==> #[trigger] pieces@[k]@ == sp[k],
            r@.len() == i,
            forall|k: int| 0 <= k < i ==> #[trigger] r@[k]@ == without_cr(sp[k]),
        decreases n - i,
    {
        let p = &pieces[i];
        let m = p.len();
        let end = if m > 0 && p[m - 1] == '\r' { m - 1 } else { m };
        r.push(slice_of(p.as_slice(), 0, end));
        i = i + 1;
    }
    if pieces[n - 1].len() > 0 {
        r.push(slice_of(pieces[n - 1].as_slice(), 0, pieces[n - 1].len()));
    }
    proof {
        let body = sp.take(sp.len() - 1).map_values(|p: Seq<char>| without_cr(p));
        assert(body.len() == n - 1);
        assert forall|k: int| 0 <= k < n - 1 implies #[trigger] body[k] == without_cr(sp[k]) by {}
        assert(pieces@[n - 1]@.subrange(0, pieces@[n - 1]@.len() as int) == sp.last());
    }
    r
}

/// `str::replace(pat, rep)` for a non-empty `pat`: every occurrence, scanning
/// left to right without overlaps, replaced by `rep`.
pub open spec fn replace_all(s: Seq<char>, pat: Seq<char>, rep: Seq<char>) -> Seq<char>
    decreases s.len(),
{
    if pat.len() == 0 || s.len() < pat.len() {
        s
    } else if s.take(pat.len() as int) == pat {
        rep + replace_all(s.skip(pat.len() as int), pat, rep)
    } else {
        seq![s[0]] + replace_all(s.drop_first(), pat, rep)
    }
}

pub fn replace_chars(v: &[char], pat: &[char], rep: &[char]) -> (r: Vec<char>)
    requires
        pat.len() > 0,
    ensures
        r@ == replace_all(v@, pat@, rep@),
{
    let mut r: Vec<char> = Vec::new();
    let mut i: usize = 0;
    assert(v@.skip(0) == v@);
    while i < v.len()
        invariant
            i <= v.len(),
            pat@.len() > 0,
            r@ + replace_all(v@.skip(i as int), pat@, rep@) == replace_all(v@, pat@, rep@),
        decreases v.len() - i,
    {
        let ghost rest = v@.skip(i as int);
        if matches_at(v, i, pat) {
            assert(rest.take(pat@.len() as int) == v@.subrange(i as int, i + pat@.len()));
            assert(rest.skip(pat@.len() as int) == v@.skip(i + pat@.len()));
            let mut k: usize = 0;
            let ghost r0 = r@;
            while k < rep.len()
                invariant
                    k <= rep.len(),
                    r@ == r0 + rep@.take(k as int),
                decreases rep.len() - k,
            {
                r.push(rep[k]);
                k = k + 1;
            }
            assert(rep@.take(rep@.len() as int) == rep@);
            i = i + pat.len();
        } else {
            proof {
                if rest.len() >= pat@.len() {
                    assert(rest.take(pat@.len() as int) == v@.subrange(i as int, i + pat@.len()));
                }
            }
            assert(rest.drop_first() == v@.skip(i + 1));
            r.push(v[i]);
            i = i + 1;
        }
    }
    assert(v@.skip(v.len() as int) == Seq::<char>::empty());
    r
}

// ---------------------------------------------------------------------------
// Joining
// ---------------------------------------------------------------------------

/// A fresh `String` holding `s`.
pub fn owned(s: &str) -> (r: String)
    ensures
        r@ == s@,
{
    let mut r = String::new();
    push_str(&mut r, s);
    r
}

/// The character sequences of a list of strings.
pub open spec fn texts_view(v: Seq<String>) -> Seq<Seq<char>> {
    v.map_values(|s: String| s@)
}

/// `parts` joined with `sep` between them.
pub open spec fn joined(parts: Seq<Seq<char>>, sep: Seq<char>) -> Seq<char>
    decreases parts.len(),
{
    if parts.len() == 0 {
        Seq::empty()
    } else if parts.len() == 1 {
        parts[0]
    } else {
        joined(parts.drop_last(), sep) + sep + parts.last()
    }
}

/// `parts` joined with `sep` between them (`[String]::join`).
pub fn join_texts(parts: &Vec<String>, sep: &str) -> (r: String)
    ensures
        r@ == joined(texts_view(parts@), sep@),
{
    let ghost pv = texts_view(parts@);
    let mut out = String::new();
    let mut i: usize = 0;
    while i < parts.len()
        invariant
            i <= parts.len(),
            pv == texts_view(parts@),
            out@ == joined(pv.take(i as int), sep@),
        decreases parts.len() - i,
    {
        assert(pv.take(i + 1).drop_last() == pv.take(i as int));
        assert(pv.take(i + 1).last() == parts@[i as int]@);
        if i > 0 {
            push_str(&mut out, sep);
        }
        push_str(&mut out, parts[i].as_str());
        i = i + 1;
    }
    assert(pv.take(parts.len() as int) == pv);
    out
}

/// Code-point lexicographic order on text (the order of `String`'s `Ord`).
pub open spec fn text_lt(a: Seq<char>, b: Seq<char>) -> bool
    decreases a.len(),
{
    if a.len() == 0 {
        b.len() > 0
    } else if b.len() == 0 {
        false
    } else if a[0] != b[0] {
        (a[0] as u32) < (b[0] as u32)
    } else {
        text_lt(a.drop_first(), b.drop_first())
    }
}

/// Whether `a` sorts strictly before `b` as `String`s do.
pub fn text_less(a: &str, b: &str) -> (r: bool)
    ensures
        r == text_lt(a@, b@),
{
    let x = chars_of(a);
    let y = chars_of(b);
    let mut i: usize = 0;
    while i < x.len() && i < y.len()
        invariant
            i <= x.len(),
            i <= y.len(),
            x@ == a@,
            y@ == b@,
            text_lt(a@, b@) == text_lt(a@.skip(i as int), b@.skip(i as int)),
        decreases x.len() - i,
    {
        assert(a@.skip(i as int).drop_first() =~= a@.skip(i + 1));
        assert(b@.skip(i as int).drop_first() =~= b@.skip(i + 1));
        if x[i] != y[i] {
            return (x[i] as u32) < (y[i] as u32);
        }
        i = i + 1;
    }
    i < y.len()
}

/// The texts of `parts` one after another.
pub open spec fn concat(parts: Seq<Seq<char>>) -> Seq<char>
    decreases parts.len(),
{
    if parts.len() == 0 {
        Seq::empty()
    } else {
        concat(parts.drop_last()) + parts.last()
    }
}

/// Whether `name` passes an optional case-insensitive substring filter.
pub open spec fn filter_matches(name: Seq<char>, filter: Option<Seq<char>>) -> bool {
    match filter {
        None => true,
        Some(f) => contains_seq(unicode_lowercase(name), unicode_lowercase(f)),
    }
}

/// Whether `name` passes the optional filter: no filter passes everything,
/// else the lowercased name must contain the lowercased filter.
pub fn matches_filter(name: &str, filter: Option<&str>) -> (r: bool)
    ensures
        r == filter_matches(name@, match filter { Some(f) => Some(f@), None => None }),
{
    match filter {
        None => true,
        Some(f) => {
            let n = to_lowercase(name);
            let l = to_lowercase(f);
            let nv = chars_of(n.as_str());
            let lv = chars_of(l.as_str());
            contains_chars(nv.as_slice(), lv.as_slice())
        },
    }
}

proof fn lemma_char_order(x: char, y: char)
    ensures
        (x as u32) == (y as u32) <==> x == y,
{
}

/// `text_lt` is a strict total order.
pub proof fn lemma_text_lt_order(a: Seq<char>, b: Seq<char>, c: Seq<char>)
    ensures
        !text_lt(a, a),
        text_lt(a, b) ==> !text_lt(b, a),
        text_lt(a, b) && text_lt(b, c) ==> text_lt(a, c),
        a != b ==> text_lt(a, b) || text_lt(b, a),
    decreases a.len(),
{
    if a.len() > 0 {
        lemma_text_lt_order(a.drop_first(), b.drop_first(), c.drop_first());
        if b.len() > 0 {
            lemma_char_order(a[0], b[0]);
            if a[0] == b[0] && a.drop_first() == b.drop_first() {
                assert(a =~= seq![a[0]] + a.drop_first());
                assert(b =~= seq![b[0]] + b.drop_first());
            }
        }
        if c.len() > 0 {
            lemma_char_order(a[0], c[0]);
            if b.len() > 0 {
                lemma_char_order(b[0], c[0]);
            }
        }
    } else if b.len() == 0 {
        assert(a =~= b);
    }
}

/// "Not strictly before" chains for `text_lt`.
pub proof fn lemma_text_not_lt_chain(a: Seq<char>, b: Seq<char>, c: Seq<char>)
    requires
        !text_lt(a, b),
        !text_lt(b, c),
    ensures
        !text_lt(a, c),
{
    lemma_text_lt_order(a, b, c);
    lemma_text_lt_order(b, a, c);
    lemma_text_lt_order(c, b, a);
    lemma_text_lt_order(a, c, b);
    lemma_text_lt_order(c, a, b);
}


// ---------------------------------------------------------------------------
// Reading back what was written
// ---------------------------------------------------------------------------

proof fn lemma_digit_char(d: int)
    requires
        0 <= d <= 9,
    ensures
        is_ascii_digit(digit_char(d)),
        digit_value(digit_char(d)) == d,
{
    assert((48 + d) as char as int == 48 + d);
}

/// The decimal text of `n` is one to four digits for `n` below ten thousand,
/// and reads back as `n`.
pub proof fn lemma_decimal(n: nat)
    ensures
        all_digits(decimal(n)),
        digits_value(decimal(n)) == n,
        decimal(n).len() >= 1,
        n < 10 ==> decimal(n).len() == 1,
        n < 100 ==> decimal(n).len() <= 2,
        n < 1000 ==> decimal(n).len() <= 3,
        n < 10000 ==> decimal(n).len() <= 4,
    decreases n,
{
    if n < 10 {
        lemma_digit_char(n as int);
        assert(decimal(n).drop_last() =~= Seq::<char>::empty());
        assert(digits_value(Seq::<char>::empty()) == 0);
    } else {
        lemma_decimal(n / 10);
        lemma_digit_char((n % 10) as int);
        let t = decimal(n / 10);
        assert(decimal(n).drop_last() =~= t);
        assert forall|i: int| 0 <= i < decimal(n).len() implies is_ascii_digit(#[trigger] decimal(n)[i]) by {
            if i < t.len() {
                assert(decimal(n)[i] == t[i]);
            }
        }
    }
}

proof fn lemma_zeros_value(k: int)
    ensures
        digits_value(zeros(k)) == 0,
        all_digits(zeros(k)),
    decreases (if k > 0 { k } else { 0 }),
{
    if k > 0 {
        lemma_zeros_value(k - 1);
        assert(zeros(k).drop_last() =~= zeros(k - 1));
    }
}

proof fn lemma_zeros_prefix_value(k: int, t: Seq<char>)
    ensures
        digits_value(zeros(k) + t) == digits_value(t),
    decreases t.len(),
{
    if t.len() == 0 {
        assert(zeros(k) + t =~= zeros(k));
        lemma_zeros_value(k);
    } else {
        lemma_zeros_prefix_value(k, t.drop_last());
        assert((zeros(k) + t).drop_last() =~= zeros(k) + t.drop_last());
    }
}

/// A number below `10^w` written zero-padded to width `w` is `w` digits that
/// read back as the number.
pub proof fn lemma_padded_digits(n: int, w: int)
    requires
        0 <= n,
        decimal(n as nat).len() <= w,
    ensures
        padded(n, w).len() == w,
        all_digits(padded(n, w)),
        digits_value(padded(n, w)) == n,
{
    let t = decimal(n as nat);
    lemma_decimal(n as nat);
    lemma_zeros_value(w - t.len());
    lemma_zeros_prefix_value(w - t.len(), t);
    let p = padded(n, w);
    let z = zeros(w - t.len());
    assert(p == z + t);
    assert forall|i: int| 0 <= i < p.len() implies is_ascii_digit(#[trigger] p[i]) by {
        if i < z.len() {
            assert(p[i] == z[i]);
        } else {
            assert(p[i] == t[i - z.len()]);
        }
    }
}

/// The digits of a run of digits are the run itself.
pub proof fn lemma_digits_of_digits(s: Seq<char>)
    requires
        all_digits(s),
    ensures
        digits_of(s) == s,
    decreases s.len(),
{
    if s.len() > 0 {
        assert(all_digits(s.drop_last())) by {
            assert forall|i: int| 0 <= i < s.drop_last().len() implies is_ascii_digit(#[trigger] s.drop_last()[i]) by {
                assert(s.drop_last()[i] == s[i]);
            }
        }
        lemma_digits_of_digits(s.drop_last());
        assert(is_ascii_digit(s[s.len() - 1]));
        assert(s.drop_last().push(s.last()) =~= s);
    }
}

/// Splitting text with no separator gives the text itself.
pub proof fn lemma_split_on_none(s: Seq<char>, c: char)
    requires
        !has_char(s, c),
    ensures
        split_on(s, c) == seq![s],
    decreases s.len(),
{
    if s.len() > 0 {
        assert(!has_char(s.drop_last(), c)) by {
            if has_char(s.drop_last(), c) {
                let i = choose|i: int| 0 <= i < s.drop_last().len() && s.drop_last()[i] == c;
                assert(s[i] == c);
            }
        }
        assert(s[s.len() - 1] != c);
        lemma_split_on_none(s.drop_last(), c);
        assert(s.drop_last().push(s.last()) =~= s);
        assert(seq![s.drop_last()].update(0, s.drop_last().push(s.last())) =~= seq![s]);
    }
}

/// Splitting at a separator followed by text without one adds that text as a
/// last piece.
pub proof fn lemma_split_on_append(a: Seq<char>, c: char, b: Seq<char>)
    requires
        !has_char(b, c),
    ensures
        split_on(a + seq![c] + b, c) == split_on(a, c).push(b),
    decreases b.len(),
{
    let s = a + seq![c] + b;
    if b.len() == 0 {
        assert(s.drop_last() =~= a);
        assert(b =~= Seq::<char>::empty());
    } else {
        assert(!has_char(b.drop_last(), c)) by {
            if has_char(b.drop_last(), c) {
                let i = choose|i: int| 0 <= i < b.drop_last().len() && b.drop_last()[i] == c;
                assert(b[i] == c);
            }
        }
        assert(b[b.len() - 1] != c);
        lemma_split_on_append(a, c, b.drop_last());
        assert(s.drop_last() =~= a + seq![c] + b.drop_last());
        assert(s.last() == b.last());
        let rest = split_on(a, c).push(b.drop_last());
        assert(b.drop_last().push(b.last()) =~= b);
        assert(rest.update(rest.len() - 1, b.drop_last().push(b.last())) =~= split_on(a, c).push(b));
    }
}

/// Text that starts and ends with something other than white space is its
/// own trim.
pub proof fn lemma_trim_none(s: Seq<char>)
    requires
        s.len() > 0,
        !is_white_space(s[0]),
        !is_white_space(s.last()),
    ensures
        trim(s) == s,
{
    assert(leading_ws(s) == 0);
    assert(s.skip(0) =~= s);
    assert(trailing_ws(s) == 0);
    assert(s.take(s.len() as int) =~= s);
}

/// With neither character in it, neither is found.
pub proof fn lemma_first_of_either_none(s: Seq<char>, a: char, b: char)
    requires
        !has_char(s, a),
        !has_char(s, b),
    ensures
        first_of_either(s, a, b) is None,
    decreases s.len(),
{
    if s.len() > 0 {
        assert(s[0] != a && s[0] != b);
        assert(!has_char(s.drop_first(), a) && !has_char(s.drop_first(), b)) by {
            if has_char(s.drop_first(), a) {
                let i = choose|i: int| 0 <= i < s.drop_first().len() && s.drop_first()[i] == a;
                assert(s[i + 1] == a);
            }
            if has_char(s.drop_first(), b) {
                let i = choose|i: int| 0 <= i < s.drop_first().len() && s.drop_first()[i] == b;
                assert(s[i + 1] == b);
            }
        }
        lemma_first_of_either_none(s.drop_first(), a, b);
    }
}


/// The first of either character is the separator right after text holding
/// neither.
pub proof fn lemma_first_of_either_at(a: Seq<char>, x: char, b: Seq<char>, p: char, q: char)
    requires
        !has_char(a, p),
        !has_char(a, q),
        x == p || x == q,
    ensures
        first_of_either(a + seq![x] + b, p, q) == Some(a.len() as int),
    decreases a.len(),
{
    let s = a + seq![x] + b;
    if a.len() == 0 {
        assert(s[0] == x);
    } else {
        assert(s[0] == a[0]);
        assert(a[0] != p && a[0] != q);
        let t = a.drop_first();
        assert(!has_char(t, p) && !has_char(t, q)) by {
            if has_char(t, p) {
                let i = choose|i: int| 0 <= i < t.len() && t[i] == p;
                assert(a[i + 1] == p);
            }
            if has_char(t, q) {
                let i = choose|i: int| 0 <= i < t.len() && t[i] == q;
                assert(a[i + 1] == q);
            }
        }
        lemma_first_of_either_at(t, x, b, p, q);
        assert(s.drop_first() =~= t + seq![x] + b);
    }
}

/// The digits of joined text are the digits of each part, joined.
pub proof fn lemma_digits_of_append(a: Seq<char>, b: Seq<char>)
    ensures
        digits_of(a + b) == digits_of(a) + digits_of(b),
    decreases b.len(),
{
    if b.len() == 0 {
        assert(a + b =~= a);
        assert(digits_of(a) + digits_of(b) =~= digits_of(a));
    } else {
        lemma_digits_of_append(a, b.drop_last());
        assert((a + b).drop_last() =~= a + b.drop_last());
        assert((a + b).last() == b.last());
        if is_ascii_digit(b.last()) {
            assert(digits_of(a) + digits_of(b.drop_last()).push(b.last()) =~= (digits_of(a) + digits_of(
                b.drop_last(),
            )).push(b.last()));
        }
    }
}


proof fn lemma_all_digits_drop_last(a: Seq<char>)
    requires
        all_digits(a),
        a.len() > 0,
    ensures
        all_digits(a.drop_last()),
        is_ascii_digit(a.last()),
{
    assert forall|i: int| 0 <= i < a.drop_last().len() implies is_ascii_digit(#[trigger] a.drop_last()[i]) by {
        assert(a.drop_last()[i] == a[i]);
    }
    assert(is_ascii_digit(a[a.len() - 1]));
}

proof fn lemma_text_lt_same_prefix(p: Seq<char>, x: char, y: char)
    requires
        (x as u32) < (y as u32),
    ensures
        text_lt(p.push(x), p.push(y)),
    decreases p.len(),
{
    if p.len() == 0 {
        assert(p.push(x)[0] == x && p.push(y)[0] == y);
    } else {
        assert(p.push(x)[0] == p[0] && p.push(y)[0] == p[0]);
        assert(p.push(x).drop_first() =~= p.drop_first().push(x));
        assert(p.push(y).drop_first() =~= p.drop_first().push(y));
        lemma_text_lt_same_prefix(p.drop_first(), x, y);
    }
}

proof fn lemma_text_lt_extend(a: Seq<char>, b: Seq<char>, x: char, y: char)
    requires
        a.len() == b.len(),
        text_lt(a, b),
    ensures
        text_lt(a.push(x), b.push(y)),
    decreases a.len(),
{
    assert(a.len() > 0);
    assert(a.push(x)[0] == a[0] && b.push(y)[0] == b[0]);
    if a[0] == b[0] {
        assert(a.push(x).drop_first() =~= a.drop_first().push(x));
        assert(b.push(y).drop_first() =~= b.drop_first().push(y));
        lemma_text_lt_extend(a.drop_first(), b.drop_first(), x, y);
    }
}

/// Equal-length runs of digits sort as the numbers they write.
pub proof fn lemma_digits_order(a: Seq<char>, b: Seq<char>)
    requires
        all_digits(a),
        all_digits(b),
        a.len() == b.len(),
    ensures
        digits_value(a) < digits_value(b) ==> text_lt(a, b),
        digits_value(a) == digits_value(b) ==> a == b,
    decreases a.len(),
{
    if a.len() > 0 {
        lemma_all_digits_drop_last(a);
        lemma_all_digits_drop_last(b);
        let a1 = a.drop_last();
        let b1 = b.drop_last();
        lemma_digits_order(a1, b1);
        lemma_digits_value_nonneg(a1);
        lemma_digits_value_nonneg(b1);
        let la = digit_value(a.last());
        let lb = digit_value(b.last());
        assert(0 <= la <= 9 && 0 <= lb <= 9);
        assert(a =~= a1.push(a.last()));
        assert(b =~= b1.push(b.last()));
        if digits_value(a) < digits_value(b) {
            if digits_value(a1) < digits_value(b1) {
                lemma_text_lt_extend(a1, b1, a.last(), b.last());
            } else {
                assert(digits_value(a1) == digits_value(b1));
                assert(a1 == b1);
                assert((a.last() as u32) < (b.last() as u32));
                lemma_text_lt_same_prefix(a1, a.last(), b.last());
            }
        }
        if digits_value(a) == digits_value(b) {
            assert(digits_value(a1) == digits_value(b1));
            assert(a.last() == b.last());
        }
    } else {
        assert(a =~= b);
    }
}

/// The value of digits followed by two more.
pub proof fn lemma_digits_value_two_more(a: Seq<char>, b: Seq<char>)
    requires
        b.len() == 2,
    ensures
        digits_value(a + b) == digits_value(a) * 100 + digits_value(b),
{
    let s = a + b;
    assert(s.drop_last() =~= a + seq![b[0]]);
    assert((a + seq![b[0]]).drop_last() =~= a);
    assert(b.drop_last() =~= seq![b[0]]);
    assert(seq![b[0]].drop_last() =~= Seq::<char>::empty());
    assert(digits_value(Seq::<char>::empty()) == 0);
    let a0 = a + seq![b[0]];
    assert(s.last() == b[1] && b.last() == b[1] && a0.last() == b[0] && seq![b[0]].last() == b[0]);
    assert(digits_value(a0) == digits_value(a) * 10 + digit_value(b[0]));
    assert(digits_value(s) == digits_value(a0) * 10 + digit_value(b[1]));
    assert(digits_value(seq![b[0]]) == digit_value(b[0]));
    assert(digits_value(b) == digits_value(seq![b[0]]) * 10 + digit_value(b[1]));
}

} // verus!
