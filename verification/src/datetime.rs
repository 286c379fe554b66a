//! UTC calendar arithmetic: exact integer conversions between days since the
//! Unix epoch and proleptic Gregorian dates, without leap seconds.

use vstd::prelude::*;

use crate::text::{
    all_digits, decimal, digits_value, has_char, is_ascii_digit, lemma_decimal,
    lemma_first_of_either_at, lemma_first_of_either_none,
    lemma_padded_digits, lemma_split_on_append, lemma_split_on_none, lemma_trim_none, chars_of, first_of_either, first_of_either_exec, padded, parse_i64, parse_integer_chars, parse_u32, push_char,
    push_padded, push_str, slice_of, split_chars, split_on, trim, trim_bounds, trim_end_char,
    trim_end_char_bound,
};

verus! {

// ---------------------------------------------------------------------------
// The calendar, stated directly
// ---------------------------------------------------------------------------

pub open spec fn is_leap_year(y: int) -> bool {
    (y % 4 == 0 && y % 100 != 0) || y % 400 == 0
}

pub open spec fn days_in_month(y: int, m: int) -> int {
    if m == 2 {
        if is_leap_year(y) { 29 } else { 28 }
    } else if m == 4 || m == 6 || m == 9 || m == 11 {
        30
    } else {
        31
    }
}

/// A real date of the proleptic Gregorian calendar.
pub open spec fn is_valid_date(y: int, m: int, d: int) -> bool {
    &&& 1 <= m <= 12
    &&& 1 <= d <= days_in_month(y, m)
}

/// Days of year `y` that come before the first of month `m` (1..=12).
pub open spec fn days_before_month(y: int, m: int) -> int {
    let base: int = if m <= 1 { 0 }
        else if m == 2 { 31 }
        else if m == 3 { 59 }
        else if m == 4 { 90 }
        else if m == 5 { 120 }
        else if m == 6 { 151 }
        else if m == 7 { 181 }
        else if m == 8 { 212 }
        else if m == 9 { 243 }
        else if m == 10 { 273 }
        else if m == 11 { 304 }
        else { 334 };
    if m > 2 && is_leap_year(y) { base + 1 } else { base }
}

/// Leap years strictly before year `y`, counted from year 1 (and extended
/// below it so that consecutive years always differ by `is_leap_year`).
pub open spec fn leap_days_before(y: int) -> int {
    (y - 1) / 4 - (y - 1) / 100 + (y - 1) / 400
}

/// The number of days from 1970-01-01 to `y`-`m`-`d`.
pub open spec fn days_since_epoch(y: int, m: int, d: int) -> int {
    365 * y + leap_days_before(y) + days_before_month(y, m) + d - 719528
}

// ---------------------------------------------------------------------------
// The era-based closed form that the executable code evaluates
// ---------------------------------------------------------------------------

/// Year counted from March, so that the leap day ends the year.
pub open spec fn march_year(y: int, m: int) -> int {
    if m <= 2 { y - 1 } else { y }
}

/// Day of the March-based year on which day `d` of month `m` falls.
pub open spec fn march_day_of_year(m: int, d: int) -> int {
    (153 * (if m > 2 { m - 3 } else { m + 9 }) + 2) / 5 + d - 1
}

/// Day number of `y`-`m`-`d` by 400-year eras (146097 days each) that begin on
/// the 1st of March.
pub open spec fn era_days(y: int, m: int, d: int) -> int {
    let y1 = march_year(y, m);
    let era = y1 / 400;
    let yoe = y1 - era * 400;
    let doe = yoe * 365 + yoe / 4 - yoe / 100 + march_day_of_year(m, d);
    era * 146097 + doe - 719468
}

pub open spec fn fits_i64(x: int) -> bool {
    i64::MIN <= x <= i64::MAX
}

/// No step of the executable evaluation of [`era_days`] leaves `i64`.
pub open spec fn days_from_civil_fits(y: int, m: int, d: int) -> bool {
    let y1 = march_year(y, m);
    let era = y1 / 400;
    let yoe = y1 - era * 400;
    let doe = yoe * 365 + yoe / 4 - yoe / 100 + march_day_of_year(m, d);
    &&& fits_i64(y1)
    &&& fits_i64(y1 - 399)
    &&& fits_i64(era * 146097)
    &&& fits_i64(era * 146097 + doe)
    &&& fits_i64(era * 146097 + doe - 719468)
}

// ---------------------------------------------------------------------------
// Lemmas
// ---------------------------------------------------------------------------

/// For a month in range the era form counts the same days as the calendar.
#[verifier::rlimit(60)]
#[verifier::spinoff_prover]
pub proof fn lemma_era_days_is_days_since_epoch(y: int, m: int, d: int)
    requires
        1 <= m <= 12,
    ensures
        era_days(y, m, d) == days_since_epoch(y, m, d),
{
    let y1 = march_year(y, m);
    let era = y1 / 400;
    let yoe = y1 - era * 400;
    assert(0 <= yoe < 400);
    assert(y1 / 4 == era * 100 + yoe / 4);
    assert(y1 / 100 == era * 4 + yoe / 100);
}


/// Days in the March-based year `yoe` of an era (it holds the February of
/// the civil year `yoe + 1`).
pub open spec fn era_year_length(yoe: int) -> int {
    if is_leap_year(yoe + 1) { 366 } else { 365 }
}

pub open spec fn era_year_of_day(doe: int) -> int {
    (doe - doe / 1460 + doe / 36524 - doe / 146096) / 365
}

pub open spec fn era_year_start(yoe: int) -> int {
    365 * yoe + yoe / 4 - yoe / 100
}

#[verifier::rlimit(60)]
#[verifier::spinoff_prover]
proof fn lemma_encode_day_of_era(yoe: int, doy: int)
    requires
        0 <= yoe <= 399,
        0 <= doy < era_year_length(yoe),
    ensures
        0 <= era_year_start(yoe) + doy <= 146096,
        era_year_of_day(era_year_start(yoe) + doy) == yoe,
{
    let c = yoe / 100;
    let r = yoe % 100;
    let b = r / 4;
    let a = r % 4;
    assert(yoe == 100 * c + 4 * b + a);
    assert(yoe / 4 == 25 * c + b);
    assert(yoe / 100 == c);
    let doe = era_year_start(yoe) + doy;
    assert(doe == 36524 * c + 1461 * b + 365 * a + doy);
}

#[verifier::rlimit(60)]
#[verifier::spinoff_prover]
proof fn lemma_decode_day_of_era(doe: int)
    requires
        0 <= doe <= 146096,
    ensures
        0 <= era_year_of_day(doe) <= 399,
        0 <= doe - era_year_start(era_year_of_day(doe)) < era_year_length(era_year_of_day(doe)),
{
    let yoe = era_year_of_day(doe);
    let c = yoe / 100;
    let r = yoe % 100;
    let b = r / 4;
    let a = r % 4;
    assert(0 <= yoe <= 399);
    assert(yoe == 100 * c + 4 * b + a);
    assert(yoe / 4 == 25 * c + b);
    assert(yoe / 100 == c);
}

/// Month (1..=12) of the March-based month index `mp` (0 = March).
pub open spec fn month_of_march_index(mp: int) -> int {
    if mp < 10 { mp + 3 } else { mp - 9 }
}

#[verifier::rlimit(60)]
#[verifier::spinoff_prover]
proof fn lemma_decode_day_of_year(doy: int, leap: bool)
    requires
        0 <= doy < (if leap { 366int } else { 365int }),
    ensures
        ({
            let mp = (5 * doy + 2) / 153;
            let d = doy - (153 * mp + 2) / 5 + 1;
            let m = month_of_march_index(mp);
            &&& 0 <= mp <= 11
            &&& 1 <= m <= 12
            &&& 1 <= d
            &&& d <= (if m == 2 { if leap { 29int } else { 28int } } else if m == 4 || m == 6 || m == 9 || m == 11 { 30int } else { 31int })
            &&& march_day_of_year(m, d) == doy
        }),
{
}

#[verifier::rlimit(60)]
#[verifier::spinoff_prover]
proof fn lemma_encode_day_of_year(m: int, d: int, leap: bool)
    requires
        1 <= m <= 12,
        1 <= d <= (if m == 2 { if leap { 29int } else { 28int } } else if m == 4 || m == 6 || m == 9 || m == 11 { 30int } else { 31int }),
    ensures
        ({
            let doy = march_day_of_year(m, d);
            let mp = (5 * doy + 2) / 153;
            &&& 0 <= doy < (if leap { 366int } else { 365int })
            &&& month_of_march_index(mp) == m
            &&& doy - (153 * mp + 2) / 5 + 1 == d
        }),
{
}

// ---------------------------------------------------------------------------
// Conversions
// ---------------------------------------------------------------------------

/// The era-based inverse of [`era_days`]: the date `z` days after 1970-01-01.
pub open spec fn civil_of_days(z: int) -> (int, int, int) {
    let zz = z + 719468;
    let era = zz / 146097;
    let doe = zz - era * 146097;
    let yoe = era_year_of_day(doe);
    let doy = doe - era_year_start(yoe);
    let mp = (5 * doy + 2) / 153;
    let d = doy - (153 * mp + 2) / 5 + 1;
    let m = month_of_march_index(mp);
    let y = yoe + era * 400;
    (if m <= 2 { y + 1 } else { y }, m, d)
}

#[verifier::rlimit(60)]
#[verifier::spinoff_prover]
proof fn lemma_civil_of_days(z: int)
    ensures
        is_valid_date(civil_of_days(z).0, civil_of_days(z).1, civil_of_days(z).2),
        days_since_epoch(civil_of_days(z).0, civil_of_days(z).1, civil_of_days(z).2) == z,
{
    let zz = z + 719468;
    let era = zz / 146097;
    let doe = zz - era * 146097;
    assert(0 <= doe <= 146096);
    lemma_decode_day_of_era(doe);
    let yoe = era_year_of_day(doe);
    let doy = doe - era_year_start(yoe);
    let leap = is_leap_year(yoe + 1);
    lemma_decode_day_of_year(doy, leap);
    let mp = (5 * doy + 2) / 153;
    let d = doy - (153 * mp + 2) / 5 + 1;
    let m = month_of_march_index(mp);
    let y = yoe + era * 400;
    let year = if m <= 2 { y + 1 } else { y };
    assert(civil_of_days(z) == (year, m, d));
    assert(is_leap_year(y + 1) == leap) by {
        assert((era * 400 + yoe + 1) % 4 == (yoe + 1) % 4);
        assert((era * 400 + yoe + 1) % 100 == (yoe + 1) % 100);
        assert((era * 400 + yoe + 1) % 400 == (yoe + 1) % 400);
    }
    assert(is_valid_date(year, m, d));
    lemma_era_days_is_days_since_epoch(year, m, d);
    assert(march_year(year, m) == y);
    assert(y / 400 == era);
    assert(y - (y / 400) * 400 == yoe);
    assert(era_days(year, m, d) == z);
}

proof fn lemma_era_div_unique(x: int, q: int, r: int)
    requires
        0 <= r < 146097,
        x == q * 146097 + r,
    ensures
        x / 146097 == q,
{
}

#[verifier::rlimit(60)]
#[verifier::spinoff_prover]
proof fn lemma_civil_of_days_inverts(y: int, m: int, d: int)
    requires
        is_valid_date(y, m, d),
    ensures
        civil_of_days(days_since_epoch(y, m, d)) == (y, m, d),
{
    lemma_era_days_is_days_since_epoch(y, m, d);
    let z = days_since_epoch(y, m, d);
    let y1 = march_year(y, m);
    let era = y1 / 400;
    let yoe = y1 - era * 400;
    assert(0 <= yoe <= 399);
    let leap = is_leap_year(yoe + 1);
    assert(m == 2 ==> is_leap_year(y) == leap) by {
        if m == 2 {
            assert(y == era * 400 + yoe + 1);
            assert((era * 400 + yoe + 1) % 4 == (yoe + 1) % 4);
            assert((era * 400 + yoe + 1) % 100 == (yoe + 1) % 100);
            assert((era * 400 + yoe + 1) % 400 == (yoe + 1) % 400);
        }
    }
    lemma_encode_day_of_year(m, d, leap);
    let doy = march_day_of_year(m, d);
    lemma_encode_day_of_era(yoe, doy);
    let doe = era_year_start(yoe) + doy;
    assert(z == era * 146097 + doe - 719468);
    let zz = z + 719468;
    lemma_era_div_unique(zz, era, doe);
    assert(era_year_of_day(doe) == yoe);
    let mp = (5 * doy + 2) / 153;
    assert(month_of_march_index(mp) == m);
    assert(doy - (153 * mp + 2) / 5 + 1 == d);
    let c = civil_of_days(z);
    assert(c.1 == m);
    assert(c.2 == d);
    assert(c.0 == y);
}

/// Different dates fall on different days: together with the contracts of
/// [`civil_from_days`] and [`days_from_civil`], converting a valid date to its
/// day number and back gives the same date.
pub proof fn law_days_since_epoch_injective(y1: int, m1: int, d1: int, y2: int, m2: int, d2: int)
    requires
        is_valid_date(y1, m1, d1),
        is_valid_date(y2, m2, d2),
        days_since_epoch(y1, m1, d1) == days_since_epoch(y2, m2, d2),
    ensures
        y1 == y2 && m1 == m2 && d1 == d2,
{
    lemma_civil_of_days_inverts(y1, m1, d1);
    lemma_civil_of_days_inverts(y2, m2, d2);
}

/// Every day number is the day of exactly the date that [`civil_from_days`]
/// computes for it.
pub proof fn law_civil_of_days_round_trip(z: int)
    ensures
        is_valid_date(civil_of_days(z).0, civil_of_days(z).1, civil_of_days(z).2),
        days_since_epoch(civil_of_days(z).0, civil_of_days(z).1, civil_of_days(z).2) == z,
{
    lemma_civil_of_days(z);
}

/// (year, month, day) for `z` days since 1970-01-01 (proleptic Gregorian).
pub fn civil_from_days(z: i64) -> (r: (i64, u32, u32))
    requires
        z <= i64::MAX - 719468,
    ensures
        is_valid_date(r.0 as int, r.1 as int, r.2 as int),
        days_since_epoch(r.0 as int, r.1 as int, r.2 as int) == z,
        (r.0 as int, r.1 as int, r.2 as int) == civil_of_days(z as int),
{
    proof {
        lemma_civil_of_days(z as int);
    }
    let z0 = z;
    let z = z + 719_468;
    let era = (if z >= 0 { z } else { z - 146_096 }) / 146_097;
    assert(era == z as int / 146097);
    let doe = z - era * 146_097;
    assert(0 <= doe <= 146096);
    let yoe = (doe - doe / 1460 + doe / 36524 - doe / 146_096) / 365;
    proof {
        lemma_decode_day_of_era(doe as int);
    }
    let y = yoe + era * 400;
    let doy = doe - (365 * yoe + yoe / 4 - yoe / 100);
    proof {
        lemma_decode_day_of_year(doy as int, is_leap_year(yoe + 1));
    }
    let mp = (5 * doy + 2) / 153;
    let d = (doy - (153 * mp + 2) / 5 + 1) as u32;
    let m = (if mp < 10 { mp + 3 } else { mp - 9 }) as u32;
    let year = if m <= 2 { y + 1 } else { y };
    assert((year as int, m as int, d as int) == civil_of_days(z0 as int));
    (year, m, d)
}

/// Days since 1970-01-01 for a civil (year, month, day).
pub fn days_from_civil(y: i64, m: u32, d: u32) -> (r: i64)
    requires
        days_from_civil_fits(y as int, m as int, d as int),
    ensures
        r == era_days(y as int, m as int, d as int),
        1 <= m <= 12 ==> r == days_since_epoch(y as int, m as int, d as int),
{
    proof {
        if 1 <= m <= 12 {
            lemma_era_days_is_days_since_epoch(y as int, m as int, d as int);
        }
    }
    let y = if m <= 2 { y - 1 } else { y };
    let era = (if y >= 0 { y } else { y - 399 }) / 400;
    assert(era == y as int / 400);
    let yoe = y - era * 400;
    let mi = m as i64;
    let doy = (153 * (if mi > 2 { mi - 3 } else { mi + 9 }) + 2) / 5 + d as i64 - 1;
    let doe = yoe * 365 + yoe / 4 - yoe / 100 + doy;
    era * 146_097 + doe - 719_468
}

// ---------------------------------------------------------------------------
// Text renderings of an instant (seconds since the epoch, UTC)
// ---------------------------------------------------------------------------

pub open spec fn day_of(secs: int) -> int {
    secs / 86400
}

pub open spec fn second_of_day(secs: int) -> int {
    secs % 86400
}

/// `YYYYMMDD` of the date holding `secs`.
pub open spec fn date_digits(secs: int) -> Seq<char> {
    let (y, m, d) = civil_of_days(day_of(secs));
    padded(y, 4) + padded(m, 2) + padded(d, 2)
}

/// EDS `make-time` text `YYYYMMDDTHHMMSSZ`.
pub open spec fn make_time_text(secs: int) -> Seq<char> {
    let rem = second_of_day(secs);
    date_digits(secs) + seq!['T'] + padded(rem / 3600, 2) + padded((rem % 3600) / 60, 2)
        + padded(rem % 60, 2) + seq!['Z']
}

/// Display text `YYYY-MM-DD HH:MM`.
pub open spec fn display_text(secs: int) -> Seq<char> {
    let (y, m, d) = civil_of_days(day_of(secs));
    let rem = second_of_day(secs);
    padded(y, 4) + seq!['-'] + padded(m, 2) + seq!['-'] + padded(d, 2) + seq![' ']
        + padded(rem / 3600, 2) + seq![':'] + padded((rem % 3600) / 60, 2)
}

fn split_epoch(secs: i64) -> (r: (i64, i64))
    ensures
        r.0 == day_of(secs as int),
        r.1 == second_of_day(secs as int),
        0 <= r.1 < 86400,
        r.0 <= i64::MAX - 719468,
{
    let day = secs.checked_div_euclid(86_400).unwrap();
    let rem = secs.checked_rem_euclid(86_400).unwrap();
    (day, rem)
}

fn push_date_digits(out: &mut String, day: i64)
    requires
        day <= i64::MAX - 719468,
    ensures
        ({
            let (y, m, d) = civil_of_days(day as int);
            final(out)@ == old(out)@ + padded(y, 4) + padded(m, 2) + padded(d, 2)
        }),
{
    let (y, m, d) = civil_from_days(day);
    push_padded(out, y, 4);
    push_padded(out, m as i64, 2);
    push_padded(out, d as i64, 2);
}

/// `secs` (UTC) as the EDS `make-time` string `YYYYMMDDTHHMMSSZ`.
pub fn epoch_to_make_time(secs: i64) -> (r: String)
    ensures
        r@ == make_time_text(secs as int),
{
    let (day, rem) = split_epoch(secs);
    let mut out = String::new();
    push_date_digits(&mut out, day);
    push_char(&mut out, 'T');
    push_padded(&mut out, rem / 3600, 2);
    push_padded(&mut out, (rem % 3600) / 60, 2);
    push_padded(&mut out, rem % 60, 2);
    push_char(&mut out, 'Z');
    assert(out@ =~= make_time_text(secs as int));
    out
}

/// `secs` (UTC) as `YYYYMMDD`, the text of an all-day `VALUE=DATE` value.
pub fn epoch_to_date(secs: i64) -> (r: String)
    ensures
        r@ == date_digits(secs as int),
{
    let (day, _rem) = split_epoch(secs);
    let mut out = String::new();
    push_date_digits(&mut out, day);
    assert(out@ =~= date_digits(secs as int));
    out
}

/// `secs` (UTC) as the human-readable `YYYY-MM-DD HH:MM`.
pub fn format_epoch(secs: i64) -> (r: String)
    ensures
        r@ == display_text(secs as int),
{
    let (day, rem) = split_epoch(secs);
    let (y, m, d) = civil_from_days(day);
    let mut out = String::new();
    push_padded(&mut out, y, 4);
    push_char(&mut out, '-');
    push_padded(&mut out, m as i64, 2);
    push_char(&mut out, '-');
    push_padded(&mut out, d as i64, 2);
    push_char(&mut out, ' ');
    push_padded(&mut out, rem / 3600, 2);
    push_char(&mut out, ':');
    push_padded(&mut out, (rem % 3600) / 60, 2);
    assert(out@ =~= display_text(secs as int));
    out
}

// ---------------------------------------------------------------------------
// Parsing ISO-8601-ish input
// ---------------------------------------------------------------------------

/// `input` trimmed, without trailing `Z`s, cut at its first `T` or space into
/// the date and the optional time text.
pub open spec fn iso_split(input: Seq<char>) -> (Seq<char>, Option<Seq<char>>) {
    let s = trim_end_char(trim(input), 'Z');
    match first_of_either(s, 'T', ' ') {
        Some(i) => (s.take(i), Some(s.skip(i + 1))),
        None => (s, None),
    }
}

/// Field `k` of the `:`-separated time text as an `i64`, 0 when missing or
/// unparsable.
pub open spec fn time_field(time: Seq<char>, k: int) -> int {
    let parts = split_on(time, ':');
    if k < parts.len() {
        match parse_i64(parts[k]) {
            Some(v) => v,
            None => 0,
        }
    } else {
        0
    }
}

/// The parsed fields `(year, month, day, hour, minute, second, has_time)`,
/// when the date has three `-`-separated parts that all parse.
pub open spec fn iso_fields(input: Seq<char>) -> Option<(int, int, int, int, int, int, bool)> {
    let (date, time) = iso_split(input);
    let parts = split_on(date, '-');
    if parts.len() != 3 {
        None
    } else {
        match (parse_i64(parts[0]), parse_u32(parts[1]), parse_u32(parts[2])) {
            (Some(y), Some(mo), Some(d)) => {
                let t = match time { Some(t) => t, None => Seq::<char>::empty() };
                Some((y, mo, d, time_field(t, 0), time_field(t, 1), time_field(t, 2), time is Some))
            },
            _ => None,
        }
    }
}

/// The instant the fields denote, in seconds since the epoch.
pub open spec fn iso_seconds(y: int, mo: int, d: int, h: int, mi: int, se: int) -> int {
    era_days(y, mo, d) * 86400 + h * 3600 + mi * 60 + se
}

/// The result of parsing `input`: the instant and whether a time was given,
/// or the error message.
pub open spec fn parse_iso_result(input: Seq<char>) -> Result<(int, bool), Seq<char>> {
    let (date, time) = iso_split(input);
    let parts = split_on(date, '-');
    if parts.len() != 3 {
        Err("invalid date \""@ + input + "\" (expected YYYY-MM-DD)"@)
    } else if parse_i64(parts[0]) is None {
        Err("invalid year in \""@ + input + "\""@)
    } else if parse_u32(parts[1]) is None {
        Err("invalid month in \""@ + input + "\""@)
    } else if parse_u32(parts[2]) is None {
        Err("invalid day in \""@ + input + "\""@)
    } else {
        let (y, mo, d, h, mi, se, has_time) = iso_fields(input).unwrap();
        Ok((iso_seconds(y, mo, d, h, mi, se), has_time))
    }
}

/// Evaluating the instant of the parsed fields stays within `i64`.
pub open spec fn iso_fits(input: Seq<char>) -> bool {
    match iso_fields(input) {
        Some((y, mo, d, h, mi, se, _)) => {
            let days = era_days(y, mo, d);
            &&& days_from_civil_fits(y, mo, d)
            &&& fits_i64(days * 86400)
            &&& fits_i64(h * 3600)
            &&& fits_i64(days * 86400 + h * 3600)
            &&& fits_i64(mi * 60)
            &&& fits_i64(days * 86400 + h * 3600 + mi * 60)
            &&& fits_i64(days * 86400 + h * 3600 + mi * 60 + se)
        },
        None => true,
    }
}

pub open spec fn iso_result_view(r: Result<(i64, bool), String>) -> Result<(int, bool), Seq<char>> {
    match r {
        Ok((v, t)) => Ok((v as int, t)),
        Err(e) => Err(e@),
    }
}

fn quoted_error(prefix: &str, input: &str, suffix: &str) -> (r: String)
    ensures
        r@ == prefix@ + input@ + suffix@,
{
    let mut out = String::new();
    push_str(&mut out, prefix);
    push_str(&mut out, input);
    push_str(&mut out, suffix);
    out
}

fn time_field_exec(parts: &Vec<Vec<char>>, k: usize) -> (r: i64)
    ensures
        r == (if k < parts@.len() {
            match parse_i64(parts@[k as int]@) { Some(v) => v, None => 0 }
        } else {
            0
        }),
{
    if k < parts.len() {
        match parse_integer_chars(parts[k].as_slice(), true, i64::MIN, i64::MAX) {
            Some(v) => v,
            None => 0,
        }
    } else {
        0
    }
}

/// The fields of an ISO-8601-ish input.
pub struct IsoFields {
    pub year: i64,
    pub month: u32,
    pub day: u32,
    pub hour: i64,
    pub minute: i64,
    pub second: i64,
    pub has_time: bool,
}

impl IsoFields {
    pub open spec fn tuple(&self) -> (int, int, int, int, int, int, bool) {
        (
            self.year as int,
            self.month as int,
            self.day as int,
            self.hour as int,
            self.minute as int,
            self.second as int,
            self.has_time,
        )
    }
}

/// Read the fields of `input`, or say why it is not a date.
fn parse_iso_fields(input: &str) -> (r: Result<IsoFields, String>)
    ensures
        match r {
            Ok(f) => iso_fields(input@) == Some(f.tuple()),
            Err(e) => iso_fields(input@) is None && parse_iso_result(input@) == Err::<(int, bool), Seq<char>>(e@),
        },
{
    let v = chars_of(input);
    let (lo, hi0) = trim_bounds(v.as_slice());
    let hi = trim_end_char_bound(v.as_slice(), lo, hi0, 'Z');
    let ghost s = v@.subrange(lo as int, hi as int);
    assert(s == trim_end_char(trim(input@), 'Z'));
    let cut = first_of_either_exec(v.as_slice(), lo, hi, 'T', ' ');
    let (date, time) = match cut {
        Some(i) => {
            assert(v@.subrange(lo as int, i as int) == s.take(i - lo));
            assert(v@.subrange(i + 1, hi as int) == s.skip(i - lo + 1));
            (slice_of(v.as_slice(), lo, i), Some(slice_of(v.as_slice(), i + 1, hi)))
        },
        None => (slice_of(v.as_slice(), lo, hi), None),
    };
    assert(date@ == iso_split(input@).0);
    let parts = split_chars(date.as_slice(), '-');
    if parts.len() != 3 {
        proof { reveal_strlit("invalid date \""); reveal_strlit("\" (expected YYYY-MM-DD)"); }
        return Err(quoted_error("invalid date \"", input, "\" (expected YYYY-MM-DD)"));
    }
    let y = match parse_integer_chars(parts[0].as_slice(), true, i64::MIN, i64::MAX) {
        Some(y) => y,
        None => {
            return Err(quoted_error("invalid year in \"", input, "\""));
        },
    };
    let mo = match parse_integer_chars(parts[1].as_slice(), false, 0, u32::MAX as i64) {
        Some(m) => m as u32,
        None => {
            return Err(quoted_error("invalid month in \"", input, "\""));
        },
    };
    let d = match parse_integer_chars(parts[2].as_slice(), false, 0, u32::MAX as i64) {
        Some(d) => d as u32,
        None => {
            return Err(quoted_error("invalid day in \"", input, "\""));
        },
    };
    let has_time = time.is_some();
    let tparts: Vec<Vec<char>> = match time {
        Some(t) => split_chars(t.as_slice(), ':'),
        None => split_chars(Vec::<char>::new().as_slice(), ':'),
    };
    let h = time_field_exec(&tparts, 0);
    let mi = time_field_exec(&tparts, 1);
    let se = time_field_exec(&tparts, 2);
    proof {
        let t = match iso_split(input@).1 { Some(t) => t, None => Seq::<char>::empty() };
        assert(tparts@.len() == split_on(t, ':').len());
        assert(h == time_field(t, 0));
        assert(mi == time_field(t, 1));
        assert(se == time_field(t, 2));
        assert(iso_fields(input@) == Some((y as int, mo as int, d as int, h as int, mi as int, se as int, has_time)));
    }
    Ok(IsoFields { year: y, month: mo, day: d, hour: h, minute: mi, second: se, has_time })
}

fn fits_i128(x: i128) -> (r: bool)
    ensures
        r == fits_i64(x as int),
{
    i64::MIN as i128 <= x && x <= i64::MAX as i128
}

/// Whether evaluating the instant of `f` stays within `i64`.
fn instant_fits(f: &IsoFields) -> (r: bool)
    ensures
        r == ({
            let (y, mo, d, h, mi, se, _) = f.tuple();
            let days = era_days(y, mo, d);
            &&& days_from_civil_fits(y, mo, d)
            &&& fits_i64(days * 86400)
            &&& fits_i64(h * 3600)
            &&& fits_i64(days * 86400 + h * 3600)
            &&& fits_i64(mi * 60)
            &&& fits_i64(days * 86400 + h * 3600 + mi * 60)
            &&& fits_i64(days * 86400 + h * 3600 + mi * 60 + se)
        }),
{
    let y = f.year as i128;
    let m = f.month as i128;
    let d = f.day as i128;
    let y1: i128 = if m <= 2 { y - 1 } else { y };
    let era: i128 = (if y1 >= 0 { y1 } else { y1 - 399 }) / 400;
    assert(era == y1 as int / 400);
    let yoe: i128 = y1 - era * 400;
    let doy: i128 = (153 * (if m > 2 { m - 3 } else { m + 9 }) + 2) / 5 + d - 1;
    let doe: i128 = yoe * 365 + yoe / 4 - yoe / 100 + doy;
    let days: i128 = era * 146_097 + doe - 719_468;
    let h = f.hour as i128;
    let mi = f.minute as i128;
    let se = f.second as i128;
    fits_i128(y1) && fits_i128(y1 - 399) && fits_i128(era * 146_097) && fits_i128(era * 146_097 + doe)
        && fits_i128(days) && fits_i128(days * 86_400) && fits_i128(h * 3600) && fits_i128(
        days * 86_400 + h * 3600,
    ) && fits_i128(mi * 60) && fits_i128(days * 86_400 + h * 3600 + mi * 60) && fits_i128(
        days * 86_400 + h * 3600 + mi * 60 + se,
    )
}

/// Whether `input` can be parsed without leaving `i64` (input that is not a
/// date at all qualifies: it is refused with an error).
pub fn iso_in_range(input: &str) -> (r: bool)
    ensures
        r == iso_fits(input@),
{
    match parse_iso_fields(input) {
        Ok(f) => instant_fits(&f),
        Err(_) => true,
    }
}

/// Whether `input` parses within `i64` and its instant moved by `shift`
/// seconds stays within `i64` too.
pub fn iso_shift_in_range(input: &str, shift: i64) -> (r: bool)
    ensures
        r == (iso_fits(input@) && match parse_iso_result(input@) {
            Ok((secs, _)) => fits_i64(secs + shift),
            Err(_) => true,
        }),
{
    if !iso_in_range(input) {
        return false;
    }
    match parse_iso(input) {
        Ok((secs, _)) => secs.checked_add(shift).is_some(),
        Err(_) => true,
    }
}

/// Whether `input` parses within `i64` and, when it is a bare date, the end
/// of that day does too.
pub fn date_end_in_range(input: &str) -> (r: bool)
    ensures
        r == (iso_fits(input@) && match parse_iso_result(input@) {
            Ok((secs, false)) => fits_i64(secs + 86400),
            _ => true,
        }),
{
    if !iso_in_range(input) {
        return false;
    }
    match parse_iso(input) {
        Ok((secs, false)) => secs.checked_add(86_400).is_some(),
        _ => true,
    }
}

/// Parse `YYYY-MM-DD` or `YYYY-MM-DD[T| ]HH:MM[:SS][Z]` (naive input is UTC)
/// into (seconds since the epoch, whether a time was given).
/// `YYYY-MM-DD` for a date.
pub open spec fn iso_date_text(y: int, m: int, d: int) -> Seq<char> {
    padded(y, 4) + seq!['-'] + padded(m, 2) + seq!['-'] + padded(d, 2)
}

/// `YYYY-MM-DDTHH:MM:SSZ` for an instant.
pub open spec fn iso_instant_text(y: int, m: int, d: int, h: int, mi: int, se: int) -> Seq<char> {
    iso_date_text(y, m, d) + seq!['T'] + padded(h, 2) + seq![':'] + padded(mi, 2) + seq![':'] + padded(se, 2)
        + seq!['Z']
}

proof fn lemma_no_char_in_digits(s: Seq<char>, c: char)
    requires
        all_digits(s),
        !is_ascii_digit(c),
    ensures
        !has_char(s, c),
{
    if has_char(s, c) {
        let i = choose|i: int| 0 <= i < s.len() && s[i] == c;
        assert(is_ascii_digit(s[i]));
    }
}

/// Three zero-padded numbers joined by `sep`: ten or eight characters of
/// digits and `sep`, split back into the three numbers.
proof fn lemma_three_fields(a: int, wa: int, b: int, c: int, sep: char)
    requires
        0 <= a,
        decimal(a as nat).len() <= wa,
        0 <= b < 100,
        0 <= c < 100,
        !is_ascii_digit(sep),
    ensures
        ({
            let s = padded(a, wa) + seq![sep] + padded(b, 2) + seq![sep] + padded(c, 2);
            &&& s.len() == wa + 6
            &&& forall|i: int| 0 <= i < s.len() ==> is_ascii_digit(#[trigger] s[i]) || s[i] == sep
            &&& split_on(s, sep) == seq![padded(a, wa), padded(b, 2), padded(c, 2)]
        }),
        all_digits(padded(a, wa)) && padded(a, wa).len() == wa && digits_value(padded(a, wa)) == a,
        all_digits(padded(b, 2)) && padded(b, 2).len() == 2 && digits_value(padded(b, 2)) == b,
        all_digits(padded(c, 2)) && padded(c, 2).len() == 2 && digits_value(padded(c, 2)) == c,
{
    let pa = padded(a, wa);
    let pb = padded(b, 2);
    let pc = padded(c, 2);
    lemma_decimal(a as nat);
    lemma_decimal(b as nat);
    lemma_decimal(c as nat);
    lemma_padded_digits(a, wa);
    lemma_padded_digits(b, 2);
    lemma_padded_digits(c, 2);
    let s = pa + seq![sep] + pb + seq![sep] + pc;
    assert forall|i: int| 0 <= i < s.len() implies is_ascii_digit(#[trigger] s[i]) || s[i] == sep by {
        if i < wa {
            assert(s[i] == pa[i]);
        } else if i == wa {
        } else if i < wa + 3 {
            assert(s[i] == pb[i - wa - 1]);
        } else if i == wa + 3 {
        } else {
            assert(s[i] == pc[i - wa - 4]);
        }
    }
    lemma_no_char_in_digits(pa, sep);
    lemma_no_char_in_digits(pb, sep);
    lemma_no_char_in_digits(pc, sep);
    lemma_split_on_none(pa, sep);
    lemma_split_on_append(pa, sep, pb);
    lemma_split_on_append(pa + seq![sep] + pb, sep, pc);
    assert(split_on(s, sep) =~= seq![pa, pb, pc]);
}

/// Zero-padded digits parse back as the number they write.
proof fn lemma_parse_padded(n: int, w: int)
    requires
        0 <= n <= u32::MAX,
        all_digits(padded(n, w)),
        padded(n, w).len() == w,
        w >= 1,
        digits_value(padded(n, w)) == n,
    ensures
        parse_i64(padded(n, w)) == Some(n),
        parse_u32(padded(n, w)) == Some(n),
{
    assert(is_ascii_digit(padded(n, w)[0]));
}

/// A date written `YYYY-MM-DD` parses as the start of that day with no time
/// given, and the `YYYYMMDD` text written for that instant is the same date.
pub proof fn law_iso_date_round_trip(y: int, m: int, d: int)
    requires
        is_valid_date(y, m, d),
        0 <= y <= 9999,
    ensures
        iso_fits(iso_date_text(y, m, d)),
        parse_iso_result(iso_date_text(y, m, d)) == Ok::<(int, bool), Seq<char>>(
            (days_since_epoch(y, m, d) * 86400, false),
        ),
        date_digits(days_since_epoch(y, m, d) * 86400) == padded(y, 4) + padded(m, 2) + padded(d, 2),
{
    lemma_decimal(y as nat);
    lemma_three_fields(y, 4, m, d, '-');
    let s = iso_date_text(y, m, d);
    lemma_parse_padded(y, 4);
    lemma_parse_padded(m, 2);
    lemma_parse_padded(d, 2);
    assert(!has_char(s, 'T') && !has_char(s, ' ')) by {
        if has_char(s, 'T') {
            let i = choose|i: int| 0 <= i < s.len() && s[i] == 'T';
            assert(is_ascii_digit(s[i]) || s[i] == '-');
        }
        if has_char(s, ' ') {
            let i = choose|i: int| 0 <= i < s.len() && s[i] == ' ';
            assert(is_ascii_digit(s[i]) || s[i] == '-');
        }
    }
    assert(is_ascii_digit(s[0]) || s[0] == '-');
    assert(s[0] == padded(y, 4)[0]);
    assert(s[9] == padded(d, 2)[1]);
    lemma_trim_none(s);
    assert(trim_end_char(s, 'Z') == s);
    lemma_first_of_either_none(s, 'T', ' ');
    assert(iso_split(s) == (s, Option::<Seq<char>>::None));
    let e = Seq::<char>::empty();
    assert(split_on(e, ':') == seq![e]);
    assert(parse_i64(e) is None);
    assert(time_field(e, 0) == 0 && time_field(e, 1) == 0 && time_field(e, 2) == 0);
    assert(iso_fields(s) == Some((y, m, d, 0int, 0int, 0int, false)));
    lemma_era_days_is_days_since_epoch(y, m, d);
    let z = days_since_epoch(y, m, d);
    assert((z * 86400) / 86400 == z) by (nonlinear_arith);
    lemma_civil_of_days_inverts(y, m, d);
}

/// An instant written `YYYY-MM-DDTHH:MM:SSZ` parses as that second of that
/// day, with a time given, and the `make-time` text written for it holds the
/// same date and time.
pub proof fn law_iso_instant_round_trip(y: int, m: int, d: int, h: int, mi: int, se: int)
    requires
        is_valid_date(y, m, d),
        0 <= y <= 9999,
        0 <= h < 24,
        0 <= mi < 60,
        0 <= se < 60,
    ensures
        iso_fits(iso_instant_text(y, m, d, h, mi, se)),
        parse_iso_result(iso_instant_text(y, m, d, h, mi, se)) == Ok::<(int, bool), Seq<char>>(
            (days_since_epoch(y, m, d) * 86400 + h * 3600 + mi * 60 + se, true),
        ),
        make_time_text(days_since_epoch(y, m, d) * 86400 + h * 3600 + mi * 60 + se) == padded(y, 4) + padded(m, 2)
            + padded(d, 2) + seq!['T'] + padded(h, 2) + padded(mi, 2) + padded(se, 2) + seq!['Z'],
{
    lemma_decimal(y as nat);
    lemma_three_fields(y, 4, m, d, '-');
    lemma_decimal(h as nat);
    lemma_three_fields(h, 2, mi, se, ':');
    lemma_parse_padded(y, 4);
    lemma_parse_padded(m, 2);
    lemma_parse_padded(d, 2);
    lemma_parse_padded(h, 2);
    lemma_parse_padded(mi, 2);
    lemma_parse_padded(se, 2);
    let date = iso_date_text(y, m, d);
    let time = padded(h, 2) + seq![':'] + padded(mi, 2) + seq![':'] + padded(se, 2);
    let s = iso_instant_text(y, m, d, h, mi, se);
    let u = date + seq!['T'] + time;
    assert(s =~= u + seq!['Z']);
    assert(!has_char(date, 'T') && !has_char(date, ' ')) by {
        if has_char(date, 'T') {
            let i = choose|i: int| 0 <= i < date.len() && date[i] == 'T';
            assert(is_ascii_digit(date[i]) || date[i] == '-');
        }
        if has_char(date, ' ') {
            let i = choose|i: int| 0 <= i < date.len() && date[i] == ' ';
            assert(is_ascii_digit(date[i]) || date[i] == '-');
        }
    }
    assert(s[0] == date[0]);
    assert(is_ascii_digit(date[0]) || date[0] == '-');
    assert(date[0] == padded(y, 4)[0]);
    lemma_trim_none(s);
    assert(s.drop_last() =~= u);
    assert(u.last() == time.last());
    assert(time.last() == padded(se, 2)[1]);
    assert(trim_end_char(u, 'Z') == u);
    assert(trim_end_char(s, 'Z') == u);
    lemma_first_of_either_at(date, 'T', time, 'T', ' ');
    assert(u.take(10) =~= date);
    assert(u.skip(11) =~= time);
    assert(iso_split(s) == (date, Some(time)));
    assert(time_field(time, 0) == h && time_field(time, 1) == mi && time_field(time, 2) == se);
    assert(iso_fields(s) == Some((y, m, d, h, mi, se, true)));
    lemma_era_days_is_days_since_epoch(y, m, d);
    let z = days_since_epoch(y, m, d);
    let r = h * 3600 + mi * 60 + se;
    let secs = z * 86400 + r;
    assert(secs / 86400 == z && secs % 86400 == r) by (nonlinear_arith)
        requires
            secs == z * 86400 + r,
            0 <= r < 86400,
    ;
    assert(r / 3600 == h && (r % 3600) / 60 == mi && r % 60 == se) by (nonlinear_arith)
        requires
            r == h * 3600 + mi * 60 + se,
            0 <= h < 24,
            0 <= mi < 60,
            0 <= se < 60,
    ;
    lemma_civil_of_days_inverts(y, m, d);
}

/// The display text of an instant parses back as that instant to the
/// minute, and its date part as the start of that day.
pub proof fn law_display_text_parses_back(secs: int)
    requires
        0 <= civil_of_days(day_of(secs)).0 <= 9999,
    ensures
        parse_iso_result(display_text(secs)) == Ok::<(int, bool), Seq<char>>((secs - secs % 60, true)),
        parse_iso_result(display_text(secs).take(10)) == Ok::<(int, bool), Seq<char>>((secs - secs % 86400, false)),
{
    let z = day_of(secs);
    let (y, m, d) = civil_of_days(z);
    law_civil_of_days_round_trip(z);
    let r = second_of_day(secs);
    assert(secs == z * 86400 + r && 0 <= r < 86400) by (nonlinear_arith)
        requires
            z == secs / 86400,
            r == secs % 86400,
    ;
    let h = r / 3600;
    let mi = (r % 3600) / 60;
    assert(0 <= h < 24 && 0 <= mi < 60);
    assert(secs % 60 == r % 60 && r == h * 3600 + mi * 60 + r % 60) by (nonlinear_arith)
        requires
            secs == z * 86400 + r,
            0 <= r < 86400,
            h == r / 3600,
            mi == (r % 3600) / 60,
    ;
    lemma_decimal(y as nat);
    lemma_three_fields(y, 4, m, d, '-');
    lemma_parse_padded(y, 4);
    lemma_parse_padded(m, 2);
    lemma_parse_padded(d, 2);
    lemma_decimal(h as nat);
    lemma_decimal(mi as nat);
    lemma_padded_digits(h, 2);
    lemma_padded_digits(mi, 2);
    lemma_parse_padded(h, 2);
    lemma_parse_padded(mi, 2);
    let date = iso_date_text(y, m, d);
    let ph = padded(h, 2);
    let pm = padded(mi, 2);
    let time = ph + seq![':'] + pm;
    let s = display_text(secs);
    assert(s =~= date + seq![' '] + time);
    assert(s.take(10) =~= date);
    law_iso_date_round_trip(y, m, d);
    assert((z * 86400) % 86400 == 0) by (nonlinear_arith);
    assert(!has_char(date, 'T') && !has_char(date, ' ')) by {
        if has_char(date, 'T') {
            let i = choose|i: int| 0 <= i < date.len() && date[i] == 'T';
            assert(is_ascii_digit(date[i]) || date[i] == '-');
        }
        if has_char(date, ' ') {
            let i = choose|i: int| 0 <= i < date.len() && date[i] == ' ';
            assert(is_ascii_digit(date[i]) || date[i] == '-');
        }
    }
    assert(s[0] == date[0]);
    assert(date[0] == padded(y, 4)[0]);
    assert(s.last() == pm[1]);
    lemma_trim_none(s);
    assert(trim_end_char(s, 'Z') == s);
    lemma_first_of_either_at(date, ' ', time, 'T', ' ');
    assert(s.take(10) =~= date);
    assert(s.skip(11) =~= time);
    assert(iso_split(s) == (date, Some(time)));
    lemma_no_char_in_digits(ph, ':');
    lemma_no_char_in_digits(pm, ':');
    lemma_split_on_none(ph, ':');
    lemma_split_on_append(ph, ':', pm);
    assert(split_on(time, ':') =~= seq![ph, pm]);
    assert(time_field(time, 0) == h && time_field(time, 1) == mi && time_field(time, 2) == 0);
    assert(iso_fields(s) == Some((y, m, d, h, mi, 0int, true)));
    lemma_era_days_is_days_since_epoch(y, m, d);
}

/// `(y1, m1, d1)` comes before `(y2, m2, d2)` on the calendar.
pub open spec fn date_before(y1: int, m1: int, d1: int, y2: int, m2: int, d2: int) -> bool {
    y1 < y2 || (y1 == y2 && (m1 < m2 || (m1 == m2 && d1 < d2)))
}

proof fn lemma_next_year_start(y: int)
    ensures
        days_since_epoch(y + 1, 1, 1) == days_since_epoch(y, 12, 31) + 1,
{
    let l: int = if is_leap_year(y) { 1 } else { 0 };
    assert(leap_days_before(y + 1) == leap_days_before(y) + l) by {
        let q4 = (y - 1) / 4;
        let q100 = (y - 1) / 100;
        let q400 = (y - 1) / 400;
        assert(y / 4 == q4 + (if y % 4 == 0 { 1int } else { 0int })) by (nonlinear_arith)
            requires q4 == (y - 1) / 4;
        assert(y / 100 == q100 + (if y % 100 == 0 { 1int } else { 0int })) by (nonlinear_arith)
            requires q100 == (y - 1) / 100;
        assert(y / 400 == q400 + (if y % 400 == 0 { 1int } else { 0int })) by (nonlinear_arith)
            requires q400 == (y - 1) / 400;
        assert(y % 400 == 0 ==> y % 100 == 0 && y % 4 == 0) by (nonlinear_arith);
        assert(y % 100 == 0 ==> y % 4 == 0) by (nonlinear_arith);
    }
}

proof fn lemma_year_starts_increase(y1: int, y2: int)
    requires
        y1 < y2,
    ensures
        days_since_epoch(y1, 12, 31) < days_since_epoch(y2, 1, 1),
    decreases y2 - y1,
{
    lemma_next_year_start(y1);
    if y1 + 1 < y2 {
        lemma_year_starts_increase(y1 + 1, y2);
    }
}

/// Earlier dates fall on earlier days.
pub proof fn lemma_days_increase(y1: int, m1: int, d1: int, y2: int, m2: int, d2: int)
    requires
        is_valid_date(y1, m1, d1),
        is_valid_date(y2, m2, d2),
        date_before(y1, m1, d1, y2, m2, d2),
    ensures
        days_since_epoch(y1, m1, d1) < days_since_epoch(y2, m2, d2),
{
    if y1 < y2 {
        assert(days_since_epoch(y1, m1, d1) <= days_since_epoch(y1, 12, 31));
        lemma_year_starts_increase(y1, y2);
        assert(days_since_epoch(y2, 1, 1) <= days_since_epoch(y2, m2, d2));
    } else if m1 < m2 {
        assert(days_before_month(y1, m1) + days_in_month(y1, m1) <= days_before_month(y1, m2));
    }
}

pub fn parse_iso(input: &str) -> (r: Result<(i64, bool), String>)
    requires
        iso_fits(input@),
    ensures
        iso_result_view(r) == parse_iso_result(input@),
{
    let f = parse_iso_fields(input)?;
    let days = days_from_civil(f.year, f.month, f.day);
    Ok((days * 86_400 + f.hour * 3600 + f.minute * 60 + f.second, f.has_time))
}

// ---------------------------------------------------------------------------
// The clock
// ---------------------------------------------------------------------------

/// `std::time::SystemTime`, carried as an opaque value.
#[verifier::external_type_specification]
#[verifier::external_body]
pub struct ExSystemTime(std::time::SystemTime);

/// `SystemTime::now`: the current wall-clock time; nothing is known of it.
#[verifier::external_body]
fn system_now() -> std::time::SystemTime {
    std::time::SystemTime::now()
}

/// Whole seconds from the Unix epoch to `t` (`SystemTime::duration_since`),
/// `None` when `t` lies before the epoch.
#[verifier::external_body]
fn whole_seconds_since_unix_epoch(t: &std::time::SystemTime) -> Option<u64> {
    t.duration_since(std::time::UNIX_EPOCH).ok().map(|d| d.as_secs())
}

/// Seconds since the epoch as an `i64`, from a clock reading in whole
/// seconds (`None` when the clock reads before 1970).
pub open spec fn epoch_value(reading: Option<u64>) -> i64 {
    match reading {
        Some(s) => s as i64,
        None => 0,
    }
}

/// The time a clock reading stands for, in whole seconds since the epoch (0
/// for a reading before 1970).
pub fn epoch_seconds(reading: Option<u64>) -> (r: i64)
    ensures
        r == epoch_value(reading),
{
    match reading {
        Some(secs) => secs as i64,
        None => 0,
    }
}

/// The current time in whole seconds since the epoch (0 when the clock reads
/// before 1970). Which reading the clock gives is not known; the result is
/// what [`epoch_seconds`] makes of it.
pub fn now_epoch() -> (r: i64)
    ensures
        exists|reading: Option<u64>| r == epoch_value(reading),
{
    let now = system_now();
    let reading = whole_seconds_since_unix_epoch(&now);
    epoch_seconds(reading)
}

} // verus!
