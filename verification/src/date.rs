//! Civil (proleptic Gregorian, UTC) date-time arithmetic and the lexical
//! `YYYY-MM-DD_HH:MM` timestamp token of the log format.
//!
//! The mapping between civil fields and Unix epoch seconds is stated
//! exactly by `epoch_of`; the two conversions themselves are delegated to
//! chrono and trusted against that statement.
use vstd::prelude::*;
use vstd::string::StrSliceExecFns;
use vstd::string::StringExecFns;

verus! {

/// A leap year of the proleptic Gregorian calendar.
pub open spec fn is_leap_year(y: int) -> bool {
    y % 4 == 0 && (y % 100 != 0 || y % 400 == 0)
}

/// Days in month `m` (1-based) of year `y`.
pub open spec fn days_in_month(y: int, m: int) -> int {
    if m == 2 {
        if is_leap_year(y) {
            29
        } else {
            28
        }
    } else if m == 4 || m == 6 || m == 9 || m == 11 {
        30
    } else {
        31
    }
}

/// Days of year `y` that lie before month `m` (1-based).
pub open spec fn days_before_month(y: int, m: int) -> int
    decreases m,
{
    if m <= 1 {
        0
    } else {
        days_before_month(y, m - 1) + days_in_month(y, m - 1)
    }
}

/// Leap days inserted between 1970-01-01 and the start of year `y`:
/// the leap years in `[1970, y)` counted by inclusion-exclusion
/// (`477` is that count up to the end of 1969).
pub open spec fn leap_days_before(y: int) -> int {
    (y - 1) / 4 - (y - 1) / 100 + (y - 1) / 400 - 477
}

/// Whole days from 1970-01-01 to the civil date `y`-`m`-`d`.
pub open spec fn days_from_epoch(y: int, m: int, d: int) -> int {
    365 * (y - 1970) + leap_days_before(y) + days_before_month(y, m) + (d - 1)
}

/// Unix epoch seconds of the civil UTC date-time `y`-`m`-`d` `h`:`mi`.
pub open spec fn epoch_of(y: int, m: int, d: int, h: int, mi: int) -> int {
    days_from_epoch(y, m, d) * 86400 + h * 3600 + mi * 60
}

/// A civil date-time this library accepts: a real calendar date between
/// 1970 and 9999 (the years the four-digit log format can carry), at
/// minute resolution.
pub open spec fn valid_civil(y: int, m: int, d: int, h: int, mi: int) -> bool {
    &&& 1970 <= y <= 9999
    &&& 1 <= m <= 12
    &&& 1 <= d <= days_in_month(y, m)
    &&& 0 <= h < 24
    &&& 0 <= mi < 60
}

/// Relies on chrono's `TimeZone::with_ymd_and_hms` on `Utc` and
/// `DateTime::timestamp`: the Unix timestamp of a valid civil UTC
/// date-time of the proleptic Gregorian calendar, which is exactly the
/// day/leap-day count stated by `epoch_of`.
#[verifier::external_body]
fn civil_to_epoch(y: u32, m: u32, d: u32, h: u32, mi: u32) -> (r: u64)
    requires
        valid_civil(y as int, m as int, d as int, h as int, mi as int),
    ensures
        r == epoch_of(y as int, m as int, d as int, h as int, mi as int),
{
    match chrono::TimeZone::with_ymd_and_hms(&chrono::Utc, y as i32, m, d, h, mi, 0).single() {
        Some(t) => t.timestamp() as u64,
        None => 0,
    }
}

/// Relies on chrono's `DateTime::from_timestamp` and the
/// `Datelike`/`Timelike` accessors: the civil UTC fields of a Unix
/// timestamp; truncating the seconds yields the epoch value back.
#[verifier::external_body]
fn epoch_to_civil(e: u64) -> (r: (u32, u32, u32, u32, u32))
    requires
        e <= 253402300799,  // 9999-12-31 23:59:59, the last second the format can carry
    ensures
        valid_civil(r.0 as int, r.1 as int, r.2 as int, r.3 as int, r.4 as int),
        epoch_of(r.0 as int, r.1 as int, r.2 as int, r.3 as int, r.4 as int) == e - (e % 60),
{
    let t = chrono::DateTime::<chrono::Utc>::from_timestamp(e as i64, 0).unwrap();
    (
        chrono::Datelike::year(&t) as u32,
        chrono::Datelike::month(&t),
        chrono::Datelike::day(&t),
        chrono::Timelike::hour(&t),
        chrono::Timelike::minute(&t),
    )
}

/// Executable mirror of `days_in_month`.
pub fn days_in_month_exec(y: u32, m: u32) -> (r: u32)
    ensures
        r == days_in_month(y as int, m as int),
{
    if m == 2 {
        if y % 4 == 0 && (y % 100 != 0 || y % 400 == 0) {
            29
        } else {
            28
        }
    } else if m == 4 || m == 6 || m == 9 || m == 11 {
        30
    } else {
        31
    }
}

/// Executable mirror of `valid_civil`.
pub fn check_civil(y: u32, m: u32, d: u32, h: u32, mi: u32) -> (r: bool)
    ensures
        r == valid_civil(y as int, m as int, d as int, h as int, mi as int),
{
    1970 <= y && y <= 9999 && 1 <= m && m <= 12 && 1 <= d && d <= days_in_month_exec(y, m)
        && h < 24 && mi < 60
}

/// A decimal digit.
pub open spec fn is_digit(c: char) -> bool {
    48 <= c as int <= 57
}

/// The numeric value of a decimal digit.
pub open spec fn digit_val(c: char) -> int {
    c as int - 48
}

/// The token has the shape `YYYY-MM-DD_HH:MM`, all sixteen characters.
pub open spec fn is_ts_token(s: Seq<char>) -> bool {
    &&& s.len() == 16
    &&& is_digit(s[0])
    &&& is_digit(s[1])
    &&& is_digit(s[2])
    &&& is_digit(s[3])
    &&& s[4] == '-'
    &&& is_digit(s[5])
    &&& is_digit(s[6])
    &&& s[7] == '-'
    &&& is_digit(s[8])
    &&& is_digit(s[9])
    &&& s[10] == '_'
    &&& is_digit(s[11])
    &&& is_digit(s[12])
    &&& s[13] == ':'
    &&& is_digit(s[14])
    &&& is_digit(s[15])
}

pub open spec fn ts_year(s: Seq<char>) -> int {
    digit_val(s[0]) * 1000 + digit_val(s[1]) * 100 + digit_val(s[2]) * 10 + digit_val(s[3])
}

pub open spec fn ts_month(s: Seq<char>) -> int {
    digit_val(s[5]) * 10 + digit_val(s[6])
}

pub open spec fn ts_day(s: Seq<char>) -> int {
    digit_val(s[8]) * 10 + digit_val(s[9])
}

pub open spec fn ts_hour(s: Seq<char>) -> int {
    digit_val(s[11]) * 10 + digit_val(s[12])
}

pub open spec fn ts_minute(s: Seq<char>) -> int {
    digit_val(s[14]) * 10 + digit_val(s[15])
}

/// The epoch value carried by a timestamp token, if the token is
/// well-shaped and names a real date.
pub open spec fn ts_token_value(s: Seq<char>) -> Option<u64> {
    if is_ts_token(s) && valid_civil(ts_year(s), ts_month(s), ts_day(s), ts_hour(s), ts_minute(s)) {
        Some(epoch_of(ts_year(s), ts_month(s), ts_day(s), ts_hour(s), ts_minute(s)) as u64)
    } else {
        None
    }
}

/// Reads one character as a decimal digit.
fn digit_at(s: &Vec<char>, i: usize) -> (r: Option<u32>)
    requires
        i < s@.len(),
    ensures
        r is Some <==> is_digit(s@[i as int]),
        r is Some ==> r->Some_0 == digit_val(s@[i as int]) && r->Some_0 <= 9,
{
    let c: char = s[i];
    if '0' <= c && c <= '9' {
        Some(c as u32 - 48)
    } else {
        None
    }
}

/// Parses the slice `s[from..to]` as a `YYYY-MM-DD_HH:MM` token.
pub fn parse_ts_token(s: &Vec<char>, from: usize, to: usize) -> (r: Option<u64>)
    requires
        from <= to <= s@.len(),
    ensures
        r == ts_token_value(s@.subrange(from as int, to as int)),
{
    let ghost tok = s@.subrange(from as int, to as int);
    if to - from != 16 {
        return None;
    }
    assert(forall|k: int| 0 <= k < 16 ==> tok[k] == s@[from + k]);
    if !(s[from + 4] == '-' && s[from + 7] == '-' && s[from + 10] == '_' && s[from + 13] == ':') {
        return None;
    }
    let d0 = digit_at(s, from);
    let d1 = digit_at(s, from + 1);
    let d2 = digit_at(s, from + 2);
    let d3 = digit_at(s, from + 3);
    let d5 = digit_at(s, from + 5);
    let d6 = digit_at(s, from + 6);
    let d8 = digit_at(s, from + 8);
    let d9 = digit_at(s, from + 9);
    let d11 = digit_at(s, from + 11);
    let d12 = digit_at(s, from + 12);
    let d14 = digit_at(s, from + 14);
    let d15 = digit_at(s, from + 15);
    match (d0, d1, d2, d3, d5, d6, d8, d9, d11, d12, d14, d15) {
        (
            Some(d0),
            Some(d1),
            Some(d2),
            Some(d3),
            Some(d5),
            Some(d6),
            Some(d8),
            Some(d9),
            Some(d11),
            Some(d12),
            Some(d14),
            Some(d15),
        ) => {
            assert(is_ts_token(tok));
            let y: u32 = d0 * 1000 + d1 * 100 + d2 * 10 + d3;
            let m: u32 = d5 * 10 + d6;
            let d: u32 = d8 * 10 + d9;
            let h: u32 = d11 * 10 + d12;
            let mi: u32 = d14 * 10 + d15;
            if check_civil(y, m, d, h, mi) {
                Some(civil_to_epoch(y, m, d, h, mi))
            } else {
                None
            }
        },
        _ => {
            assert(!is_ts_token(tok));
            None
        },
    }
}

/// One decimal digit as a character.
fn digit_char(v: u32) -> (c: char)
    requires
        v <= 9,
    ensures
        is_digit(c),
        digit_val(c) == v as int,
{
    (48 + v as u8) as char
}

/// Renders `e` as a `YYYY-MM-DD_HH:MM` token (UTC, minute resolution).
///
/// The bound on `e` keeps the year within the four digits of the format.
#[verifier::rlimit(50)]
pub fn format_timestamp(e: u64) -> (r: String)
    requires
        e <= 253402300799,
    ensures
        ts_token_value(r@) == Some((e - (e % 60)) as u64),
        is_ts_token(r@),
{
    let (y, m, d, h, mi) = epoch_to_civil(e);
    let c0 = digit_char(y / 1000);
    let c1 = digit_char((y / 100) % 10);
    let c2 = digit_char((y / 10) % 10);
    let c3 = digit_char(y % 10);
    let c5 = digit_char(m / 10);
    let c6 = digit_char(m % 10);
    let c8 = digit_char(d / 10);
    let c9 = digit_char(d % 10);
    let c11 = digit_char(h / 10);
    let c12 = digit_char(h % 10);
    let c14 = digit_char(mi / 10);
    let c15 = digit_char(mi % 10);
    let mut out: Vec<char> = Vec::new();
    out.push(c0);
    out.push(c1);
    out.push(c2);
    out.push(c3);
    out.push('-');
    out.push(c5);
    out.push(c6);
    out.push('-');
    out.push(c8);
    out.push(c9);
    out.push('_');
    out.push(c11);
    out.push(c12);
    out.push(':');
    out.push(c14);
    out.push(c15);
    proof {
        assert(out@ =~= seq![
            c0,
            c1,
            c2,
            c3,
            '-',
            c5,
            c6,
            '-',
            c8,
            c9,
            '_',
            c11,
            c12,
            ':',
            c14,
            c15,
        ]);
        assert(is_ts_token(out@));
        assert(ts_year(out@) == y as int) by {
            assert(y as int == (y as int / 10) * 10 + y as int % 10);
            assert(y as int / 10 == (y as int / 100) * 10 + (y as int / 10) % 10) by {
                assert(y as int / 10 / 10 == y as int / 100) by (nonlinear_arith);
            }
            assert(y as int / 100 == (y as int / 1000) * 10 + (y as int / 100) % 10) by {
                assert(y as int / 100 / 10 == y as int / 1000) by (nonlinear_arith);
            }
        }
        assert(ts_month(out@) == m as int);
        assert(ts_day(out@) == d as int);
        assert(ts_hour(out@) == h as int);
        assert(ts_minute(out@) == mi as int);
    }
    crate::chars::chars_to_string(&out)
}

} // verus!
