//! Civil time of a capture: a UNIX timestamp with the local UTC offset that
//! applied to it. Calendar formatting is chrono's; hours, minutes and seconds
//! of the local day are arithmetic on the offset timestamp.
use vstd::prelude::*;
use chrono::Datelike;
use crate::text::{push_char, push_signed_decimal, signed_decimal};

verus! {

/// A capture instant as the local clock showed it.
#[derive(Clone, Copy, Debug, PartialEq, Eq, Structural)]
pub struct LocalTime {
    /// Seconds since the UNIX epoch (UTC).
    pub timestamp: i64,
    /// Nanoseconds within that second.
    pub nanos: u32,
    /// Offset of local time east of UTC, in seconds.
    pub offset: i32,
}

/// `DateTime<FixedOffset>::to_rfc3339_opts(SecondsFormat::Millis, true)` of the
/// instant, or `None` where chrono cannot represent it.
pub uninterp spec fn chrono_rfc3339_millis(timestamp: i64, nanos: u32, offset: i32) -> Option<
    Seq<char>,
>;

/// `DateTime<FixedOffset>::format("%Y-%m-%d")` of the instant (the local
/// calendar day), or `None` where chrono cannot represent it.
pub uninterp spec fn chrono_local_day(timestamp: i64, offset: i32) -> Option<Seq<char>>;

/// `NaiveDate::from_ymd_opt(year, month, day)` formatted with `"%Y-%m-%d"`,
/// or `None` where chrono has no such date.
pub uninterp spec fn chrono_format_day(year: i32, month: u32, day: u32) -> Option<Seq<char>>;

/// A day `YYYY-MM-DD` exactly as chrono writes it: it reads as a date that
/// formats back to the same text.
pub open spec fn chrono_canonical_day(text: Seq<char>) -> bool {
    match chrono_parse_day(text) {
        Some(d) => chrono_format_day(d.0, d.1, d.2) == Some(text),
        None => false,
    }
}

/// `NaiveDate::parse_from_str(text, "%Y-%m-%d")` as (year, month, day).
pub uninterp spec fn chrono_parse_day(text: Seq<char>) -> Option<(i32, u32, u32)>;

/// Formats the instant with chrono as RFC 3339 with milliseconds (`Z` for UTC).
#[verifier::external_body]
pub(crate) fn rfc3339_millis(t: &LocalTime) -> (r: Option<String>)
    ensures
        match r {
            Some(s) => chrono_rfc3339_millis(t.timestamp, t.nanos, t.offset) == Some(s@),
            None => chrono_rfc3339_millis(t.timestamp, t.nanos, t.offset) is None,
        },
{
    let offset = chrono::FixedOffset::east_opt(t.offset)?;
    let utc = chrono::DateTime::from_timestamp(t.timestamp, t.nanos)?;
    Some(utc.with_timezone(&offset).to_rfc3339_opts(chrono::SecondsFormat::Millis, true))
}

/// The local calendar day of the instant, `YYYY-MM-DD`, formatted by chrono.
#[verifier::external_body]
pub(crate) fn local_day(t: &LocalTime) -> (r: Option<String>)
    ensures
        match r {
            Some(s) => chrono_local_day(t.timestamp, t.offset) == Some(s@),
            None => chrono_local_day(t.timestamp, t.offset) is None,
        },
{
    let offset = chrono::FixedOffset::east_opt(t.offset)?;
    let utc = chrono::DateTime::from_timestamp(t.timestamp, 0)?;
    Some(utc.with_timezone(&offset).format("%Y-%m-%d").to_string())
}

/// The text chrono writes for a date (`%Y-%m-%d`).
#[verifier::external_body]
fn format_day(year: i32, month: u32, day: u32) -> (r: Option<String>)
    ensures
        match r {
            Some(s) => chrono_format_day(year, month, day) == Some(s@),
            None => chrono_format_day(year, month, day) is None,
        },
{
    Some(chrono::NaiveDate::from_ymd_opt(year, month, day)?.format("%Y-%m-%d").to_string())
}

/// Whether `text` is a day `YYYY-MM-DD` exactly as chrono writes it.
pub fn canonical_day(text: &str) -> (r: bool)
    ensures
        r == chrono_canonical_day(text@),
{
    match parse_day(text) {
        None => false,
        Some((y, m, d)) => match format_day(y, m, d) {
            None => false,
            Some(s) => crate::text::same_text(&crate::text::to_chars(s.as_str()), &crate::text::to_chars(text)),
        },
    }
}

/// The date that chrono reads in `text` (`%Y-%m-%d`), as (year, month, day).
#[verifier::external_body]
pub(crate) fn parse_day(text: &str) -> (r: Option<(i32, u32, u32)>)
    ensures
        r == chrono_parse_day(text@),
{
    let d = chrono::NaiveDate::parse_from_str(text, "%Y-%m-%d").ok()?;
    Some((d.year(), d.month(), d.day()))
}

/// Seconds elapsed in the local day (Euclidean remainder).
pub open spec fn second_of_day(t: LocalTime) -> int {
    (t.timestamp + t.offset) % 86400
}

/// Local hour, 0 to 23.
pub open spec fn local_hour(t: LocalTime) -> int {
    second_of_day(t) / 3600
}

/// UTC timestamp of the start of the local hour containing the instant.
pub open spec fn hour_start(t: LocalTime) -> int {
    t.timestamp - second_of_day(t) % 3600
}

/// Offset that maps every `i64` plus an offset of `i32` seconds to a nonnegative
/// number, and is a multiple of a day.
const SHIFT: u128 = 86400 * 0x1_0000_0000_0000;

fn second_of_day_exec(t: &LocalTime) -> (r: u32)
    ensures
        r == second_of_day(*t),
        r < 86400,
{
    let x: i128 = t.timestamp as i128 + t.offset as i128;
    let u: u128 = (x + SHIFT as i128) as u128;
    let r = (u % 86400) as u32;
    assert(r == second_of_day(*t)) by (nonlinear_arith)
        requires
            u == x + SHIFT,
            SHIFT == 86400 * 0x1_0000_0000_0000,
            r == u % 86400,
            x == t.timestamp + t.offset,
    {
    }
    r
}

/// The local hour of the instant, 0 to 23.
pub fn hour_of(t: &LocalTime) -> (r: u32)
    ensures
        r == local_hour(*t),
        r < 24,
{
    second_of_day_exec(t) / 3600
}

/// UTC timestamp of the start of the local hour of the instant, if it fits `i64`.
pub fn hour_start_of(t: &LocalTime) -> (r: Option<i64>)
    ensures
        match r {
            Some(h) => h == hour_start(*t),
            None => hour_start(*t) < i64::MIN,
        },
{
    let within = (second_of_day_exec(t) % 3600) as i64;
    t.timestamp.checked_sub(within)
}

/// UTC timestamp of the start of the local hour of the instant, computed wide.
pub fn hour_start_wide(t: &LocalTime) -> (r: i128)
    ensures
        r == hour_start(*t),
{
    t.timestamp as i128 - (second_of_day_exec(t) % 3600) as i128
}

/// Two-digit writing of a number below 100 (as `%H` writes an hour).
pub open spec fn two_digits(n: int) -> Seq<char> {
    seq![crate::text::digit_char((n / 10) as nat), crate::text::digit_char((n % 10) as nat)]
}

/// Appends a number below 100 as two digits.
pub fn push_two_digits(out: &mut String, n: u32)
    requires
        n < 100,
    ensures
        final(out)@ == old(out)@ + two_digits(n as int),
{
    let tens = ((n / 10) + 48) as u8 as char;
    let ones = ((n % 10) + 48) as u8 as char;
    push_char(out, tens);
    push_char(out, ones);
    assert(final(out)@ =~= old(out)@ + two_digits(n as int));
}

} // verus!
