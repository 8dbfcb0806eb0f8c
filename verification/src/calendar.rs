//! Calendar facts the library takes from chrono.
//!
//! Days are counted as chrono counts them: day 1 is January 1 of year 1
//! in the proleptic Gregorian calendar, so the Unix epoch falls on day
//! 719163. The ISO week of a day number and the UTC RFC 3339 form of a
//! timestamp are functions of their argument alone and are carried as
//! named results; which local day a timestamp falls on depends on the
//! machine's time zone, so it is pinned only to within one day of the
//! UTC day.

use vstd::prelude::*;

verus! {

/// The ISO 8601 week a day number falls in, as (week-based year, week).
pub uninterp spec fn iso_week_of(day: int) -> (int, int);

/// The UTC RFC 3339 rendering of a Unix timestamp, with a trailing `Z`.
pub uninterp spec fn rfc3339_utc_of(ts: int) -> Seq<u8>;

/// Relies on chrono's `NaiveDate::from_num_days_from_ce_opt` (defined on
/// this range) and `Datelike::iso_week`: the ISO week is a function of
/// the day number alone.
#[verifier::external_body]
pub fn iso_week_of_day(day: i64) -> (r: (i64, i64))
    requires
        1 <= day <= 3000000,
    ensures
        (r.0 as int, r.1 as int) == iso_week_of(day as int),
{
    let date = chrono::NaiveDate::from_num_days_from_ce_opt(day as i32).unwrap();
    let week = chrono::Datelike::iso_week(&date);
    (week.year() as i64, week.week() as i64)
}

/// Relies on chrono's `DateTime::from_timestamp` (defined on this range)
/// and `to_rfc3339_opts` with seconds precision and a `Z` suffix: the
/// rendering is a function of the timestamp alone.
#[verifier::external_body]
pub fn format_rfc3339_utc(ts: i64) -> (r: Vec<u8>)
    requires
        -8000000000000 <= ts <= 8000000000000,
    ensures
        r@ == rfc3339_utc_of(ts as int),
{
    let dt = chrono::DateTime::from_timestamp(ts, 0).unwrap();
    dt.to_rfc3339_opts(chrono::SecondsFormat::Secs, true).into_bytes()
}

/// Relies on chrono's `DateTime::from_timestamp` (defined on this range;
/// the UTC day it lands on is, by its construction, day number
/// `719163 + ts.div_euclid(86400)`), `with_timezone` with the machine's
/// local zone (a `FixedOffset`, which chrono keeps strictly under one
/// day), and `Datelike::num_days_from_ce`. Which of the up-to-three
/// candidate days comes back depends on the machine's zone, so only the
/// band around the UTC day is stated.
#[verifier::external_body]
pub fn local_day_of(ts: i64) -> (r: i64)
    requires
        -8000000000000 <= ts <= 8000000000000,
    ensures
        719163 + (ts as int) / 86400 - 1 <= r <= 719163 + (ts as int) / 86400 + 1,
{
    let dt = chrono::DateTime::from_timestamp(ts, 0).unwrap();
    let local = dt.with_timezone(&chrono::Local);
    chrono::Datelike::num_days_from_ce(&local.date_naive()) as i64
}

/// Relies on chrono's `Local::now` and `Datelike::num_days_from_ce`. The
/// result depends on the clock and the machine's time zone, so only its
/// range (an `i32` day count) is stated.
#[verifier::external_body]
pub fn today_local_day() -> (r: i64)
    ensures
        -2147483648 <= r <= 2147483647,
{
    let now = chrono::Local::now();
    chrono::Datelike::num_days_from_ce(&now.date_naive()) as i64
}

} // verus!
