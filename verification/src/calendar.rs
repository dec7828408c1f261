//! Days of the reader's own calendar.
//!
//! A day is its number in the proleptic Gregorian calendar, where January 1 of
//! the year 1 is day 1. `chrono` does the counting.
use chrono::{DateTime, Datelike, Duration, FixedOffset, NaiveDate};
use vstd::prelude::*;

verus! {

/// The first day that `chrono` knows, January 1 of the year -262143.
pub const FIRST_DAY: i32 = -95_746_129;

/// The last day that `chrono` knows, December 31 of the year 262142.
pub const LAST_DAY: i32 = 95_745_399;

/// January 1, 1970.
pub const EPOCH_DAY: i32 = 719_163;

/// Seconds of a day.
pub const DAY_SECS: i32 = 86_400;

/// The day on which a second falls, counted from the Unix epoch.
pub open spec fn day_of(seconds: int) -> int {
    seconds / (DAY_SECS as int) + EPOCH_DAY
}

/// Whether `chrono` knows a day.
pub open spec fn is_day(day: int) -> bool {
    FIRST_DAY <= day <= LAST_DAY
}

/// A moment in UTC and the offset of local time that is in force at it, both in
/// seconds, as far as `chrono` can show them.
pub open spec fn is_local_time(seconds: i64, offset: i32) -> bool {
    &&& -DAY_SECS < offset < DAY_SECS
    &&& is_day(day_of(seconds as int))
    &&& is_day(day_of(seconds + offset))
}

/// `DateTime::from_timestamp`, `DateTime::with_timezone` with a fixed offset and
/// `DateTime::date_naive` find the local day of a moment: the one on which the
/// moment falls when the offset is added. Each is within its range here.
#[verifier::external_body]
pub(crate) fn local_day(seconds: i64, offset: i32) -> (day: i32)
    requires
        is_local_time(seconds, offset),
    ensures
        day == day_of(seconds + offset),
{
    let zone = FixedOffset::east_opt(offset).unwrap();
    let moment = DateTime::from_timestamp(seconds, 0).unwrap();
    moment.with_timezone(&zone).date_naive().num_days_from_ce()
}

/// Subtracting a `Duration` of whole days from a `NaiveDate` goes that many days
/// back. The day that it comes to must be one that `chrono` knows.
#[verifier::external_body]
pub(crate) fn days_before(day: i32, days: i64) -> (earlier: i32)
    requires
        is_day(day as int),
        0 <= days,
        is_day(day - days),
    ensures
        earlier == day - days,
{
    let date = NaiveDate::from_num_days_from_ce_opt(day).unwrap();
    (date - Duration::days(days)).num_days_from_ce()
}

/// Seconds from the Unix epoch to the beginning of a day.
fn begin_of(day: i64) -> (seconds: i64)
    requires
        FIRST_DAY <= day <= LAST_DAY + 1,
    ensures
        forall|second: int| second >= seconds <==> #[trigger] day_of(second) >= day,
{
    let days: i64 = day - EPOCH_DAY as i64;
    assert(-10_000_000_000_000 <= days * DAY_SECS <= 10_000_000_000_000) by (nonlinear_arith)
        requires
            -100_000_000 <= days <= 100_000_000,
            DAY_SECS == 86_400,
    ;
    let seconds: i64 = days * DAY_SECS as i64;
    assert forall|second: int| second >= seconds <==> #[trigger] day_of(second) >= day by {
        vstd::arithmetic::div_mod::lemma_fundamental_div_mod(second, DAY_SECS as int);
    }
    seconds
}

/// Whether `chrono` can show a moment by local time.
pub fn shows_local_time(seconds: i64, offset: i32) -> (result: bool)
    ensures
        result == is_local_time(seconds, offset),
{
    if offset <= -DAY_SECS || offset >= DAY_SECS {
        return false;
    }
    let first: i64 = begin_of(FIRST_DAY as i64);
    let end: i64 = begin_of(LAST_DAY as i64 + 1);
    assert(day_of(seconds as int) >= FIRST_DAY <==> seconds >= first);
    assert(day_of(seconds as int) >= LAST_DAY + 1 <==> seconds >= end);
    if seconds < first || seconds >= end {
        return false;
    }
    let local: i64 = seconds + offset as i64;
    assert(day_of(local as int) >= FIRST_DAY <==> local >= first);
    assert(day_of(local as int) >= LAST_DAY + 1 <==> local >= end);
    local >= first && local < end
}

/// Whether `chrono` knows a day.
pub fn has_day(day: i64) -> (result: bool)
    ensures
        result == is_day(day as int),
{
    FIRST_DAY as i64 <= day && day <= LAST_DAY as i64
}

} // verus!
