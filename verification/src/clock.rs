//! The current local time, read once per snapshot to name its record.
use crate::record_name::days_in_month;
use crate::record_name::days_in_month_exec;
use crate::record_name::Timestamp;
use chrono::Datelike;
use chrono::Timelike;
use vstd::prelude::*;

verus! {

/// Relies on chrono's `Local::now` with the `Datelike` and `Timelike`
/// accessors and `FixedOffset::local_minus_utc`: the month is 1 to 12, the
/// day 1 to 31, the hour below 24, the minute and second below 60, the
/// nanoseconds below two billion (values of a billion or more mark a leap
/// second), and the local offset strictly within one day of UTC.  The
/// clock alone decides the value, so nothing more is promised.
#[verifier::external_body]
fn local_now() -> (r: Timestamp)
    ensures
        1 <= r.month <= 12,
        1 <= r.day <= 31,
        r.hour < 24,
        r.minute < 60,
        r.second < 60,
        r.nanos < 2_000_000_000,
        -86400 < r.offset_seconds < 86400,
{
    let now = chrono::Local::now();
    Timestamp {
        year: now.year(),
        month: now.month(),
        day: now.day(),
        hour: now.hour(),
        minute: now.minute(),
        second: now.second(),
        nanos: now.nanosecond(),
        offset_seconds: now.offset().local_minus_utc(),
    }
}

/// Decides whether a clock reading can name a record: the year must have
/// four digits, the day must exist in its month, and a leap-second reading
/// (nanoseconds of a billion or more) is rejected, since its record name
/// would show a second of sixty and never parse back for retention.
pub fn accept_clock(ts: Timestamp) -> (r: Option<Timestamp>)
    requires
        1 <= ts.month <= 12,
        1 <= ts.day,
        ts.hour < 24,
        ts.minute < 60,
        ts.second < 60,
        ts.nanos < 2_000_000_000,
        -86400 < ts.offset_seconds < 86400,
    ensures
        r == (if 1 <= ts.year <= 9999 && ts.day as int <= days_in_month(
            ts.year as int,
            ts.month as int,
        ) && ts.nanos < 1_000_000_000 {
            Some(ts)
        } else {
            None::<Timestamp>
        }),
        r is Some ==> r->0.wf() && r->0.nanos < 1_000_000_000,
{
    if 1 <= ts.year && ts.year <= 9999 && ts.nanos < 1_000_000_000 {
        let dim = days_in_month_exec(ts.year as u64, ts.month as u64);
        if (ts.day as u64) <= dim {
            Some(ts)
        } else {
            None
        }
    } else {
        None
    }
}

/// The current local time, if the clock's reading can name a record.
pub fn current_timestamp() -> (r: Option<Timestamp>)
    ensures
        r is Some ==> r->0.wf() && r->0.nanos < 1_000_000_000,
{
    accept_clock(local_now())
}

} // verus!
