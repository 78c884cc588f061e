//! The report over the last 24 hours of tracked intervals.
//!
//! Reporting is a pure function of the database and a clock reading: it
//! keeps the intervals that overlap the window ending at the reading, prints
//! an open interval as if it ended now, and sums the durations with
//! saturation. It takes no locks, so a report concurrent with a `stop` may
//! miss the in-flight closure.

use vstd::prelude::*;
use crate::record::Timestamp;

verus! {

/// The length of the report window, in seconds: the last 24 hours.
pub const REPORT_WINDOW_SECONDS: u64 = 86400;

/// One line of a report: an interval's endpoints and its duration in
/// seconds, with an open interval ending at the clock reading.
#[derive(Clone, Copy, Debug, PartialEq, Eq)]
pub struct ReportEntry {
    pub start: u64,
    pub end: u64,
    pub seconds: u64,
}

/// Where the report window begins: 24 hours before `now`, or the epoch for
/// a clock reading younger than that.
pub open spec fn window_begin(now: u64) -> u64 {
    if now >= REPORT_WINDOW_SECONDS {
        (now - REPORT_WINDOW_SECONDS) as u64
    } else {
        0
    }
}

/// The record's end timestamp, with an open record ending at `now`.
pub open spec fn end_or_now(r: Timestamp, now: u64) -> u64 {
    match r.1 {
        Option::Some(e) => e,
        Option::None => now,
    }
}

/// The record overlaps the window `[window_begin(now), now]`.
pub open spec fn in_window(r: Timestamp, now: u64) -> bool {
    let lo = if r.0 > window_begin(now) {
        r.0
    } else {
        window_begin(now)
    };
    let hi = if end_or_now(r, now) < now {
        end_or_now(r, now)
    } else {
        now
    };
    lo <= hi
}

/// How many seconds the record lasted, never negative.
pub open spec fn duration_of(r: Timestamp, now: u64) -> u64 {
    let e = end_or_now(r, now);
    if e >= r.0 {
        (e - r.0) as u64
    } else {
        0
    }
}

/// The report line for one record.
pub open spec fn entry_of(r: Timestamp, now: u64) -> ReportEntry {
    ReportEntry { start: r.0, end: end_or_now(r, now), seconds: duration_of(r, now) }
}

/// The report lines: the records that overlap the window, in database order.
pub open spec fn spec_report(db: Seq<Timestamp>, now: u64) -> Seq<ReportEntry>
    decreases db.len(),
{
    if db.len() == 0 {
        Seq::empty()
    } else {
        let rest = spec_report(db.drop_last(), now);
        if in_window(db.last(), now) {
            rest.push(entry_of(db.last(), now))
        } else {
            rest
        }
    }
}

/// Addition on seconds that sticks at the largest value instead of wrapping.
pub open spec fn sat_add(a: u64, b: u64) -> u64 {
    if a + b > u64::MAX {
        u64::MAX
    } else {
        (a + b) as u64
    }
}

/// The total duration of the report lines, summed with saturation.
pub open spec fn spec_total(entries: Seq<ReportEntry>) -> u64
    decreases entries.len(),
{
    if entries.len() == 0 {
        0
    } else {
        sat_add(spec_total(entries.drop_last()), entries.last().seconds)
    }
}

/// The report for the window ending at the clock reading `now`: the lines
/// for the overlapping records and their total duration.
pub fn report_window(db: &Vec<Timestamp>, now: u64) -> (r: (Vec<ReportEntry>, u64))
    ensures
        r.0@ == spec_report(db@, now),
        r.1 == spec_total(spec_report(db@, now)),
{
    let begin = if now >= REPORT_WINDOW_SECONDS {
        now - REPORT_WINDOW_SECONDS
    } else {
        0
    };
    let mut out: Vec<ReportEntry> = Vec::new();
    let mut total: u64 = 0;
    let mut i: usize = 0;
    while i < db.len()
        invariant
            i <= db@.len(),
            begin == window_begin(now),
            out@ == spec_report(db@.take(i as int), now),
            total == spec_total(spec_report(db@.take(i as int), now)),
        decreases db@.len() - i,
    {
        let rec = db[i];
        let e = match rec.1 {
            Some(v) => v,
            None => now,
        };
        let lo = if rec.0 > begin {
            rec.0
        } else {
            begin
        };
        let hi = if e < now {
            e
        } else {
            now
        };
        proof {
            assert(db@.take(i as int + 1).drop_last() =~= db@.take(i as int));
            assert(db@.take(i as int + 1).last() == db@[i as int]);
        }
        if lo <= hi {
            let secs = if e >= rec.0 {
                e - rec.0
            } else {
                0
            };
            out.push(ReportEntry { start: rec.0, end: e, seconds: secs });
            total = if total > u64::MAX - secs {
                u64::MAX
            } else {
                total + secs
            };
            proof {
                let t1 = spec_report(db@.take(i as int + 1), now);
                assert(t1.drop_last() =~= spec_report(db@.take(i as int), now));
                assert(t1.last() == entry_of(db@[i as int], now));
            }
        }
        i += 1;
    }
    proof {
        assert(db@.take(db@.len() as int) =~= db@);
    }
    (out, total)
}

/// Relies on chrono::Local::now and chrono::DateTime::timestamp: the current
/// local time as non-leap seconds since the Unix epoch. The value depends on
/// the machine's clock, so nothing is promised of it.
#[verifier::external_body]
fn now_epoch_seconds() -> u64 {
    chrono::Local::now().timestamp() as u64
}

/// The report over the 24 hours ending at the clock's present reading: for
/// whatever reading the clock returned, the result is exactly that
/// reading's report and total.
pub fn report_last_day(db: &Vec<Timestamp>) -> (r: (Vec<ReportEntry>, u64))
    ensures
        exists|t: u64|
            r.0@ == #[trigger] spec_report(db@, t) && r.1 == spec_total(spec_report(db@, t)),
{
    let now = now_epoch_seconds();
    report_window(db, now)
}

} // verus!
