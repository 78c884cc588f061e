//! The tracker state machine.
//!
//! The tracker has two states: *idle* (no lockfile) and *running* (lockfile
//! present). `start` appends an open record and creates the lockfile; `stop`
//! closes the last record in place and removes the lockfile. The caller that
//! owns the files observes the lockfile, decodes the database, drives
//! [`TrackerState`] and writes the results back; everything the state machine
//! decides is verified here.

use vstd::prelude::*;
use crate::error::FlatFileError;
use crate::record::{Timestamp, is_open, is_closed, shape_ok};

verus! {

// ---------------------------------------------------------------------------
// Well-formedness of a database.
// ---------------------------------------------------------------------------

/// Every record of the database is either open or closed.
pub open spec fn shapes_ok(db: Seq<Timestamp>) -> bool {
    forall|i: int| 0 <= i < db.len() ==> shape_ok(#[trigger] db[i])
}

/// At most one record is open, and if one is, it is the last.
pub open spec fn at_most_one_open(db: Seq<Timestamp>) -> bool {
    forall|i: int| 0 <= i < db.len() && is_open(#[trigger] db[i]) ==> i == db.len() - 1
}

/// Every record with an end timestamp ends no earlier than it starts.
pub open spec fn ends_after_starts(db: Seq<Timestamp>) -> bool {
    forall|i: int| 0 <= i < db.len() && (#[trigger] db[i]).1 is Some ==> db[i].0 <= db[i].1->0
}

/// A well-formed database: the invariant that every successful operation
/// preserves.
pub open spec fn wf(db: Seq<Timestamp>) -> bool {
    shapes_ok(db) && at_most_one_open(db) && ends_after_starts(db)
}

// ---------------------------------------------------------------------------
// The transitions, as functions of the database and the clock reading.
// ---------------------------------------------------------------------------

/// Close `r` at time `t`. The end is clamped to the start, so that a clock
/// that ran backwards never produces a negative-duration interval.
pub open spec fn close_record(r: Timestamp, t: u64) -> Timestamp {
    Timestamp(r.0, Option::Some(if t < r.0 { r.0 } else { t }), false)
}

/// If the database ends in a record still marked active, close it at `t`;
/// otherwise leave the database as it is.
pub open spec fn close_dangling(db: Seq<Timestamp>, t: u64) -> Seq<Timestamp> {
    if db.len() > 0 && db.last().2 {
        db.update(db.len() - 1, close_record(db.last(), t))
    } else {
        db
    }
}

/// What a successful `start` at time `now` does to the database: any record
/// left open by a crashed predecessor is closed at `now`, and a fresh open
/// record beginning at `now` is appended.
pub open spec fn spec_start(db: Seq<Timestamp>, now: u64) -> Seq<Timestamp> {
    close_dangling(db, now).push(Timestamp(now, Option::None, true))
}

/// What a successful `stop` at time `now` does to the database: the open
/// record, if any, is closed at `now`; a database that already ends closed
/// is left untouched.
pub open spec fn spec_stop(db: Seq<Timestamp>, now: u64) -> Seq<Timestamp> {
    close_dangling(db, now)
}

fn close_dangling_exec(records: &mut Vec<Timestamp>, now: u64)
    ensures
        final(records)@ == close_dangling(old(records)@, now),
{
    let n = records.len();
    if n > 0 {
        let last = records[n - 1];
        if last.2 {
            let end = if now < last.0 {
                last.0
            } else {
                now
            };
            let _popped = records.pop();
            records.push(Timestamp(last.0, Some(end), false));
            proof {
                assert(records@ =~= close_dangling(old(records)@, now));
            }
        }
    }
}

// ---------------------------------------------------------------------------
// The state machine.
// ---------------------------------------------------------------------------

/// The pure state of the tracker: the decoded database and whether the
/// lockfile exists.
pub struct TrackerState {
    pub records: Vec<Timestamp>,
    pub running: bool,
}

impl TrackerState {
    /// The fresh state: no records on file, no lockfile.
    pub fn new() -> (r: Self)
        ensures
            r.records@.len() == 0,
            !r.running,
    {
        TrackerState { records: Vec::new(), running: false }
    }

    /// The state as observed on disk: the decoded database file and the
    /// existence of the lockfile.
    pub fn from_parts(records: Vec<Timestamp>, running: bool) -> (r: Self)
        ensures
            r.records@ == records@,
            r.running == running,
    {
        TrackerState { records, running }
    }

    /// Begin an interval at time `now`.
    ///
    /// On a running tracker this fails with `ActiveTimer` and changes
    /// nothing. On an idle tracker it succeeds, the database becomes
    /// `spec_start` of the old one, and the tracker is running.
    pub fn start_at(&mut self, now: u64) -> (r: Result<(), FlatFileError>)
        ensures
            old(self).running ==> (r matches Result::Err(e) && e == FlatFileError::ActiveTimer
                && final(self).records@ == old(self).records@ && final(self).running),
            !old(self).running ==> r is Ok && final(self).records@ == spec_start(
                old(self).records@,
                now,
            ) && final(self).running,
    {
        if self.running {
            return Err(FlatFileError::ActiveTimer);
        }
        close_dangling_exec(&mut self.records, now);
        self.records.push(Timestamp::new(now, true));
        self.running = true;
        Ok(())
    }

    /// End the open interval at time `now`.
    ///
    /// On an idle tracker this fails with `InactiveTimer` and changes
    /// nothing. On a running tracker it succeeds, the database becomes
    /// `spec_stop` of the old one, and the tracker is idle.
    pub fn stop_at(&mut self, now: u64) -> (r: Result<(), FlatFileError>)
        ensures
            !old(self).running ==> (r matches Result::Err(e) && e == FlatFileError::InactiveTimer
                && final(self).records@ == old(self).records@ && !final(self).running),
            old(self).running ==> r is Ok && final(self).records@ == spec_stop(
                old(self).records@,
                now,
            ) && !final(self).running,
    {
        if !self.running {
            return Err(FlatFileError::InactiveTimer);
        }
        close_dangling_exec(&mut self.records, now);
        self.running = false;
        Ok(())
    }
}

// ---------------------------------------------------------------------------
// The invariant laws.
// ---------------------------------------------------------------------------

proof fn lemma_close_dangling_preserves_wf(db: Seq<Timestamp>, now: u64)
    requires
        wf(db),
    ensures
        wf(close_dangling(db, now)),
{
    let c = close_dangling(db, now);
    if db.len() > 0 && db.last().2 {
        let n = db.len() as int;
        assert forall|i: int| 0 <= i < c.len() implies shape_ok(#[trigger] c[i]) by {
            if i < n - 1 {
                assert(c[i] == db[i]);
            }
        }
        assert forall|i: int| 0 <= i < c.len() && is_open(#[trigger] c[i]) implies i == c.len()
            - 1 by {
            if i < n - 1 {
                assert(c[i] == db[i]);
            }
        }
        assert forall|i: int| 0 <= i < c.len() && (#[trigger] c[i]).1 is Some implies c[i].0
            <= c[i].1->0 by {
            if i < n - 1 {
                assert(c[i] == db[i]);
            }
        }
    }
}

/// A successful `start` keeps the database well-formed: afterwards exactly
/// the new last record is active, and every closed record still ends no
/// earlier than it starts.
pub proof fn lemma_start_preserves_wf(db: Seq<Timestamp>, now: u64)
    requires
        wf(db),
    ensures
        wf(spec_start(db, now)),
{
    lemma_close_dangling_preserves_wf(db, now);
    let c = close_dangling(db, now);
    let s = spec_start(db, now);
    assert forall|i: int| 0 <= i < c.len() implies !is_open(#[trigger] c[i]) by {
        if db.len() > 0 && db.last().2 {
            if i < db.len() - 1 {
                assert(c[i] == db[i]);
            }
        } else {
            assert(c[i] == db[i]);
            if is_open(db[i]) {
                assert(i == db.len() - 1);
            }
        }
    }
    assert forall|i: int| 0 <= i < s.len() implies shape_ok(#[trigger] s[i]) by {
        if i < c.len() {
            assert(s[i] == c[i]);
        }
    }
    assert forall|i: int| 0 <= i < s.len() && is_open(#[trigger] s[i]) implies i == s.len() - 1 by {
        if i < c.len() {
            assert(s[i] == c[i]);
        }
    }
    assert forall|i: int| 0 <= i < s.len() && (#[trigger] s[i]).1 is Some implies s[i].0
        <= s[i].1->0 by {
        if i < c.len() {
            assert(s[i] == c[i]);
        }
    }
}

/// A successful `stop` keeps the database well-formed.
pub proof fn lemma_stop_preserves_wf(db: Seq<Timestamp>, now: u64)
    requires
        wf(db),
    ensures
        wf(spec_stop(db, now)),
{
    lemma_close_dangling_preserves_wf(db, now);
}

/// In a well-formed database, every closed record ends no earlier than it
/// starts.
pub proof fn lemma_closed_record_monotone(db: Seq<Timestamp>, i: int)
    requires
        wf(db),
        0 <= i < db.len(),
        is_closed(db[i]),
    ensures
        db[i].0 <= db[i].1->0,
{
}

/// One operation of a history of successful `start`/`stop` calls, carrying
/// the clock reading it saw.
pub enum TrackerOp {
    Start { now: u64 },
    Stop { now: u64 },
}

/// The database produced by a finite history of successful operations,
/// starting from the empty database.
pub open spec fn run_ops(ops: Seq<TrackerOp>) -> Seq<Timestamp>
    decreases ops.len(),
{
    if ops.len() == 0 {
        Seq::empty()
    } else {
        match ops.last() {
            TrackerOp::Start { now } => spec_start(run_ops(ops.drop_last()), now),
            TrackerOp::Stop { now } => spec_stop(run_ops(ops.drop_last()), now),
        }
    }
}

/// Every database produced by a finite sequence of successful `start`/`stop`
/// calls is well-formed: at most one record is active — if present it is the
/// last — and every closed record ends no earlier than it starts.
pub proof fn lemma_history_well_formed(ops: Seq<TrackerOp>)
    ensures
        wf(run_ops(ops)),
    decreases ops.len(),
{
    if ops.len() > 0 {
        lemma_history_well_formed(ops.drop_last());
        match ops.last() {
            TrackerOp::Start { now } => lemma_start_preserves_wf(run_ops(ops.drop_last()), now),
            TrackerOp::Stop { now } => lemma_stop_preserves_wf(run_ops(ops.drop_last()), now),
        }
    }
}

// ---------------------------------------------------------------------------
// The tracker handle over the two file paths.
// ---------------------------------------------------------------------------

/// Relies on std::path::Path::exists: whether the path points at an existing
/// filesystem entity. The answer depends on the state of the disk, so nothing
/// is promised of it.
#[verifier::external_body]
fn path_exists(p: &String) -> bool {
    std::path::Path::new(p.as_str()).exists()
}

/// The tracker as configured for one invocation: the paths of the database
/// file and of the lockfile.
pub struct FlatFileTracker {
    pub db_dir: String,
    pub lockfile: String,
}

impl FlatFileTracker {
    /// A tracker over the given database and lockfile paths.
    pub fn new(db_dir: String, lockfile: String) -> (r: Self)
        ensures
            r.db_dir@ == db_dir@,
            r.lockfile@ == lockfile@,
    {
        FlatFileTracker { db_dir, lockfile }
    }

    /// Whether a timer is currently open: the lockfile exists. The answer is
    /// advisory — it can be stale by the time the caller acts on it.
    pub fn is_running(&self) -> bool {
        path_exists(&self.lockfile)
    }
}

} // verus!
