//! The interval record: one tracked span of time.

use vstd::prelude::*;

verus! {

/// One interval record `(start_epoch_seconds, end_epoch_seconds, active)`.
///
/// An interval is *open* when the end is absent and the active flag is set;
/// it is *closed* when the end is present and the flag is clear.
#[derive(Clone, Copy, Debug, PartialEq, Eq)]
pub struct Timestamp(pub u64, pub Option<u64>, pub bool);

impl Timestamp {
    /// A fresh record with no end timestamp.
    pub fn new(timestamp: u64, is_active: bool) -> (r: Self)
        ensures
            r.0 == timestamp,
            r.1 is None,
            r.2 == is_active,
    {
        Self(timestamp, None, is_active)
    }
}

/// The record marks an interval that is still running.
pub open spec fn is_open(r: Timestamp) -> bool {
    r.1 is None && r.2
}

/// The record marks a finished interval with both endpoints on file.
pub open spec fn is_closed(r: Timestamp) -> bool {
    r.1 is Some && !r.2
}

/// Every record is either open or closed; the end timestamp and the active
/// flag must agree.
pub open spec fn shape_ok(r: Timestamp) -> bool {
    is_open(r) || is_closed(r)
}

} // verus!
