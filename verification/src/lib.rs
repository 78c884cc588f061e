//! A single-user command-line time tracker library.
//!
//! The library records wall-clock moments marking the start and end of work
//! intervals in a local database file, using a sidecar lockfile as the
//! "timer is active" indicator. The state machine ([`tracker`]), the on-disk
//! encoding of the interval sequence ([`codec`]) and the report computation
//! ([`report`]) are verified; the caller performs the file reads and writes
//! and hands the library plain values.

pub mod cli;
pub mod codec;
pub mod error;
pub mod record;
pub mod report;
pub mod string_ext;
pub mod tracker;
