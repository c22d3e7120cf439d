//! A verified core for a time-tracking daemon: it attributes elapsed time
//! to categories derived from the focused window, and persists running
//! per-category durations into an append-only, time-windowed log file that
//! survives restarts.
//!
//! The store format, its validation and recovery, the duration accounting,
//! and the window lifecycle are specified and proved here; process
//! startup, timers, and all I/O live outside the library.
use vstd::prelude::*;

pub mod categories;
pub mod classifier;
pub mod counter;
pub mod daemon;
pub mod database;
pub mod encoding;
pub mod error;

verus! {

} // verus!
