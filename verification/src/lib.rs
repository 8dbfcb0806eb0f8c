//! Verified core of a playtime tracker: a process-detection state
//! machine with crash recovery, the session and active-marker
//! persistence formats, pure analytics over the session history, and the
//! leaderboard update and wire logic.

use vstd::prelude::*;

pub mod analytics;
pub mod calendar;
pub mod codec;
pub mod fmt;
pub mod leaderboard;
pub mod monitor;
pub mod num;
pub mod probe;
pub mod session;
pub mod settings;
pub mod startup;
pub mod store;
pub mod text;

verus! {

/// The library's typed errors.
#[derive(Clone, Copy, Debug, PartialEq, Eq, Structural)]
pub enum CoreError {
    /// A persisted record's bytes do not carry the expected format.
    Parse,
    /// The operation is not available on this platform.
    Unsupported,
}

/// Clamps `value` into `[lo, hi]`.
pub fn clamp_u64(value: u64, lo: u64, hi: u64) -> (r: u64)
    requires
        lo <= hi,
    ensures
        lo <= r <= hi,
        r == if value < lo {
            lo
        } else if value > hi {
            hi
        } else {
            value
        },
{
    if value < lo {
        lo
    } else if value > hi {
        hi
    } else {
        value
    }
}

} // verus!
