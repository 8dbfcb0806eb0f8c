//! Core data model: recorded sessions and the in-flight active marker.
//!
//! Timestamps are seconds since the Unix epoch; durations are whole
//! seconds, derived from the endpoints and clamped at zero.

use vstd::prelude::*;

verus! {

/// Non-negative distance from `start` to `end`, zero when `end` precedes
/// `start`.
pub open spec fn clamp_diff(start: int, end: int) -> int {
    if end >= start {
        end - start
    } else {
        0
    }
}

/// An immutable recorded runtime interval.
pub struct Session {
    pub id: Vec<u8>,
    pub start: i64,
    pub end: i64,
    pub duration_seconds: u64,
    pub note: Vec<u8>,
}

/// The derived duration field agrees with the interval's endpoints.
pub open spec fn session_wf(s: &Session) -> bool {
    s.duration_seconds == clamp_diff(s.start as int, s.end as int)
}

/// An identifier byte: lower-case hex digit or hyphen.
pub open spec fn is_id_byte(b: u8) -> bool {
    (48 <= b && b <= 57) || (97 <= b && b <= 102) || b == 45
}

/// Relies on uuid's `Uuid::new_v4` and its `Display` impl: the hyphenated
/// form, 36 bytes of lower-case hex digits and hyphens.
#[verifier::external_body]
fn fresh_session_id() -> (r: Vec<u8>)
    ensures
        r@.len() == 36,
        forall|i: int| 0 <= i < r@.len() ==> is_id_byte(#[trigger] r@[i]),
{
    uuid::Uuid::new_v4().to_string().into_bytes()
}

impl Session {
    /// Builds a session over `[start, end]` with a fresh identifier and the
    /// derived, clamped duration.
    pub fn new(start: i64, end: i64, note: Vec<u8>) -> (r: Session)
        ensures
            r.start == start,
            r.end == end,
            r.note == note,
            session_wf(&r),
            r.id@.len() == 36,
            forall|i: int| 0 <= i < r.id@.len() ==> is_id_byte(#[trigger] r.id@[i]),
    {
        let duration_seconds: u64 = if end >= start {
            ((end as i128) - (start as i128)) as u64
        } else {
            0
        };
        Session { id: fresh_session_id(), start, end, duration_seconds, note }
    }
}

/// The single persisted in-progress interval: its start and the most
/// recent heartbeat.
#[derive(Debug, PartialEq, Eq, Structural)]
pub struct ActiveSession {
    pub start: i64,
    pub last_seen: i64,
}

impl ActiveSession {
    pub fn new(start: i64) -> (r: ActiveSession)
        ensures
            r.start == start,
            r.last_seen == start,
    {
        ActiveSession { start, last_seen: start }
    }
}

impl Clone for ActiveSession {
    fn clone(&self) -> (r: ActiveSession)
        ensures
            r.start == self.start,
            r.last_seen == self.last_seen,
    {
        ActiveSession { start: self.start, last_seen: self.last_seen }
    }
}

impl Clone for Session {
    fn clone(&self) -> (r: Session)
        ensures
            r.id@ == self.id@,
            r.start == self.start,
            r.end == self.end,
            r.duration_seconds == self.duration_seconds,
            r.note@ == self.note@,
    {
        Session {
            id: self.id.clone(),
            start: self.start,
            end: self.end,
            duration_seconds: self.duration_seconds,
            note: self.note.clone(),
        }
    }
}

/// Seconds an in-progress interval has run, clamped at zero.
pub fn active_session_seconds(active: &ActiveSession) -> (r: u64)
    ensures
        r == clamp_diff(active.start as int, active.last_seen as int),
{
    if active.last_seen >= active.start {
        ((active.last_seen as i128) - (active.start as i128)) as u64
    } else {
        0
    }
}

} // verus!
