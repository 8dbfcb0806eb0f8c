//! The process-detection state machine.
//!
//! Each poll tick takes the probe's verdict and the current time, moves
//! the machine between idle and tracking, and says what must be persisted:
//! the refreshed active marker, a finalized session, or a cleared marker.
//! The recorded-runs law at the bottom pins the machine's whole history
//! down: the sessions it records are exactly the completed maximal
//! true-runs of the probe that reach the configured minimum span.

use vstd::prelude::*;

use crate::session::{active_session_seconds, clamp_diff, session_wf, ActiveSession, Session};

verus! {

/// Monitor configuration: how often to poll and how short an interval may
/// be before it is discarded.
pub struct Monitor {
    pub poll_seconds: u64,
    pub min_session_minutes: u64,
}

/// The machine's state: tracking an in-progress interval, or idle.
pub struct MonitorState {
    pub active: Option<ActiveSession>,
}

/// What a tick decides must happen to the persisted records.
pub enum TickAction {
    /// Nothing changes on disk.
    Stay,
    /// Write (or refresh) the active marker.
    Persist(ActiveSession),
    /// Append this finalized session to the history and clear the marker.
    Record(Session),
    /// Clear the marker: the interval was too short to keep.
    Discard,
}

/// An interval qualifies for the history when it spans at least the
/// configured minimum, clamped at zero.
pub open spec fn qualifies(a: ActiveSession, min_session_minutes: u64) -> bool {
    clamp_diff(a.start as int, a.last_seen as int) >= 60 * min_session_minutes
}

/// One tick of the machine: the next state and, when a session ends, the
/// recorded interval (start, end).
pub open spec fn tick_spec(active: Option<ActiveSession>, running: bool, now: i64, min: u64) -> (
    Option<ActiveSession>,
    Option<(i64, i64)>,
) {
    if running {
        match active {
            None => (Some(ActiveSession { start: now, last_seen: now }), None),
            Some(a) => (Some(ActiveSession { start: a.start, last_seen: now }), None),
        }
    } else {
        match active {
            None => (None, None),
            Some(a) => (
                None,
                if qualifies(a, min) {
                    Some((a.start, a.last_seen))
                } else {
                    None
                },
            ),
        }
    }
}

impl Monitor {
    pub fn new(poll_seconds: u64, min_session_minutes: u64) -> (r: Monitor)
        ensures
            r.poll_seconds == poll_seconds,
            r.min_session_minutes == min_session_minutes,
    {
        Monitor { poll_seconds, min_session_minutes }
    }

    /// One poll tick: `running` is the probe's verdict, `now` the tick's
    /// time. Returns the next state and the persistence the tick demands.
    pub fn tick(&self, state: MonitorState, running: bool, now: i64) -> (r: (
        MonitorState,
        TickAction,
    ))
        ensures
            r.0.active == tick_spec(state.active, running, now, self.min_session_minutes).0,
            running ==> (r.1 matches TickAction::Persist(a) && r.0.active == Some(a)),
            !running ==> (match state.active {
                None => r.1 is Stay,
                Some(a) => if qualifies(a, self.min_session_minutes) {
                    &&& r.1 matches TickAction::Record(s)
                    &&& s.start == a.start
                    &&& s.end == a.last_seen
                    &&& session_wf(&s)
                    &&& s.note@.len() == 0
                    &&& s.id@.len() == 36
                } else {
                    r.1 is Discard
                },
            }),
    {
        if running {
            let refreshed = match state.active {
                Some(a) => ActiveSession { start: a.start, last_seen: now },
                None => ActiveSession::new(now),
            };
            let kept = refreshed.clone();
            (MonitorState { active: Some(refreshed) }, TickAction::Persist(kept))
        } else {
            match state.active {
                None => (MonitorState { active: None }, TickAction::Stay),
                Some(a) => {
                    let secs = active_session_seconds(&a);
                    if (secs as u128) >= 60u128 * (self.min_session_minutes as u128) {
                        let s = Session::new(a.start, a.last_seen, Vec::new());
                        (MonitorState { active: None }, TickAction::Record(s))
                    } else {
                        (MonitorState { active: None }, TickAction::Discard)
                    }
                },
            }
        }
    }

    /// Startup recovery: with a persisted marker and the probe's current
    /// verdict, either resume tracking, or finalize the marker using its
    /// last heartbeat as the end time (discarding it when too short).
    pub fn recover(&self, persisted: Option<ActiveSession>, running: bool) -> (r: (
        MonitorState,
        TickAction,
    ))
        ensures
            match persisted {
                None => r.0.active is None && r.1 is Stay,
                Some(a) => if running {
                    r.0.active == Some(a) && r.1 is Stay
                } else if qualifies(a, self.min_session_minutes) {
                    &&& r.0.active is None
                    &&& r.1 matches TickAction::Record(s)
                    &&& s.start == a.start
                    &&& s.end == a.last_seen
                    &&& session_wf(&s)
                    &&& s.note@.len() == 0
                    &&& s.id@.len() == 36
                } else {
                    r.0.active is None && r.1 is Discard
                },
            },
    {
        match persisted {
            None => (MonitorState { active: None }, TickAction::Stay),
            Some(a) => {
                if running {
                    (MonitorState { active: Some(a) }, TickAction::Stay)
                } else {
                    let secs = active_session_seconds(&a);
                    if (secs as u128) >= 60u128 * (self.min_session_minutes as u128) {
                        let s = Session::new(a.start, a.last_seen, Vec::new());
                        (MonitorState { active: None }, TickAction::Record(s))
                    } else {
                        (MonitorState { active: None }, TickAction::Discard)
                    }
                }
            },
        }
    }

    /// A cooperative stop persists the in-progress marker as-is, so it
    /// survives to the next startup.
    pub fn on_stop(&self, state: &MonitorState) -> (r: Option<ActiveSession>)
        ensures
            r == state.active,
    {
        match &state.active {
            Some(a) => Some(a.clone()),
            None => None,
        }
    }
}

/// The machine's status label, for display.
pub enum MonitorStatus {
    Idle,
    Tracking,
    PendingResume,
}

/// A read-only copy of the monitor's state for collaborators.
pub struct MonitorSnapshot {
    pub status: MonitorStatus,
    pub active_session: Option<ActiveSession>,
    pub last_session: Option<Session>,
}

/// The snapshot a state publishes: tracking exactly when a marker is
/// active.
pub fn snapshot_of(state: &MonitorState, last_session: Option<Session>) -> (r: MonitorSnapshot)
    ensures
        state.active is Some ==> r.status is Tracking,
        state.active is None ==> r.status is Idle,
        r.active_session == state.active,
        r.last_session == last_session,
{
    match &state.active {
        Some(a) => MonitorSnapshot {
            status: MonitorStatus::Tracking,
            active_session: Some(a.clone()),
            last_session,
        },
        None => MonitorSnapshot {
            status: MonitorStatus::Idle,
            active_session: None,
            last_session,
        },
    }
}

/// The snapshot published on a cooperative stop: a surviving marker
/// leaves the machine pending resumption at the next startup.
pub fn snapshot_on_stop(marker: Option<ActiveSession>, last_session: Option<Session>) -> (r:
    MonitorSnapshot)
    ensures
        marker is Some ==> r.status is PendingResume,
        marker is None ==> r.status is Idle,
        r.active_session == marker,
        r.last_session == last_session,
{
    match marker {
        Some(a) => MonitorSnapshot {
            status: MonitorStatus::PendingResume,
            active_session: Some(a),
            last_session,
        },
        None => MonitorSnapshot {
            status: MonitorStatus::Idle,
            active_session: None,
            last_session,
        },
    }
}

/// The interval a single tick records, as a (possibly empty) sequence.
pub open spec fn opt_rec_seq(rec: Option<(i64, i64)>) -> Seq<(i64, i64)> {
    match rec {
        None => Seq::empty(),
        Some(p) => seq![p],
    }
}

/// Everything the machine records over a whole tick sequence, starting
/// from the given state.
pub open spec fn run_ticks(active: Option<ActiveSession>, ticks: Seq<(bool, i64)>, min: u64) -> (
    Option<ActiveSession>,
    Seq<(i64, i64)>,
)
    decreases ticks.len(),
{
    if ticks.len() == 0 {
        (active, Seq::empty())
    } else {
        let stepped = tick_spec(active, ticks[0].0, ticks[0].1, min);
        let rest = run_ticks(stepped.0, ticks.drop_first(), min);
        (rest.0, opt_rec_seq(stepped.1) + rest.1)
    }
}

/// Number of leading true ticks.
pub open spec fn run_len(ticks: Seq<(bool, i64)>) -> nat
    decreases ticks.len(),
{
    if ticks.len() == 0 || !ticks[0].0 {
        0
    } else {
        1 + run_len(ticks.drop_first())
    }
}

proof fn lemma_run_len_le(ticks: Seq<(bool, i64)>)
    ensures
        run_len(ticks) <= ticks.len(),
    decreases ticks.len(),
{
    if ticks.len() > 0 && ticks[0].0 {
        lemma_run_len_le(ticks.drop_first());
    }
}

/// The maximal true-runs of a tick sequence that are terminated by a
/// false tick, each as (time of first true tick, time of last true tick).
/// A trailing run that never sees a false tick is still in progress and
/// does not appear.
pub open spec fn completed_runs(ticks: Seq<(bool, i64)>) -> Seq<(i64, i64)>
    decreases ticks.len(),
{
    if ticks.len() == 0 {
        Seq::empty()
    } else if !ticks[0].0 {
        completed_runs(ticks.drop_first())
    } else {
        let k = run_len(ticks) as int;
        if 0 < k < ticks.len() {
            seq![(ticks[0].1, ticks[k - 1].1)] + completed_runs(
                ticks.subrange(k, ticks.len() as int),
            )
        } else {
            Seq::empty()
        }
    }
}

/// A recorded interval's wall-clock span reaches the configured minimum.
pub open spec fn span_qualifies(p: (i64, i64), min: u64) -> bool {
    clamp_diff(p.0 as int, p.1 as int) >= 60 * min
}

/// The runs whose span reaches the minimum, in order.
pub open spec fn keep_qualifying(runs: Seq<(i64, i64)>, min: u64) -> Seq<(i64, i64)>
    decreases runs.len(),
{
    if runs.len() == 0 {
        Seq::empty()
    } else if span_qualifies(runs[0], min) {
        seq![runs[0]] + keep_qualifying(runs.drop_first(), min)
    } else {
        keep_qualifying(runs.drop_first(), min)
    }
}

proof fn lemma_keep_qualifying_add(a: Seq<(i64, i64)>, b: Seq<(i64, i64)>, min: u64)
    ensures
        keep_qualifying(a + b, min) =~= keep_qualifying(a, min) + keep_qualifying(b, min),
    decreases a.len(),
{
    if a.len() == 0 {
        assert(a + b =~= b);
        assert(keep_qualifying(a, min) =~= Seq::<(i64, i64)>::empty());
    } else {
        assert((a + b).drop_first() =~= a.drop_first() + b);
        lemma_keep_qualifying_add(a.drop_first(), b, min);
        assert((a + b)[0] == a[0]);
    }
}

/// The machine, mid-run: the open interval `a` plus the remaining ticks.
pub open spec fn completed_runs_open(a: ActiveSession, ticks: Seq<(bool, i64)>) -> Seq<(i64, i64)>
    decreases ticks.len(),
{
    if ticks.len() == 0 {
        Seq::empty()
    } else if ticks[0].0 {
        completed_runs_open(
            ActiveSession { start: a.start, last_seen: ticks[0].1 },
            ticks.drop_first(),
        )
    } else {
        seq![(a.start, a.last_seen)] + completed_runs(ticks.drop_first())
    }
}

proof fn lemma_open_shape(a: ActiveSession, ticks: Seq<(bool, i64)>)
    ensures
        completed_runs_open(a, ticks) =~= ({
            let k = run_len(ticks) as int;
            if k == ticks.len() {
                Seq::<(i64, i64)>::empty()
            } else {
                let end = if k == 0 {
                    a.last_seen
                } else {
                    ticks[k - 1].1
                };
                seq![(a.start, end)] + completed_runs(ticks.subrange(k + 1, ticks.len() as int))
            }
        }),
    decreases ticks.len(),
{
    lemma_run_len_le(ticks);
    if ticks.len() == 0 {
    } else if ticks[0].0 {
        let a1 = ActiveSession { start: a.start, last_seen: ticks[0].1 };
        lemma_open_shape(a1, ticks.drop_first());
        let k = run_len(ticks) as int;
        let k1 = run_len(ticks.drop_first()) as int;
        assert(k == k1 + 1);
        if k < ticks.len() {
            assert(ticks.drop_first().subrange(k1 + 1, ticks.drop_first().len() as int)
                =~= ticks.subrange(k + 1, ticks.len() as int));
            if k1 > 0 {
                assert(ticks.drop_first()[k1 - 1] == ticks[k - 1]);
            }
        }
    } else {
        assert(ticks.subrange(1, ticks.len() as int) =~= ticks.drop_first());
    }
}

/// Mid-run, the machine records exactly the completion of the open
/// interval (when it qualifies) followed by the qualifying completed runs
/// of the remaining ticks.
proof fn lemma_run_open(a: ActiveSession, ticks: Seq<(bool, i64)>, min: u64)
    ensures
        run_ticks(Some(a), ticks, min).1 =~= keep_qualifying(completed_runs_open(a, ticks), min),
    decreases ticks.len(),
{
    if ticks.len() == 0 {
    } else {
        let t0 = ticks[0];
        let rest = ticks.drop_first();
        if t0.0 {
            let a1 = ActiveSession { start: a.start, last_seen: t0.1 };
            lemma_run_open(a1, rest, min);
            assert(opt_rec_seq(None) + run_ticks(Some(a1), rest, min).1 =~= run_ticks(
                Some(a1),
                rest,
                min,
            ).1);
        } else {
            let p = (a.start, a.last_seen);
            lemma_recorded_runs(rest, min);
            lemma_keep_qualifying_add(seq![p], completed_runs(rest), min);
            assert(seq![p].drop_first() =~= Seq::<(i64, i64)>::empty());
            assert(keep_qualifying(Seq::<(i64, i64)>::empty(), min) =~= Seq::<(i64, i64)>::empty());
            assert(keep_qualifying(seq![p].drop_first(), min) =~= Seq::<(i64, i64)>::empty());
            assert(seq![p][0] == p);
            if qualifies(a, min) {
                assert(span_qualifies(p, min));
                assert(keep_qualifying(seq![p], min) =~= seq![p] + keep_qualifying(
                    seq![p].drop_first(),
                    min,
                ));
                assert(keep_qualifying(seq![p], min) =~= seq![p]);
            } else {
                assert(!span_qualifies(p, min));
                assert(keep_qualifying(seq![p], min) =~= Seq::<(i64, i64)>::empty());
            }
        }
    }
}

/// For any tick sequence starting idle, the sessions the machine records
/// are exactly the completed maximal true-runs whose wall-clock span
/// reaches the configured minimum, each with start and end equal to its
/// run's first and last true tick.
pub proof fn lemma_recorded_runs(ticks: Seq<(bool, i64)>, min: u64)
    ensures
        run_ticks(None, ticks, min).1 =~= keep_qualifying(completed_runs(ticks), min),
    decreases ticks.len(),
{
    lemma_run_len_le(ticks);
    if ticks.len() == 0 {
    } else {
        let t0 = ticks[0];
        let rest = ticks.drop_first();
        if !t0.0 {
            lemma_recorded_runs(rest, min);
            assert(opt_rec_seq(None) + run_ticks(None, rest, min).1 =~= run_ticks(
                None,
                rest,
                min,
            ).1);
        } else {
            let a0 = ActiveSession { start: t0.1, last_seen: t0.1 };
            lemma_run_open(a0, rest, min);
            assert(opt_rec_seq(None) + run_ticks(Some(a0), rest, min).1 =~= run_ticks(
                Some(a0),
                rest,
                min,
            ).1);
            lemma_open_shape(a0, rest);
            lemma_run_len_le(rest);
            let k = run_len(ticks) as int;
            let k1 = run_len(rest) as int;
            assert(k == k1 + 1);
            if k1 == rest.len() {
                assert(completed_runs(ticks) =~= Seq::<(i64, i64)>::empty());
                assert(completed_runs_open(a0, rest) =~= Seq::<(i64, i64)>::empty());
            } else {
                let end = if k1 == 0 {
                    a0.last_seen
                } else {
                    rest[k1 - 1].1
                };
                if k1 > 0 {
                    assert(rest[k1 - 1] == ticks[k - 1]);
                }
                assert(end == ticks[k - 1].1);
                assert(completed_runs(ticks) =~= seq![(t0.1, ticks[k - 1].1)] + completed_runs(
                    ticks.subrange(k, ticks.len() as int),
                ));
                let tail = ticks.subrange(k, ticks.len() as int);
                assert(!tail[0].0) by {
                    assert(tail[0] == rest[k1]);
                    lemma_run_len_stops(rest, k1);
                }
                assert(tail.drop_first() =~= rest.subrange(k1 + 1, rest.len() as int));
                assert(completed_runs(tail) =~= completed_runs(
                    rest.subrange(k1 + 1, rest.len() as int),
                ));
                assert(completed_runs_open(a0, rest) =~= seq![(a0.start, end)] + completed_runs(
                    rest.subrange(k1 + 1, rest.len() as int),
                ));
            }
        }
    }
}

proof fn lemma_run_len_stops(ticks: Seq<(bool, i64)>, k: int)
    requires
        k == run_len(ticks),
        k < ticks.len(),
    ensures
        !ticks[k].0,
    decreases ticks.len(),
{
    if ticks.len() > 0 && ticks[0].0 {
        lemma_run_len_stops(ticks.drop_first(), k - 1);
        assert(ticks.drop_first()[k - 1] == ticks[k]);
    }
}

} // verus!
