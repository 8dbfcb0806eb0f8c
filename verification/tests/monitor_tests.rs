use star_citizen_playtime::monitor::{Monitor, MonitorState, MonitorStatus, TickAction};
use star_citizen_playtime::monitor::{snapshot_of, snapshot_on_stop};
use star_citizen_playtime::session::ActiveSession;

fn drive(
    monitor: &Monitor,
    ticks: &[(bool, i64)],
) -> (Option<ActiveSession>, Vec<(i64, i64)>, Option<ActiveSession>) {
    // interpret actions against an in-memory store model
    let mut state = MonitorState { active: None };
    let mut marker: Option<ActiveSession> = None;
    let mut recorded: Vec<(i64, i64)> = Vec::new();
    for &(running, now) in ticks {
        let (next, action) = monitor.tick(state, running, now);
        state = next;
        match action {
            TickAction::Stay => {}
            TickAction::Persist(a) => marker = Some(a),
            TickAction::Record(s) => {
                recorded.push((s.start, s.end));
                marker = None;
            }
            TickAction::Discard => marker = None,
        }
    }
    (marker, recorded, state.active)
}

#[test]
fn one_minute_run_is_recorded_and_marker_cleared() {
    // minimum session length 1 minute, poll every 15 s: true at
    // 0,15,30,45,60 then false at 75 gives exactly one session 0..60
    let monitor = Monitor::new(15, 1);
    let ticks = [(true, 0), (true, 15), (true, 30), (true, 45), (true, 60), (false, 75)];
    let (marker, recorded, active) = drive(&monitor, &ticks);
    assert_eq!(recorded, vec![(0, 60)]);
    assert!(marker.is_none());
    assert!(active.is_none());
}

#[test]
fn short_run_is_discarded_and_marker_cleared() {
    // one true tick then false: the span is shorter than the minimum
    let monitor = Monitor::new(15, 1);
    let ticks = [(true, 0), (false, 15)];
    let (marker, recorded, active) = drive(&monitor, &ticks);
    assert!(recorded.is_empty());
    assert!(marker.is_none());
    assert!(active.is_none());
}

#[test]
fn two_runs_record_two_sessions() {
    let monitor = Monitor::new(15, 1);
    let ticks = [
        (true, 0),
        (true, 70),
        (false, 85),
        (false, 100),
        (true, 200),
        (true, 290),
        (false, 305),
    ];
    let (_, recorded, _) = drive(&monitor, &ticks);
    assert_eq!(recorded, vec![(0, 70), (200, 290)]);
}

#[test]
fn trailing_open_run_stays_active() {
    let monitor = Monitor::new(15, 3);
    let ticks = [(true, 0), (true, 15)];
    let (marker, recorded, active) = drive(&monitor, &ticks);
    assert!(recorded.is_empty());
    let m = marker.expect("marker persisted");
    assert_eq!((m.start, m.last_seen), (0, 15));
    let a = active.expect("still tracking");
    assert_eq!((a.start, a.last_seen), (0, 15));
}

#[test]
fn heartbeat_refreshes_last_seen() {
    let monitor = Monitor::new(15, 3);
    let s0 = MonitorState { active: None };
    let (s1, a1) = monitor.tick(s0, true, 1000);
    match a1 {
        TickAction::Persist(ref a) => assert_eq!((a.start, a.last_seen), (1000, 1000)),
        _ => panic!("expected a persisted marker"),
    }
    let (s2, a2) = monitor.tick(s1, true, 1015);
    match a2 {
        TickAction::Persist(ref a) => assert_eq!((a.start, a.last_seen), (1000, 1015)),
        _ => panic!("expected a persisted marker"),
    }
    let a = s2.active.expect("tracking");
    assert_eq!((a.start, a.last_seen), (1000, 1015));
}

#[test]
fn idle_and_not_running_is_a_no_op() {
    let monitor = Monitor::new(15, 3);
    let (s1, a1) = monitor.tick(MonitorState { active: None }, false, 500);
    assert!(s1.active.is_none());
    assert!(matches!(a1, TickAction::Stay));
}

#[test]
fn recovery_finalizes_a_dead_marker() {
    // the marker's heartbeat is the recovered session's end time
    let monitor = Monitor::new(15, 1);
    let persisted = Some(ActiveSession { start: 5000, last_seen: 5090 });
    let (state, action) = monitor.recover(persisted, false);
    assert!(state.active.is_none());
    match action {
        TickAction::Record(s) => {
            assert_eq!((s.start, s.end), (5000, 5090));
            assert_eq!(s.duration_seconds, 90);
        }
        _ => panic!("expected a recovered session"),
    }
}

#[test]
fn recovery_discards_a_short_marker() {
    let monitor = Monitor::new(15, 3);
    let persisted = Some(ActiveSession { start: 5000, last_seen: 5030 });
    let (state, action) = monitor.recover(persisted, false);
    assert!(state.active.is_none());
    assert!(matches!(action, TickAction::Discard));
}

#[test]
fn recovery_resumes_while_running() {
    let monitor = Monitor::new(15, 3);
    let persisted = Some(ActiveSession { start: 5000, last_seen: 5030 });
    let (state, action) = monitor.recover(persisted, true);
    let a = state.active.expect("resumed");
    assert_eq!((a.start, a.last_seen), (5000, 5030));
    assert!(matches!(action, TickAction::Stay));
}

#[test]
fn stop_hands_back_the_marker() {
    let monitor = Monitor::new(15, 3);
    let state = MonitorState { active: Some(ActiveSession { start: 7, last_seen: 9 }) };
    let m = monitor.on_stop(&state).expect("marker to persist");
    assert_eq!((m.start, m.last_seen), (7, 9));
}

#[test]
fn stop_snapshot_is_pending_resume_while_tracking() {
    let with_marker = snapshot_on_stop(Some(ActiveSession { start: 3, last_seen: 5 }), None);
    assert!(matches!(with_marker.status, MonitorStatus::PendingResume));
    let without = snapshot_on_stop(None, None);
    assert!(matches!(without.status, MonitorStatus::Idle));
}

#[test]
fn snapshot_reflects_state() {
    let idle = snapshot_of(&MonitorState { active: None }, None);
    assert!(matches!(idle.status, MonitorStatus::Idle));
    assert!(idle.active_session.is_none());
    let tracking = snapshot_of(
        &MonitorState { active: Some(ActiveSession { start: 1, last_seen: 2 }) },
        None,
    );
    assert!(matches!(tracking.status, MonitorStatus::Tracking));
    assert!(tracking.active_session.is_some());
}
