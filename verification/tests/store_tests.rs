use star_citizen_playtime::session::{ActiveSession, Session};
use star_citizen_playtime::store::{force_csv_extension, SessionStore};
use star_citizen_playtime::CoreError;

fn store() -> SessionStore {
    SessionStore::new(b"/tmp/playtime".to_vec())
}

#[test]
fn store_paths_are_laid_out_under_the_data_dir() {
    let s = store();
    assert_eq!(s.data_dir(), &b"/tmp/playtime".to_vec());
    assert_eq!(s.sessions_file, b"/tmp/playtime/sessions.json".to_vec());
    assert_eq!(s.active_file, b"/tmp/playtime/active_session.json".to_vec());
}

#[test]
fn active_marker_round_trips() {
    // saving the marker and loading it back returns an equal value
    let s = store();
    let marker = ActiveSession { start: 1700000000, last_seen: 1700000123 };
    let bytes = s.save_active(&marker);
    let loaded = s.load_active(Some(&bytes)).expect("parses").expect("present");
    assert_eq!(loaded.start, marker.start);
    assert_eq!(loaded.last_seen, marker.last_seen);
}

#[test]
fn active_marker_round_trips_negative_times() {
    let s = store();
    let marker = ActiveSession { start: -12345, last_seen: -12000 };
    let bytes = s.save_active(&marker);
    let loaded = s.load_active(Some(&bytes)).expect("parses").expect("present");
    assert_eq!(loaded.start, -12345);
    assert_eq!(loaded.last_seen, -12000);
}

#[test]
fn active_marker_bytes_are_the_expected_record() {
    let s = store();
    let bytes = s.save_active(&ActiveSession { start: 5, last_seen: 9 });
    assert_eq!(bytes, b"{\"start\":5,\"last_seen\":9}".to_vec());
}

#[test]
fn absent_active_content_is_no_marker() {
    let s = store();
    assert!(s.load_active(None).expect("ok").is_none());
}

#[test]
fn garbage_active_content_is_a_parse_error() {
    let s = store();
    let garbage = b"not a record".to_vec();
    assert_eq!(s.load_active(Some(&garbage)), Err(CoreError::Parse));
}

#[test]
fn absent_sessions_content_is_an_empty_history() {
    let s = store();
    assert!(s.load_sessions(None).expect("ok").is_empty());
    let empty = b"[]".to_vec();
    assert!(s.load_sessions(Some(&empty)).expect("ok").is_empty());
}

#[test]
fn garbage_sessions_content_is_a_parse_error() {
    let s = store();
    let garbage = b"{\"oops\":1}".to_vec();
    assert_eq!(s.load_sessions(Some(&garbage)).err(), Some(CoreError::Parse));
}

#[test]
fn session_history_round_trips_through_its_record() {
    let s = store();
    let mut history = vec![
        Session::new(100, 700, b"first".to_vec()),
        Session::new(1000, 1900, b"second \"quoted\"".to_vec()),
    ];
    let bytes = s.save_sessions(&mut history);
    let loaded = s.load_sessions(Some(&bytes)).expect("parses");
    assert_eq!(loaded.len(), 2);
    assert_eq!(loaded[0].start, 100);
    assert_eq!(loaded[0].end, 700);
    assert_eq!(loaded[0].duration_seconds, 600);
    assert_eq!(loaded[0].note, b"first".to_vec());
    assert_eq!(loaded[1].note, b"second \"quoted\"".to_vec());
    assert_eq!(loaded[0].id, history[0].id);
}

#[test]
fn notes_with_control_bytes_round_trip_exactly() {
    // a newline inside a note survives save and load
    let s = store();
    let mut history = vec![Session::new(10, 700, b"line one\nline two\ttabbed".to_vec())];
    let bytes = s.save_sessions(&mut history);
    let loaded = s.load_sessions(Some(&bytes)).expect("parses");
    assert_eq!(loaded[0].note, b"line one\nline two\ttabbed".to_vec());
}

#[test]
fn append_keeps_the_history_sorted_by_start() {
    let s = store();
    let mut history = vec![Session::new(500, 900, Vec::new())];
    let bytes = s.append_session(&mut history, Session::new(100, 200, Vec::new()));
    assert_eq!(history.len(), 2);
    assert_eq!(history[0].start, 100);
    assert_eq!(history[1].start, 500);
    let loaded = s.load_sessions(Some(&bytes)).expect("parses");
    assert_eq!(loaded.len(), 2);
    assert_eq!(loaded[0].start, 100);
}

#[test]
fn csv_extension_is_always_forced() {
    // a differing extension is replaced, a missing one appended
    assert_eq!(force_csv_extension(&b"report.txt".to_vec()), b"report.csv".to_vec());
    assert_eq!(force_csv_extension(&b"report".to_vec()), b"report.csv".to_vec());
    assert_eq!(force_csv_extension(&b"report.csv".to_vec()), b"report.csv".to_vec());
    assert_eq!(force_csv_extension(&b"dir.d/report".to_vec()), b"dir.d/report.csv".to_vec());
    assert_eq!(force_csv_extension(&b"a.tar.gz".to_vec()), b"a.tar.csv".to_vec());
    assert_eq!(force_csv_extension(&b"/x/.hidden".to_vec()), b"/x/.hidden.csv".to_vec());
}

#[test]
fn csv_export_writes_one_row_per_session() {
    let s = store();
    let sessions = vec![
        Session::new(0, 90, b"alpha".to_vec()),
        Session::new(100, 200, b"say \"hi\"".to_vec()),
    ];
    let (count, path, content) = s.export_csv(&b"out.txt".to_vec(), &sessions);
    assert_eq!(count, 2);
    assert_eq!(path, b"out.csv".to_vec());
    let text = String::from_utf8(content).expect("ascii");
    let lines: Vec<&str> = text.lines().collect();
    assert_eq!(lines.len(), 3);
    assert_eq!(lines[0], "id,start,end,duration_minutes,note");
    // 90 seconds is 1.50 minutes; timestamps are UTC RFC 3339
    assert!(lines[1].contains(",1970-01-01T00:00:00Z,1970-01-01T00:01:30Z,1.50,\"alpha\""));
    // an embedded quote is downgraded to an apostrophe
    assert!(lines[2].ends_with(",1.67,\"say 'hi'\""));
}

#[test]
fn csv_export_of_empty_history_is_just_the_header() {
    let s = store();
    let (count, _, content) = s.export_csv(&b"o.csv".to_vec(), &Vec::new());
    assert_eq!(count, 0);
    assert_eq!(content, b"id,start,end,duration_minutes,note\n".to_vec());
}

#[test]
fn session_ids_look_like_identifiers() {
    let s = Session::new(0, 60, Vec::new());
    assert_eq!(s.id.len(), 36);
    assert_eq!(s.id.iter().filter(|&&b| b == b'-').count(), 4);
    let t = Session::new(0, 60, Vec::new());
    assert_ne!(s.id, t.id);
}

#[test]
fn durations_clamp_at_zero() {
    let s = Session::new(100, 40, Vec::new());
    assert_eq!(s.duration_seconds, 0);
}
