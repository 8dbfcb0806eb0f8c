use star_citizen_playtime::fmt::{format_duration, format_elapsed};
use star_citizen_playtime::num::{format_i64, format_u64, parse_i64_at, parse_u64_at};
use star_citizen_playtime::probe::is_target_running;
use star_citizen_playtime::session::{active_session_seconds, ActiveSession};
use star_citizen_playtime::settings::{AppSettings, SettingsStore};
use star_citizen_playtime::startup;
use star_citizen_playtime::CoreError;

#[test]
fn decimal_rendering_round_trips() {
    for n in [0u64, 7, 10, 255, 1000000, u64::MAX] {
        let bytes = format_u64(n);
        let (v, end) = parse_u64_at(&bytes, 0).expect("parses");
        assert_eq!(v, n);
        assert_eq!(end, bytes.len());
    }
    for n in [0i64, -1, 42, -99999, i64::MIN, i64::MAX] {
        let bytes = format_i64(n);
        let (v, end) = parse_i64_at(&bytes, 0).expect("parses");
        assert_eq!(v, n);
        assert_eq!(end, bytes.len());
    }
    assert_eq!(format_u64(1234), b"1234".to_vec());
    assert_eq!(format_i64(-56), b"-56".to_vec());
}

#[test]
fn parser_rejects_oversized_runs() {
    let bytes = b"18446744073709551616".to_vec();  // one past the limit
    assert!(parse_u64_at(&bytes, 0).is_none());
    let fine = b"18446744073709551615".to_vec();
    assert_eq!(parse_u64_at(&fine, 0).unwrap().0, u64::MAX);
}

#[test]
fn durations_format_in_hours_and_minutes() {
    assert_eq!(format_duration(0), b"0m".to_vec());
    assert_eq!(format_duration(45 * 60), b"45m".to_vec());
    assert_eq!(format_duration(2 * 3600), b"2h".to_vec());
    assert_eq!(format_duration(2 * 3600 + 5 * 60), b"2h 5m".to_vec());
    assert_eq!(format_duration(59), b"0m".to_vec());
}

#[test]
fn elapsed_times_pick_the_largest_unit() {
    assert_eq!(format_elapsed(42), b"42s".to_vec());
    assert_eq!(format_elapsed(180), b"3m".to_vec());
    assert_eq!(format_elapsed(3600), b"1h".to_vec());
    assert_eq!(format_elapsed(3 * 3600 + 20 * 60), b"3h 20m".to_vec());
    assert_eq!(format_elapsed(2 * 86400), b"2d".to_vec());
    assert_eq!(format_elapsed(2 * 86400 + 5 * 3600), b"2d 5h".to_vec());
}

#[test]
fn probe_matches_known_names_case_insensitively() {
    let names = vec![
        b"explorer.exe".to_vec(),
        b"StarCitizen64.exe".to_vec(),
    ];
    assert!(is_target_running(&names));
    let other = vec![b"notepad.exe".to_vec(), b"browser".to_vec()];
    assert!(!is_target_running(&other));
    let spaced = vec![b"Star Citizen Launcher".to_vec()];
    assert!(is_target_running(&spaced));
    assert!(!is_target_running(&Vec::new()));
}

#[test]
fn settings_sanitize_clamps_and_trims() {
    let mut s = AppSettings::default();
    s.poll_seconds = 0;
    s.min_session_minutes = 5000;
    s.refresh_seconds = 99;
    s.show_daily_chart = false;
    s.show_weekly_chart = false;
    s.leaderboard_username = b"  a-very-long-name-that-goes-on-and-on-and-on  ".to_vec();
    s.sanitize();
    assert_eq!(s.poll_seconds, 1);
    assert_eq!(s.min_session_minutes, 1440);
    assert_eq!(s.refresh_seconds, 60);
    assert!(s.show_daily_chart);
    assert!(!s.show_weekly_chart);
    assert_eq!(s.leaderboard_username.len(), 32);
    assert_eq!(&s.leaderboard_username[..6], b"a-very");
}

#[test]
fn settings_defaults_match_the_documented_values() {
    let s = AppSettings::default();
    assert_eq!(s.poll_seconds, 15);
    assert_eq!(s.min_session_minutes, 3);
    assert_eq!(s.refresh_seconds, 5);
    assert!(!s.run_on_login);
    assert!(s.sync_leaderboard);
}

#[test]
fn settings_store_path_is_under_the_data_dir() {
    let store = SettingsStore::new(b"/data".to_vec());
    assert_eq!(store.path(), &b"/data/settings.json".to_vec());
}

#[test]
fn startup_registration_is_unavailable_here() {
    assert_eq!(
        startup::install(&b"/bin/app".to_vec(), &b"".to_vec()),
        Err(CoreError::Unsupported)
    );
    assert_eq!(startup::uninstall(), Err(CoreError::Unsupported));
    assert_eq!(startup::is_installed(), Ok(false));
}

#[test]
fn active_session_seconds_clamp_at_zero() {
    assert_eq!(
        active_session_seconds(&ActiveSession { start: 100, last_seen: 160 }),
        60
    );
    assert_eq!(
        active_session_seconds(&ActiveSession { start: 100, last_seen: 40 }),
        0
    );
}
