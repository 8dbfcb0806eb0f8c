use star_citizen_playtime::analytics::{compute_analytics, compute_analytics_from_days};
use star_citizen_playtime::calendar::{iso_week_of_day, local_day_of, today_local_day};
use star_citizen_playtime::session::Session;

use chrono::Datelike;

// chrono's day numbering: January 1 of year 1 is day 1
const EPOCH_DAY: i64 = 719163;

fn session_on(day: i64, start_in_day: i64, dur_secs: i64) -> (Session, i64) {
    let start = (day - EPOCH_DAY) * 86400 + start_in_day;
    (Session::new(start, start + dur_secs, Vec::new()), day)
}

#[test]
fn empty_history_is_all_zeros() {
    // zero counts and zero rolling sums, without failure
    let a = compute_analytics_from_days(&Vec::new(), &Vec::new(), EPOCH_DAY);
    assert_eq!(a.total_sessions, 0);
    assert_eq!(a.total_seconds, 0);
    assert_eq!(a.average_session_seconds, 0);
    assert_eq!(a.median_session_seconds, 0);
    assert_eq!(a.seconds_last_7, 0);
    assert_eq!(a.seconds_last_30, 0);
    assert!(a.top_days.is_empty());
    assert!(a.recent_sessions.is_empty());
    assert!(a.recent_daily.is_empty());
    assert!(a.recent_weekly.is_empty());
    assert_eq!(a.first_day, None);
    assert_eq!(a.last_day, None);
    let via_local = compute_analytics(&Vec::new());
    assert_eq!(via_local.total_sessions, 0);
}

#[test]
fn median_of_three_durations() {
    // durations 10, 20, 30 minutes: the median is 20 minutes
    let today = EPOCH_DAY + 10;
    let mut sessions = Vec::new();
    let mut days = Vec::new();
    for (i, mins) in [10i64, 20, 30].iter().enumerate() {
        let (s, d) = session_on(EPOCH_DAY + i as i64, 3600, mins * 60);
        sessions.push(s);
        days.push(d);
    }
    let a = compute_analytics_from_days(&sessions, &days, today);
    assert_eq!(a.median_session_seconds, 20 * 60);
    assert_eq!(a.average_session_seconds, 20 * 60);
    assert_eq!(a.total_seconds, 60 * 60);
}

#[test]
fn median_of_two_durations_is_their_mean() {
    // durations 10 and 20 minutes: the median is 15 minutes
    let today = EPOCH_DAY + 10;
    let mut sessions = Vec::new();
    let mut days = Vec::new();
    for (i, mins) in [10i64, 20].iter().enumerate() {
        let (s, d) = session_on(EPOCH_DAY + i as i64, 0, mins * 60);
        sessions.push(s);
        days.push(d);
    }
    let a = compute_analytics_from_days(&sessions, &days, today);
    assert_eq!(a.median_session_seconds, 15 * 60);
}

#[test]
fn rolling_windows_cover_trailing_days_inclusive() {
    let today = EPOCH_DAY + 40;
    let mut sessions = Vec::new();
    let mut days = Vec::new();
    // one hour today, one hour six days ago (inside the week), one hour
    // seven days ago (outside the week, inside the month), one hour
    // thirty days ago (outside both)
    for back in [0i64, 6, 7, 30] {
        let (s, d) = session_on(today - back, 60, 3600);
        sessions.push(s);
        days.push(d);
    }
    sessions.reverse();
    days.reverse();
    let a = compute_analytics_from_days(&sessions, &days, today);
    assert_eq!(a.seconds_last_7, 2 * 3600);
    assert_eq!(a.seconds_last_30, 3 * 3600);
    assert_eq!(a.first_day, Some(today - 30));
    assert_eq!(a.last_day, Some(today));
}

#[test]
fn daily_buckets_sum_per_day_and_top_days_rank_them() {
    let today = EPOCH_DAY + 5;
    let mut sessions = Vec::new();
    let mut days = Vec::new();
    // two sessions on one day, one on another
    for (day, dur) in [(EPOCH_DAY, 600i64), (EPOCH_DAY, 300), (EPOCH_DAY + 1, 1200)] {
        let (s, d) = session_on(day, sessions.len() as i64 * 4000, dur);
        sessions.push(s);
        days.push(d);
    }
    let a = compute_analytics_from_days(&sessions, &days, today);
    assert_eq!(a.recent_daily, vec![(EPOCH_DAY + 1, 1200), (EPOCH_DAY, 900)]);
    assert_eq!(a.top_days, vec![(EPOCH_DAY + 1, 1200), (EPOCH_DAY, 900)]);
    assert_eq!(a.recent_sessions.len(), 3);
    // newest first
    assert_eq!(a.recent_sessions[0].start, sessions[2].start);
}

#[test]
fn weekly_buckets_follow_the_iso_week() {
    // 2024-01-04 is a Thursday in ISO week 1 of 2024
    let day_2024_01_04: i64 = EPOCH_DAY + 19726;
    let wk = iso_week_of_day(day_2024_01_04);
    assert_eq!(wk, (2024, 1));
    // the previous Sunday, 2023-12-31, is in ISO week 52 of 2023
    assert_eq!(iso_week_of_day(day_2024_01_04 - 4), (2023, 52));

    let today = day_2024_01_04 + 2;
    let mut sessions = Vec::new();
    let mut days = Vec::new();
    for (day, dur) in [(day_2024_01_04 - 4, 600i64), (day_2024_01_04, 1800)] {
        let (s, d) = session_on(day, sessions.len() as i64 * 4000, dur);
        sessions.push(s);
        days.push(d);
    }
    let a = compute_analytics_from_days(&sessions, &days, today);
    // most recent week first
    assert_eq!(a.recent_weekly, vec![(2024, 1, 1800), (2023, 52, 600)]);
}

#[test]
fn local_day_wrappers_agree_with_chrono() {
    let ts: i64 = 1700000000;
    let expected = chrono::DateTime::from_timestamp(ts, 0)
        .unwrap()
        .with_timezone(&chrono::Local)
        .date_naive()
        .num_days_from_ce() as i64;
    assert_eq!(local_day_of(ts), expected);
    let today = today_local_day();
    let now = chrono::Local::now().date_naive().num_days_from_ce() as i64;
    assert!((today - now).abs() <= 1);
}

#[test]
fn twenty_most_recent_sessions_cap() {
    let today = EPOCH_DAY + 60;
    let mut sessions = Vec::new();
    let mut days = Vec::new();
    for i in 0..23i64 {
        let (s, d) = session_on(EPOCH_DAY + i, 100, 120);
        sessions.push(s);
        days.push(d);
    }
    let a = compute_analytics_from_days(&sessions, &days, today);
    assert_eq!(a.recent_sessions.len(), 20);
    assert_eq!(a.recent_sessions[0].start, sessions[22].start);
    assert_eq!(a.recent_sessions[19].start, sessions[3].start);
    assert_eq!(a.recent_daily.len(), 14);
    assert_eq!(a.top_days.len(), 5);
}
