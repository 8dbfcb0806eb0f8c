//! Application settings: the plain configuration values the core
//! consumes, with the validation that keeps them in range.
//!
//! Loading and saving the settings file is the caller's concern; the
//! library owns the values and their sanitation.

use vstd::prelude::*;

use crate::clamp_u64;
use crate::text::{trim, trim_seq};

verus! {

/// Configuration for the monitor, the dashboard cadence, and the
/// leaderboard sync.
pub struct AppSettings {
    pub poll_seconds: u64,
    pub min_session_minutes: u64,
    pub refresh_seconds: u64,
    pub run_on_login: bool,
    pub show_daily_chart: bool,
    pub show_weekly_chart: bool,
    pub sync_leaderboard: bool,
    pub leaderboard_username: Vec<u8>,
}

impl Clone for AppSettings {
    fn clone(&self) -> (r: AppSettings)
        ensures
            r.poll_seconds == self.poll_seconds,
            r.min_session_minutes == self.min_session_minutes,
            r.refresh_seconds == self.refresh_seconds,
            r.run_on_login == self.run_on_login,
            r.show_daily_chart == self.show_daily_chart,
            r.show_weekly_chart == self.show_weekly_chart,
            r.sync_leaderboard == self.sync_leaderboard,
            r.leaderboard_username@ == self.leaderboard_username@,
    {
        AppSettings {
            poll_seconds: self.poll_seconds,
            min_session_minutes: self.min_session_minutes,
            refresh_seconds: self.refresh_seconds,
            run_on_login: self.run_on_login,
            show_daily_chart: self.show_daily_chart,
            show_weekly_chart: self.show_weekly_chart,
            sync_leaderboard: self.sync_leaderboard,
            leaderboard_username: self.leaderboard_username.clone(),
        }
    }
}

impl Default for AppSettings {
    /// The defaults: poll every 15 s, keep sessions of 3 minutes or
    /// more, refresh every 5 s, both charts on, sync on, no name.
    fn default() -> (r: AppSettings)
        ensures
            r.poll_seconds == 15,
            r.min_session_minutes == 3,
            r.refresh_seconds == 5,
            !r.run_on_login,
            r.show_daily_chart,
            r.show_weekly_chart,
            r.sync_leaderboard,
            r.leaderboard_username@.len() == 0,
    {
        AppSettings {
            poll_seconds: 15,
            min_session_minutes: 3,
            refresh_seconds: 5,
            run_on_login: false,
            show_daily_chart: true,
            show_weekly_chart: true,
            sync_leaderboard: true,
            leaderboard_username: Vec::new(),
        }
    }
}

/// A spec-level clamp.
pub open spec fn clamped(v: int, lo: int, hi: int) -> int {
    if v < lo {
        lo
    } else if v > hi {
        hi
    } else {
        v
    }
}

/// The username after sanitation: trimmed, then cut to 32 bytes.
pub open spec fn sane_username(s: Seq<u8>) -> Seq<u8> {
    if trim_seq(s).len() <= 32 {
        trim_seq(s)
    } else {
        trim_seq(s).subrange(0, 32)
    }
}

impl AppSettings {
    /// Clamps every numeric value into its legal range, keeps at least
    /// one chart on, and trims and caps the display name.
    pub fn sanitize(&mut self)
        ensures
            final(self).poll_seconds == clamped(old(self).poll_seconds as int, 1, 3600),
            final(self).min_session_minutes == clamped(
                old(self).min_session_minutes as int,
                1,
                1440,
            ),
            final(self).refresh_seconds == clamped(old(self).refresh_seconds as int, 1, 60),
            final(self).run_on_login == old(self).run_on_login,
            final(self).show_daily_chart == (old(self).show_daily_chart || !old(
                self,
            ).show_weekly_chart),
            final(self).show_weekly_chart == old(self).show_weekly_chart,
            final(self).sync_leaderboard == old(self).sync_leaderboard,
            final(self).leaderboard_username@ == sane_username(old(self).leaderboard_username@),
    {
        self.poll_seconds = clamp_u64(self.poll_seconds, 1, 3600);
        self.min_session_minutes = clamp_u64(self.min_session_minutes, 1, 1440);
        self.refresh_seconds = clamp_u64(self.refresh_seconds, 1, 60);
        if !self.show_daily_chart && !self.show_weekly_chart {
            self.show_daily_chart = true;
        }
        let trimmed = trim(&self.leaderboard_username);
        if trimmed.len() > 32 {
            let mut cut: Vec<u8> = Vec::new();
            let mut i: usize = 0;
            while i < 32
                invariant
                    i <= 32 <= trimmed@.len(),
                    cut@ =~= trimmed@.subrange(0, i as int),
                decreases 32 - i,
            {
                cut.push(trimmed[i]);
                i = i + 1;
                proof {
                    assert(trimmed@.subrange(0, i as int) =~= trimmed@.subrange(0, i - 1).push(
                        trimmed@[i - 1],
                    ));
                }
            }
            self.leaderboard_username = cut;
        } else {
            self.leaderboard_username = trimmed;
        }
    }
}

/// Bytes of the settings file's name.
pub open spec fn settings_file_name() -> Seq<u8> {
    seq![
        's' as u8, 'e' as u8, 't' as u8, 't' as u8, 'i' as u8, 'n' as u8, 'g' as u8, 's' as u8,
        '.' as u8, 'j' as u8, 's' as u8, 'o' as u8, 'n' as u8,
    ]
}

/// Where the settings live under a data directory.
pub struct SettingsStore {
    pub path: Vec<u8>,
}

impl SettingsStore {
    /// Points the store at `settings.json` under the data directory.
    pub fn new(data_dir: Vec<u8>) -> (r: SettingsStore)
        ensures
            r.path@ == data_dir@ + seq![47u8] + settings_file_name(),
    {
        let ghost dd = data_dir@;
        let mut path = data_dir;
        path.push(47);
        path.push('s' as u8);
        path.push('e' as u8);
        path.push('t' as u8);
        path.push('t' as u8);
        path.push('i' as u8);
        path.push('n' as u8);
        path.push('g' as u8);
        path.push('s' as u8);
        path.push('.' as u8);
        path.push('j' as u8);
        path.push('s' as u8);
        path.push('o' as u8);
        path.push('n' as u8);
        proof {
            assert(path@ =~= dd + seq![47u8] + settings_file_name());
        }
        SettingsStore { path }
    }

    pub fn path(&self) -> (r: &Vec<u8>)
        ensures
            r@ == self.path@,
    {
        &self.path
    }
}

} // verus!
