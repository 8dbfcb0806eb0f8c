//! Human-readable durations.

use vstd::prelude::*;

use crate::num::{dec_digits, format_u64};
use crate::text::push_all;

verus! {

/// A duration under a minute is "Ns"; under an hour "Nm"; under a day
/// "Nh" or "Nh Mm"; otherwise "Nd" or "Nd Mh".
pub open spec fn elapsed_bytes(s: nat) -> Seq<u8> {
    if s < 60 {
        dec_digits(s) + seq!['s' as u8]
    } else if s < 3600 {
        dec_digits(s / 60) + seq!['m' as u8]
    } else if s < 86400 {
        if (s % 3600) / 60 == 0 {
            dec_digits(s / 3600) + seq!['h' as u8]
        } else {
            dec_digits(s / 3600) + seq!['h' as u8, ' ' as u8] + dec_digits((s % 3600) / 60) + seq![
                'm' as u8,
            ]
        }
    } else {
        if (s % 86400) / 3600 == 0 {
            dec_digits(s / 86400) + seq!['d' as u8]
        } else {
            dec_digits(s / 86400) + seq!['d' as u8, ' ' as u8] + dec_digits((s % 86400) / 3600)
                + seq!['h' as u8]
        }
    }
}

/// Renders an elapsed time, given in whole seconds.
pub fn format_elapsed(seconds: u64) -> (r: Vec<u8>)
    ensures
        r@ == elapsed_bytes(seconds as nat),
{
    let mut out: Vec<u8> = Vec::new();
    if seconds < 60 {
        let d = format_u64(seconds);
        push_all(&mut out, &d);
        out.push('s' as u8);
    } else if seconds < 3600 {
        let d = format_u64(seconds / 60);
        push_all(&mut out, &d);
        out.push('m' as u8);
    } else if seconds < 86400 {
        let h = format_u64(seconds / 3600);
        push_all(&mut out, &h);
        out.push('h' as u8);
        let mins: u64 = (seconds % 3600) / 60;
        if mins != 0 {
            out.push(' ' as u8);
            let m = format_u64(mins);
            push_all(&mut out, &m);
            out.push('m' as u8);
        }
    } else {
        let d = format_u64(seconds / 86400);
        push_all(&mut out, &d);
        out.push('d' as u8);
        let hours: u64 = (seconds % 86400) / 3600;
        if hours != 0 {
            out.push(' ' as u8);
            let h = format_u64(hours);
            push_all(&mut out, &h);
            out.push('h' as u8);
        }
    }
    proof {
        assert(out@ =~= elapsed_bytes(seconds as nat));
    }
    out
}

/// A duration in whole hours and minutes: "Mm" under an hour (including
/// "0m" for nothing), "Hh" on the whole hour, otherwise "Hh Mm".
pub open spec fn duration_bytes(s: nat) -> Seq<u8> {
    let hours = s / 3600;
    let mins = (s % 3600) / 60;
    if hours == 0 {
        dec_digits(mins) + seq!['m' as u8]
    } else if mins == 0 {
        dec_digits(hours) + seq!['h' as u8]
    } else {
        dec_digits(hours) + seq!['h' as u8, ' ' as u8] + dec_digits(mins) + seq!['m' as u8]
    }
}

/// Renders a session duration, given in whole seconds.
pub fn format_duration(total_seconds: u64) -> (r: Vec<u8>)
    ensures
        r@ == duration_bytes(total_seconds as nat),
{
    let hours: u64 = total_seconds / 3600;
    let mins: u64 = (total_seconds % 3600) / 60;
    let mut out: Vec<u8> = Vec::new();
    if hours == 0 {
        let m = format_u64(mins);
        push_all(&mut out, &m);
        out.push('m' as u8);
    } else if mins == 0 {
        let h = format_u64(hours);
        push_all(&mut out, &h);
        out.push('h' as u8);
    } else {
        let h = format_u64(hours);
        push_all(&mut out, &h);
        out.push('h' as u8);
        out.push(' ' as u8);
        let m = format_u64(mins);
        push_all(&mut out, &m);
        out.push('m' as u8);
    }
    proof {
        assert(out@ =~= duration_bytes(total_seconds as nat));
    }
    out
}

} // verus!
