//! The persisted record formats.
//!
//! Each record is a small JSON-shaped byte string owned by this library:
//! an object with a fixed key order, integer fields in decimal, string
//! fields quoted, with `"`, `\` and control bytes escaped by a
//! backslash. Every parser is pinned to a spec-level mirror, and
//! round-trip lemmas connect the writers to the readers.

use vstd::prelude::*;

use crate::num::{
    all_digits, dec_digits, dec_digits_i64, digit_run_end, format_i64, format_u64, is_digit,
    lemma_digit_run_end_unique, lemma_spec_parse_i64_of_format, lemma_spec_parse_u64_of_format,
    parse_i64_at, parse_u64_spec, spec_parse_i64, spec_parse_u64,
};
use crate::leaderboard::LeaderboardEntry;
use crate::session::{ActiveSession, Session};
use crate::text::{bytes_eq, match_at, push_all};

verus! {

/// Escaping of one byte inside a quoted string: quote, backslash and
/// control bytes get a leading backslash, so every byte string round
/// trips exactly.
pub open spec fn esc_byte(b: u8) -> Seq<u8> {
    if b == 34 || b == 92 || b < 32 {
        seq![92u8, b]
    } else {
        seq![b]
    }
}

/// Escaping of a whole string body.
pub open spec fn esc_seq(s: Seq<u8>) -> Seq<u8>
    decreases s.len(),
{
    if s.len() == 0 {
        Seq::empty()
    } else {
        esc_byte(s[0]) + esc_seq(s.drop_first())
    }
}

proof fn lemma_esc_push(a: Seq<u8>, b: u8)
    ensures
        esc_seq(a.push(b)) =~= esc_seq(a) + esc_byte(b),
    decreases a.len(),
{
    if a.len() == 0 {
        assert(a.push(b).drop_first() =~= Seq::<u8>::empty());
        assert(a.push(b)[0] == b);
        assert(esc_seq(a.push(b)) == esc_byte(a.push(b)[0]) + esc_seq(a.push(b).drop_first()));
        assert(esc_seq(Seq::<u8>::empty()) =~= Seq::<u8>::empty());
        assert(esc_seq(a.push(b)) =~= esc_byte(b));
        assert(esc_seq(a) =~= Seq::<u8>::empty());
    } else {
        assert(a.push(b).drop_first() =~= a.drop_first().push(b));
        lemma_esc_push(a.drop_first(), b);
        assert(a.push(b)[0] == a[0]);
        assert(esc_seq(a.push(b)) =~= esc_byte(a[0]) + esc_seq(a.drop_first().push(b)));
        assert(esc_seq(a.push(b)) =~= esc_byte(a[0]) + (esc_seq(a.drop_first()) + esc_byte(b)));
    }
}

/// Appends `"` + escaped body + `"` to `out`.
pub fn push_quoted(out: &mut Vec<u8>, s: &Vec<u8>)
    ensures
        final(out)@ == old(out)@ + seq![34u8] + esc_seq(s@) + seq![34u8],
{
    out.push(34);
    let mut i: usize = 0;
    while i < s.len()
        invariant
            i <= s@.len(),
            out@ =~= old(out)@ + seq![34u8] + esc_seq(s@.subrange(0, i as int)),
        decreases s@.len() - i,
    {
        let b = s[i];
        if b == 34 || b == 92 || b < 32 {
            out.push(92);
            out.push(b);
        } else {
            out.push(b);
        }
        i = i + 1;
        proof {
            assert(s@.subrange(0, i as int) =~= s@.subrange(0, i - 1).push(s@[i - 1]));
            lemma_esc_push(s@.subrange(0, i - 1), s@[i - 1]);
        }
    }
    out.push(34);
    proof {
        assert(s@.subrange(0, s@.len() as int) =~= s@);
        assert(out@ =~= old(out)@ + seq![34u8] + esc_seq(s@) + seq![34u8]);
    }
}

/// What reading a quoted string body from position `j` (just after the
/// opening quote) must yield: the unescaped body and the position just
/// past the closing quote.
pub open spec fn spec_parse_str_body(s: Seq<u8>, j: int) -> Option<(Seq<u8>, int)>
    decreases s.len() - j,
{
    if j < 0 || j >= s.len() {
        None
    } else if s[j] == 34 {
        Some((Seq::empty(), j + 1))
    } else if s[j] == 92 {
        if j + 1 >= s.len() {
            None
        } else {
            match spec_parse_str_body(s, j + 2) {
                None => None,
                Some((t, e)) => Some((seq![s[j + 1]] + t, e)),
            }
        }
    } else {
        match spec_parse_str_body(s, j + 1) {
            None => None,
            Some((t, e)) => Some((seq![s[j]] + t, e)),
        }
    }
}

/// Reading a quoted string starting at its opening quote.
pub open spec fn spec_parse_string(s: Seq<u8>, i: int) -> Option<(Seq<u8>, int)> {
    if 0 <= i < s.len() && s[i] == 34 {
        spec_parse_str_body(s, i + 1)
    } else {
        None
    }
}

/// Reads a quoted, escaped string.
pub fn parse_string_at(s: &Vec<u8>, i: usize) -> (r: Option<(Vec<u8>, usize)>)
    ensures
        match r {
            Some((v, e)) => e <= s@.len() && spec_parse_string(s@, i as int) == Some(
                (v@, e as int),
            ),
            None => spec_parse_string(s@, i as int) is None,
        },
{
    if !(i < s.len() && s[i] == 34) {
        return None;
    }
    let mut out: Vec<u8> = Vec::new();
    let mut j: usize = i + 1;
    loop
        invariant
            i < s@.len(),
            s@[i as int] == 34,
            i + 1 <= j <= s@.len(),
            spec_parse_str_body(s@, i + 1) == (match spec_parse_str_body(s@, j as int) {
                None => None::<(Seq<u8>, int)>,
                Some((t, e)) => Some((out@ + t, e)),
            }),
        decreases s@.len() - j,
    {
        if j >= s.len() {
            return None;
        }
        let b = s[j];
        if b == 34 {
            proof {
                assert(out@ + Seq::<u8>::empty() =~= out@);
            }
            return Some((out, j + 1));
        }
        if b == 92 {
            if j + 1 >= s.len() {
                return None;
            }
            let c = s[j + 1];
            let ghost before = out@;
            out.push(c);
            proof {
                match spec_parse_str_body(s@, j + 2) {
                    None => {},
                    Some((t, e)) => {
                        assert((before + (seq![c] + t)) =~= (out@ + t));
                    },
                }
            }
            j = j + 2;
        } else {
            let ghost before = out@;
            out.push(b);
            proof {
                match spec_parse_str_body(s@, j + 1) {
                    None => {},
                    Some((t, e)) => {
                        assert((before + (seq![b] + t)) =~= (out@ + t));
                    },
                }
            }
            j = j + 1;
        }
    }
}

/// The string reader reads back exactly what the string writer wrote.
pub proof fn lemma_parse_escaped(s: Seq<u8>, buf: Seq<u8>, j: int)
    requires
        0 <= j,
        j + esc_seq(s).len() + 1 <= buf.len(),
        buf.subrange(j, j + esc_seq(s).len() as int) == esc_seq(s),
        buf[j + esc_seq(s).len()] == 34,
    ensures
        spec_parse_str_body(buf, j) == Some((s, j + esc_seq(s).len() + 1)),
    decreases s.len(),
{
    if s.len() == 0 {
        assert(buf[j] == 34);
    } else {
        let b = s[0];
        let rest = s.drop_first();
        let eb = esc_byte(b);
        let er = esc_seq(rest);
        assert(esc_seq(s) == eb + er);
        let jr = j + eb.len();
        assert forall|k: int| 0 <= k < er.len() implies buf.subrange(jr, jr + er.len() as int)[k]
            == er[k] by {
            assert(buf[jr + k] == buf.subrange(j, j + esc_seq(s).len() as int)[eb.len() + k]);
            assert((eb + er)[eb.len() + k] == er[k]);
        }
        assert(buf.subrange(jr, jr + er.len() as int) =~= er);
        lemma_parse_escaped(rest, buf, jr);
        if b == 34 || b == 92 || b < 32 {
            assert(buf[j] == 92) by {
                assert(buf.subrange(j, j + esc_seq(s).len() as int)[0] == buf[j]);
            }
            assert(buf[j + 1] == b) by {
                assert(buf.subrange(j, j + esc_seq(s).len() as int)[1] == buf[j + 1]);
            }
            assert(spec_parse_str_body(buf, j) == Some((seq![b] + rest, j + esc_seq(s).len() + 1)));
        } else {
            assert(buf[j] == b) by {
                assert(buf.subrange(j, j + esc_seq(s).len() as int)[0] == buf[j]);
            }
            assert(b != 34 && b != 92);
            assert(spec_parse_str_body(buf, j) == Some((seq![b] + rest, j + esc_seq(s).len() + 1)));
        }
        assert(seq![b] + rest =~= s);
    }
}

/// What matching fixed bytes at position `i` must yield: the position just
/// past them, when they are there.
pub open spec fn spec_expect(s: Seq<u8>, i: int, x: Seq<u8>) -> Option<int> {
    if 0 <= i && i + x.len() <= s.len() && s.subrange(i, i + x.len() as int) == x {
        Some(i + x.len() as int)
    } else {
        None
    }
}

/// Matches the fixed bytes `x` at position `i`.
pub fn expect_bytes(s: &Vec<u8>, i: usize, x: &Vec<u8>) -> (r: Option<usize>)
    ensures
        match r {
            Some(e) => e <= s@.len() && spec_expect(s@, i as int, x@) == Some(e as int),
            None => spec_expect(s@, i as int, x@) is None,
        },
{
    if i > s.len() || x.len() > s.len() - i {
        return None;
    }
    if match_at(s, x, i) {
        Some(i + x.len())
    } else {
        None
    }
}

/// The active-marker record's opening: `{"start":`.
pub open spec fn active_head_b() -> Seq<u8> {
    seq!['{' as u8, '\"' as u8, 's' as u8, 't' as u8, 'a' as u8, 'r' as u8, 't' as u8, '\"' as u8, ':' as u8]
}

fn active_head() -> (r: Vec<u8>)
    ensures
        r@ == active_head_b(),
{
    let mut v: Vec<u8> = Vec::new();
    v.push('{' as u8);
    v.push('\"' as u8);
    v.push('s' as u8);
    v.push('t' as u8);
    v.push('a' as u8);
    v.push('r' as u8);
    v.push('t' as u8);
    v.push('\"' as u8);
    v.push(':' as u8);
    proof {
        assert(v@ =~= active_head_b());
    }
    v
}

/// The active-marker record's second key: `,"last_seen":`.
pub open spec fn active_mid_b() -> Seq<u8> {
    seq![',' as u8, '\"' as u8, 'l' as u8, 'a' as u8, 's' as u8, 't' as u8, '_' as u8, 's' as u8, 'e' as u8, 'e' as u8, 'n' as u8, '\"' as u8, ':' as u8]
}

fn active_mid() -> (r: Vec<u8>)
    ensures
        r@ == active_mid_b(),
{
    let mut v: Vec<u8> = Vec::new();
    v.push(',' as u8);
    v.push('\"' as u8);
    v.push('l' as u8);
    v.push('a' as u8);
    v.push('s' as u8);
    v.push('t' as u8);
    v.push('_' as u8);
    v.push('s' as u8);
    v.push('e' as u8);
    v.push('e' as u8);
    v.push('n' as u8);
    v.push('\"' as u8);
    v.push(':' as u8);
    proof {
        assert(v@ =~= active_mid_b());
    }
    v
}

/// The session record's opening: `{"id":`.
pub open spec fn sess_head_b() -> Seq<u8> {
    seq!['{' as u8, '\"' as u8, 'i' as u8, 'd' as u8, '\"' as u8, ':' as u8]
}

fn sess_head() -> (r: Vec<u8>)
    ensures
        r@ == sess_head_b(),
{
    let mut v: Vec<u8> = Vec::new();
    v.push('{' as u8);
    v.push('\"' as u8);
    v.push('i' as u8);
    v.push('d' as u8);
    v.push('\"' as u8);
    v.push(':' as u8);
    proof {
        assert(v@ =~= sess_head_b());
    }
    v
}

/// Session key `,"start":`.
pub open spec fn sess_k_start_b() -> Seq<u8> {
    seq![',' as u8, '\"' as u8, 's' as u8, 't' as u8, 'a' as u8, 'r' as u8, 't' as u8, '\"' as u8, ':' as u8]
}

fn sess_k_start() -> (r: Vec<u8>)
    ensures
        r@ == sess_k_start_b(),
{
    let mut v: Vec<u8> = Vec::new();
    v.push(',' as u8);
    v.push('\"' as u8);
    v.push('s' as u8);
    v.push('t' as u8);
    v.push('a' as u8);
    v.push('r' as u8);
    v.push('t' as u8);
    v.push('\"' as u8);
    v.push(':' as u8);
    proof {
        assert(v@ =~= sess_k_start_b());
    }
    v
}

/// Session key `,"end":`.
pub open spec fn sess_k_end_b() -> Seq<u8> {
    seq![',' as u8, '\"' as u8, 'e' as u8, 'n' as u8, 'd' as u8, '\"' as u8, ':' as u8]
}

fn sess_k_end() -> (r: Vec<u8>)
    ensures
        r@ == sess_k_end_b(),
{
    let mut v: Vec<u8> = Vec::new();
    v.push(',' as u8);
    v.push('\"' as u8);
    v.push('e' as u8);
    v.push('n' as u8);
    v.push('d' as u8);
    v.push('\"' as u8);
    v.push(':' as u8);
    proof {
        assert(v@ =~= sess_k_end_b());
    }
    v
}

/// Session key `,"duration_seconds":`.
pub open spec fn sess_k_dur_b() -> Seq<u8> {
    seq![',' as u8, '\"' as u8, 'd' as u8, 'u' as u8, 'r' as u8, 'a' as u8, 't' as u8, 'i' as u8, 'o' as u8, 'n' as u8, '_' as u8, 's' as u8, 'e' as u8, 'c' as u8, 'o' as u8, 'n' as u8, 'd' as u8, 's' as u8, '\"' as u8, ':' as u8]
}

fn sess_k_dur() -> (r: Vec<u8>)
    ensures
        r@ == sess_k_dur_b(),
{
    let mut v: Vec<u8> = Vec::new();
    v.push(',' as u8);
    v.push('\"' as u8);
    v.push('d' as u8);
    v.push('u' as u8);
    v.push('r' as u8);
    v.push('a' as u8);
    v.push('t' as u8);
    v.push('i' as u8);
    v.push('o' as u8);
    v.push('n' as u8);
    v.push('_' as u8);
    v.push('s' as u8);
    v.push('e' as u8);
    v.push('c' as u8);
    v.push('o' as u8);
    v.push('n' as u8);
    v.push('d' as u8);
    v.push('s' as u8);
    v.push('\"' as u8);
    v.push(':' as u8);
    proof {
        assert(v@ =~= sess_k_dur_b());
    }
    v
}

/// Session key `,"note":`.
pub open spec fn sess_k_note_b() -> Seq<u8> {
    seq![',' as u8, '\"' as u8, 'n' as u8, 'o' as u8, 't' as u8, 'e' as u8, '\"' as u8, ':' as u8]
}

fn sess_k_note() -> (r: Vec<u8>)
    ensures
        r@ == sess_k_note_b(),
{
    let mut v: Vec<u8> = Vec::new();
    v.push(',' as u8);
    v.push('\"' as u8);
    v.push('n' as u8);
    v.push('o' as u8);
    v.push('t' as u8);
    v.push('e' as u8);
    v.push('\"' as u8);
    v.push(':' as u8);
    proof {
        assert(v@ =~= sess_k_note_b());
    }
    v
}

/// The leaderboard entry's opening: `{"username":`.
pub open spec fn entry_head_b() -> Seq<u8> {
    seq!['{' as u8, '\"' as u8, 'u' as u8, 's' as u8, 'e' as u8, 'r' as u8, 'n' as u8, 'a' as u8, 'm' as u8, 'e' as u8, '\"' as u8, ':' as u8]
}

fn entry_head() -> (r: Vec<u8>)
    ensures
        r@ == entry_head_b(),
{
    let mut v: Vec<u8> = Vec::new();
    v.push('{' as u8);
    v.push('\"' as u8);
    v.push('u' as u8);
    v.push('s' as u8);
    v.push('e' as u8);
    v.push('r' as u8);
    v.push('n' as u8);
    v.push('a' as u8);
    v.push('m' as u8);
    v.push('e' as u8);
    v.push('\"' as u8);
    v.push(':' as u8);
    proof {
        assert(v@ =~= entry_head_b());
    }
    v
}

/// Leaderboard entry key `,"total_minutes":`.
pub open spec fn entry_k_total_b() -> Seq<u8> {
    seq![',' as u8, '\"' as u8, 't' as u8, 'o' as u8, 't' as u8, 'a' as u8, 'l' as u8, '_' as u8, 'm' as u8, 'i' as u8, 'n' as u8, 'u' as u8, 't' as u8, 'e' as u8, 's' as u8, '\"' as u8, ':' as u8]
}

fn entry_k_total() -> (r: Vec<u8>)
    ensures
        r@ == entry_k_total_b(),
{
    let mut v: Vec<u8> = Vec::new();
    v.push(',' as u8);
    v.push('\"' as u8);
    v.push('t' as u8);
    v.push('o' as u8);
    v.push('t' as u8);
    v.push('a' as u8);
    v.push('l' as u8);
    v.push('_' as u8);
    v.push('m' as u8);
    v.push('i' as u8);
    v.push('n' as u8);
    v.push('u' as u8);
    v.push('t' as u8);
    v.push('e' as u8);
    v.push('s' as u8);
    v.push('\"' as u8);
    v.push(':' as u8);
    proof {
        assert(v@ =~= entry_k_total_b());
    }
    v
}

/// The boolean literal `true`.
pub open spec fn lit_true_b() -> Seq<u8> {
    seq!['t' as u8, 'r' as u8, 'u' as u8, 'e' as u8]
}

fn lit_true() -> (r: Vec<u8>)
    ensures
        r@ == lit_true_b(),
{
    let mut v: Vec<u8> = Vec::new();
    v.push('t' as u8);
    v.push('r' as u8);
    v.push('u' as u8);
    v.push('e' as u8);
    proof {
        assert(v@ =~= lit_true_b());
    }
    v
}

/// The boolean literal `false`.
pub open spec fn lit_false_b() -> Seq<u8> {
    seq!['f' as u8, 'a' as u8, 'l' as u8, 's' as u8, 'e' as u8]
}

fn lit_false() -> (r: Vec<u8>)
    ensures
        r@ == lit_false_b(),
{
    let mut v: Vec<u8> = Vec::new();
    v.push('f' as u8);
    v.push('a' as u8);
    v.push('l' as u8);
    v.push('s' as u8);
    v.push('e' as u8);
    proof {
        assert(v@ =~= lit_false_b());
    }
    v
}

/// A quoted, escaped string field.
pub open spec fn quoted(x: Seq<u8>) -> Seq<u8> {
    seq![34u8] + esc_seq(x) + seq![34u8]
}

/// Reads `true` or `false`.
pub open spec fn spec_parse_bool(s: Seq<u8>, i: int) -> Option<(bool, int)> {
    if spec_expect(s, i, lit_true_b()) is Some {
        Some((true, i + 4))
    } else if spec_expect(s, i, lit_false_b()) is Some {
        Some((false, i + 5))
    } else {
        None
    }
}

fn parse_bool_at(s: &Vec<u8>, i: usize) -> (r: Option<(bool, usize)>)
    ensures
        match r {
            Some((v, e)) => e <= s@.len() && spec_parse_bool(s@, i as int) == Some(
                (v, e as int),
            ),
            None => spec_parse_bool(s@, i as int) is None,
        },
{
    let t = lit_true();
    let f = lit_false();
    match expect_bytes(s, i, &t) {
        Some(e) => Some((true, e)),
        None => {
            match expect_bytes(s, i, &f) {
                Some(e) => Some((false, e)),
                None => None,
            }
        },
    }
}

/// The persisted active-marker record.
pub open spec fn encode_active_bytes(start: int, last_seen: int) -> Seq<u8> {
    active_head_b() + dec_digits_i64(start) + active_mid_b() + dec_digits_i64(last_seen) + seq![
        '}' as u8,
    ]
}

/// Renders the active marker.
pub fn encode_active(a: &ActiveSession) -> (r: Vec<u8>)
    ensures
        r@ == encode_active_bytes(a.start as int, a.last_seen as int),
{
    let mut out: Vec<u8> = Vec::new();
    let head = active_head();
    push_all(&mut out, &head);
    let d1 = format_i64(a.start);
    push_all(&mut out, &d1);
    let mid = active_mid();
    push_all(&mut out, &mid);
    let d2 = format_i64(a.last_seen);
    push_all(&mut out, &d2);
    out.push('}' as u8);
    proof {
        assert(out@ =~= encode_active_bytes(a.start as int, a.last_seen as int));
    }
    out
}

/// What reading a whole active-marker record must yield.
pub open spec fn spec_parse_active(s: Seq<u8>) -> Option<(i64, i64)> {
    match spec_expect(s, 0, active_head_b()) {
        None => None,
        Some(p1) => match spec_parse_i64(s, p1) {
            None => None,
            Some((start, p2)) => match spec_expect(s, p2, active_mid_b()) {
                None => None,
                Some(p3) => match spec_parse_i64(s, p3) {
                    None => None,
                    Some((last_seen, p4)) => if p4 + 1 == s.len() && s[p4] == '}' as u8 {
                        Some((start, last_seen))
                    } else {
                        None
                    },
                },
            },
        },
    }
}

/// Reads the active marker back.
pub fn parse_active(s: &Vec<u8>) -> (r: Option<ActiveSession>)
    ensures
        match r {
            Some(a) => spec_parse_active(s@) == Some((a.start, a.last_seen)),
            None => spec_parse_active(s@) is None,
        },
{
    let head = active_head();
    let p1 = match expect_bytes(s, 0, &head) {
        None => {
            return None;
        },
        Some(p) => p,
    };
    let (start, p2) = match parse_i64_at(s, p1) {
        None => {
            return None;
        },
        Some(v) => v,
    };
    let mid = active_mid();
    let p3 = match expect_bytes(s, p2, &mid) {
        None => {
            return None;
        },
        Some(p) => p,
    };
    let (last_seen, p4) = match parse_i64_at(s, p3) {
        None => {
            return None;
        },
        Some(v) => v,
    };
    if p4 < s.len() && p4 + 1 == s.len() && s[p4] == '}' as u8 {
        Some(ActiveSession { start, last_seen })
    } else {
        None
    }
}

/// What the active-marker writer wrote, the reader reads back unchanged.
pub proof fn lemma_active_round_trip(start: i64, last_seen: i64)
    ensures
        spec_parse_active(encode_active_bytes(start as int, last_seen as int)) == Some(
            (start, last_seen),
        ),
{
    let buf = encode_active_bytes(start as int, last_seen as int);
    let h = active_head_b();
    let d1 = dec_digits_i64(start as int);
    let m = active_mid_b();
    let d2 = dec_digits_i64(last_seen as int);
    let p1 = h.len() as int;
    let p2 = p1 + d1.len() as int;
    let p3 = p2 + m.len() as int;
    let p4 = p3 + d2.len() as int;
    assert(buf.len() == p4 + 1);
    assert(buf.subrange(0, p1) =~= h);
    assert(buf.subrange(p1, p2) =~= d1);
    assert(buf.subrange(p2, p3) =~= m);
    assert(buf.subrange(p3, p4) =~= d2);
    assert(buf[p2] == ',' as u8) by {
        assert(buf.subrange(p2, p3)[0] == buf[p2]);
        assert(m[0] == ',' as u8);
    }
    assert(buf[p4] == '}' as u8);
    assert(spec_expect(buf, 0, h) == Some(p1));
    lemma_spec_parse_i64_of_format(buf, p1, p2, start);
    assert(spec_expect(buf, p2, m) == Some(p3));
    lemma_spec_parse_i64_of_format(buf, p3, p4, last_seen);
}

/// The fields a session record carries on disk.
pub type SessTup = (Seq<u8>, i64, i64, u64, Seq<u8>);

/// The on-disk fields of a session value.
pub open spec fn session_tuple(x: Session) -> SessTup {
    (x.id@, x.start, x.end, x.duration_seconds, x.note@)
}

/// The on-disk fields of a list of session values.
pub open spec fn session_tuples(list: Seq<Session>) -> Seq<SessTup> {
    list.map_values(|x: Session| session_tuple(x))
}

/// One session as a persisted record.
pub open spec fn encode_session_bytes(x: Session) -> Seq<u8> {
    sess_head_b() + quoted(x.id@) + sess_k_start_b() + dec_digits_i64(x.start as int)
        + sess_k_end_b() + dec_digits_i64(x.end as int) + sess_k_dur_b() + dec_digits(
        x.duration_seconds as nat,
    ) + sess_k_note_b() + quoted(x.note@) + seq!['}' as u8]
}

/// The session-list items, comma separated.
pub open spec fn encode_sessions_items(list: Seq<Session>) -> Seq<u8>
    decreases list.len(),
{
    if list.len() == 0 {
        Seq::empty()
    } else if list.len() == 1 {
        encode_session_bytes(list[0])
    } else {
        encode_session_bytes(list[0]) + seq![',' as u8] + encode_sessions_items(list.drop_first())
    }
}

/// The whole persisted session history.
pub open spec fn encode_sessions_bytes(list: Seq<Session>) -> Seq<u8> {
    seq!['[' as u8] + encode_sessions_items(list) + seq![']' as u8]
}

proof fn lemma_sessions_items_push(list: Seq<Session>, x: Session)
    ensures
        list.len() == 0 ==> encode_sessions_items(list.push(x)) =~= encode_session_bytes(x),
        list.len() >= 1 ==> encode_sessions_items(list.push(x)) =~= encode_sessions_items(list)
            + seq![',' as u8] + encode_session_bytes(x),
    decreases list.len(),
{
    if list.len() == 0 {
        assert(list.push(x)[0] == x);
        assert(list.push(x).len() == 1);
    } else {
        assert(list.push(x).drop_first() =~= list.drop_first().push(x));
        lemma_sessions_items_push(list.drop_first(), x);
        assert(list.push(x)[0] == list[0]);
        if list.len() == 1 {
            assert(encode_sessions_items(list.push(x)) =~= encode_session_bytes(list[0]) + seq![
                ',' as u8,
            ] + encode_session_bytes(x));
            assert(encode_sessions_items(list) =~= encode_session_bytes(list[0]));
        } else {
            assert(encode_sessions_items(list.push(x)) =~= encode_session_bytes(list[0]) + seq![
                ',' as u8,
            ] + (encode_sessions_items(list.drop_first()) + seq![',' as u8]
                + encode_session_bytes(x)));
        }
    }
}

/// Renders the whole session history.
pub fn encode_sessions(list: &Vec<Session>) -> (r: Vec<u8>)
    ensures
        r@ == encode_sessions_bytes(list@),
{
    let mut out: Vec<u8> = Vec::new();
    out.push('[' as u8);
    let mut i: usize = 0;
    while i < list.len()
        invariant
            i <= list@.len(),
            out@ =~= seq!['[' as u8] + encode_sessions_items(list@.subrange(0, i as int)),
        decreases list@.len() - i,
    {
        if i > 0 {
            out.push(',' as u8);
        }
        let ghost before = list@.subrange(0, i as int);
        let enc = encode_one_session(&list[i]);
        push_all(&mut out, &enc);
        i = i + 1;
        proof {
            assert(list@.subrange(0, i as int) =~= before.push(list@[i - 1]));
            lemma_sessions_items_push(before, list@[i - 1]);
        }
    }
    out.push(']' as u8);
    proof {
        assert(list@.subrange(0, list@.len() as int) =~= list@);
        assert(out@ =~= encode_sessions_bytes(list@));
    }
    out
}

/// Renders one session record.
fn encode_one_session(x: &Session) -> (r: Vec<u8>)
    ensures
        r@ == encode_session_bytes(*x),
{
    let mut out: Vec<u8> = Vec::new();
    let head = sess_head();
    push_all(&mut out, &head);
    push_quoted(&mut out, &x.id);
    let k1 = sess_k_start();
    push_all(&mut out, &k1);
    let d1 = format_i64(x.start);
    push_all(&mut out, &d1);
    let k2 = sess_k_end();
    push_all(&mut out, &k2);
    let d2 = format_i64(x.end);
    push_all(&mut out, &d2);
    let k3 = sess_k_dur();
    push_all(&mut out, &k3);
    let d3 = format_u64(x.duration_seconds);
    push_all(&mut out, &d3);
    let k4 = sess_k_note();
    push_all(&mut out, &k4);
    push_quoted(&mut out, &x.note);
    out.push('}' as u8);
    proof {
        assert(out@ =~= encode_session_bytes(*x));
    }
    out
}

/// What reading one session record at `i` must yield.
pub open spec fn spec_parse_session_obj(s: Seq<u8>, i: int) -> Option<(SessTup, int)> {
    match spec_expect(s, i, sess_head_b()) {
        None => None,
        Some(p1) => match spec_parse_string(s, p1) {
            None => None,
            Some((id, p2)) => match spec_expect(s, p2, sess_k_start_b()) {
                None => None,
                Some(p3) => match spec_parse_i64(s, p3) {
                    None => None,
                    Some((st, p4)) => match spec_expect(s, p4, sess_k_end_b()) {
                        None => None,
                        Some(p5) => match spec_parse_i64(s, p5) {
                            None => None,
                            Some((en, p6)) => match spec_expect(s, p6, sess_k_dur_b()) {
                                None => None,
                                Some(p7) => match spec_parse_u64(s, p7) {
                                    None => None,
                                    Some((du, p8)) => match spec_expect(s, p8, sess_k_note_b()) {
                                        None => None,
                                        Some(p9) => match spec_parse_string(s, p9) {
                                            None => None,
                                            Some((no, p10)) => if p10 < s.len() && s[p10] == (
                                            '}' as u8) {
                                                Some(((id, st, en, du, no), p10 + 1))
                                            } else {
                                                None
                                            },
                                        },
                                    },
                                },
                            },
                        },
                    },
                },
            },
        },
    }
}

/// Reads one session record.
fn parse_session_obj(s: &Vec<u8>, i: usize) -> (r: Option<(Session, usize)>)
    ensures
        match r {
            Some((x, e)) => spec_parse_session_obj(s@, i as int) == Some(
                (session_tuple(x), e as int),
            ),
            None => spec_parse_session_obj(s@, i as int) is None,
        },
{
    let head = sess_head();
    let p1 = match expect_bytes(s, i, &head) {
        None => {
            return None;
        },
        Some(p) => p,
    };
    let (id, p2) = match parse_string_at(s, p1) {
        None => {
            return None;
        },
        Some(v) => v,
    };
    let k1 = sess_k_start();
    let p3 = match expect_bytes(s, p2, &k1) {
        None => {
            return None;
        },
        Some(p) => p,
    };
    let (start, p4) = match parse_i64_at(s, p3) {
        None => {
            return None;
        },
        Some(v) => v,
    };
    let k2 = sess_k_end();
    let p5 = match expect_bytes(s, p4, &k2) {
        None => {
            return None;
        },
        Some(p) => p,
    };
    let (end, p6) = match parse_i64_at(s, p5) {
        None => {
            return None;
        },
        Some(v) => v,
    };
    let k3 = sess_k_dur();
    let p7 = match expect_bytes(s, p6, &k3) {
        None => {
            return None;
        },
        Some(p) => p,
    };
    let (duration_seconds, p8) = match parse_u64_spec(s, p7) {
        None => {
            return None;
        },
        Some(v) => v,
    };
    let k4 = sess_k_note();
    let p9 = match expect_bytes(s, p8, &k4) {
        None => {
            return None;
        },
        Some(p) => p,
    };
    let (note, p10) = match parse_string_at(s, p9) {
        None => {
            return None;
        },
        Some(v) => v,
    };
    if p10 < s.len() && s[p10] == '}' as u8 {
        Some((Session { id, start, end, duration_seconds, note }, p10 + 1))
    } else {
        None
    }
}

/// What reading the rest of a session list (from just after a parsed
/// element) must yield; `fuel` bounds the recursion and is irrelevant as
/// long as it covers the remaining input.
pub open spec fn spec_parse_sessions_rest(s: Seq<u8>, j: int, fuel: nat) -> Option<
    (Seq<SessTup>, int),
>
    decreases fuel,
{
    if j < 0 || j >= s.len() {
        None
    } else if s[j] == ']' as u8 {
        Some((Seq::empty(), j + 1))
    } else if s[j] == ',' as u8 {
        if fuel == 0 {
            None
        } else {
            match spec_parse_session_obj(s, j + 1) {
                None => None,
                Some((v, e)) => if e <= j + 1 {
                    None
                } else {
                    match spec_parse_sessions_rest(s, e, (fuel - 1) as nat) {
                        None => None,
                        Some((tail, end)) => Some((seq![v] + tail, end)),
                    }
                },
            }
        }
    } else {
        None
    }
}

proof fn lemma_sessions_rest_fuel(s: Seq<u8>, j: int, f1: nat, f2: nat)
    requires
        f1 >= s.len() - j,
        f2 >= s.len() - j,
    ensures
        spec_parse_sessions_rest(s, j, f1) == spec_parse_sessions_rest(s, j, f2),
    decreases s.len() - j,
{
    if 0 <= j < s.len() && s[j] == ',' as u8 {
        match spec_parse_session_obj(s, j + 1) {
            None => {},
            Some((v, e)) => {
                if j + 1 < e <= s.len() {
                    lemma_sessions_rest_fuel(s, e, (f1 - 1) as nat, (f2 - 1) as nat);
                } else if e > s.len() {
                    assert(spec_parse_session_obj_end_bound(s, j + 1));
                }
            },
        }
    }
}

/// Any successful session-object read ends within the input.
pub open spec fn spec_parse_session_obj_end_bound(s: Seq<u8>, i: int) -> bool {
    match spec_parse_session_obj(s, i) {
        None => true,
        Some((v, e)) => e <= s.len(),
    }
}

/// What reading a whole persisted session history must yield: the bytes
/// must carry exactly one bracketed, comma-separated list.
pub open spec fn spec_parse_sessions(s: Seq<u8>) -> Option<Seq<SessTup>> {
    if s.len() >= 2 && s[0] == '[' as u8 {
        if s[1] == ']' as u8 {
            if s.len() == 2 {
                Some(Seq::empty())
            } else {
                None
            }
        } else {
            match spec_parse_session_obj(s, 1) {
                None => None,
                Some((v, e)) => if e <= 1 {
                    None
                } else {
                    match spec_parse_sessions_rest(s, e, s.len() as nat) {
                        None => None,
                        Some((tail, end)) => if end == s.len() {
                            Some(seq![v] + tail)
                        } else {
                            None
                        },
                    }
                },
            }
        }
    } else {
        None
    }
}

/// Reads a whole persisted session history.
pub fn parse_sessions(s: &Vec<u8>) -> (r: Option<Vec<Session>>)
    ensures
        match r {
            Some(list) => spec_parse_sessions(s@) == Some(session_tuples(list@)),
            None => spec_parse_sessions(s@) is None,
        },
{
    if s.len() < 2 || s[0] != '[' as u8 {
        return None;
    }
    if s[1] == ']' as u8 {
        if s.len() == 2 {
            proof {
                assert(session_tuples(Seq::<Session>::empty()) =~= Seq::<SessTup>::empty());
            }
            return Some(Vec::new());
        } else {
            return None;
        }
    }
    let (first, e0) = match parse_session_obj(s, 1) {
        None => {
            return None;
        },
        Some(v) => v,
    };
    if e0 <= 1 {
        return None;
    }
    let mut acc: Vec<Session> = Vec::new();
    let ghost first_tup = session_tuple(first);
    acc.push(first);
    let mut j: usize = e0;
    proof {
        lemma_sessions_rest_fuel(s@, e0 as int, s@.len() as nat, (s@.len() - e0) as nat);
        assert(session_tuples(acc@) =~= seq![first_tup]);
    }
    loop
        invariant
            e0 <= j <= s@.len(),
            spec_parse_sessions(s@) == (match spec_parse_sessions_rest(
                s@,
                j as int,
                (s@.len() - j) as nat,
            ) {
                None => None::<Seq<SessTup>>,
                Some((tail, end)) => if end == s@.len() {
                    Some(session_tuples(acc@) + tail)
                } else {
                    None
                },
            }),
        decreases s@.len() - j,
    {
        if j >= s.len() {
            return None;
        }
        let b = s[j];
        if b == ']' as u8 {
            if j + 1 == s.len() {
                proof {
                    assert(session_tuples(acc@) + Seq::<SessTup>::empty() =~= session_tuples(
                        acc@,
                    ));
                }
                return Some(acc);
            } else {
                return None;
            }
        }
        if b != ',' as u8 {
            return None;
        }
        let (x, e) = match parse_session_obj(s, j + 1) {
            None => {
                return None;
            },
            Some(v) => v,
        };
        if e <= j + 1 {
            return None;
        }
        let ghost before = acc@;
        let ghost xt = session_tuple(x);
        acc.push(x);
        proof {
            lemma_sessions_rest_fuel(s@, e as int, (s@.len() - j - 1) as nat, (s@.len() - e) as nat);
            assert(session_tuples(acc@) =~= session_tuples(before).push(xt));
            match spec_parse_sessions_rest(s@, e as int, (s@.len() - e) as nat) {
                None => {},
                Some((tail, end)) => {
                    assert(session_tuples(before) + (seq![xt] + tail) =~= session_tuples(acc@)
                        + tail);
                },
            }
        }
        j = e;
    }
}


/// The on-disk and on-wire fields of a leaderboard entry.
pub open spec fn entry_tuple(e: LeaderboardEntry) -> (Seq<u8>, u64) {
    (e.username@, e.total_minutes)
}

pub open spec fn entry_tuples(list: Seq<LeaderboardEntry>) -> Seq<(Seq<u8>, u64)> {
    list.map_values(|e: LeaderboardEntry| entry_tuple(e))
}

/// One leaderboard entry as a record.
pub open spec fn encode_entry_bytes(name: Seq<u8>, total: u64) -> Seq<u8> {
    entry_head_b() + quoted(name) + entry_k_total_b() + dec_digits(total as nat) + seq!['}' as u8]
}

/// The ranked-list items, comma separated.
pub open spec fn encode_entries_items(list: Seq<(Seq<u8>, u64)>) -> Seq<u8>
    decreases list.len(),
{
    if list.len() == 0 {
        Seq::empty()
    } else if list.len() == 1 {
        encode_entry_bytes(list[0].0, list[0].1)
    } else {
        encode_entry_bytes(list[0].0, list[0].1) + seq![',' as u8] + encode_entries_items(
            list.drop_first(),
        )
    }
}

/// The whole ranked list, as persisted and as served.
pub open spec fn encode_entries_bytes(list: Seq<(Seq<u8>, u64)>) -> Seq<u8> {
    seq!['[' as u8] + encode_entries_items(list) + seq![']' as u8]
}

proof fn lemma_entries_items_push(list: Seq<(Seq<u8>, u64)>, x: (Seq<u8>, u64))
    ensures
        list.len() == 0 ==> encode_entries_items(list.push(x)) =~= encode_entry_bytes(x.0, x.1),
        list.len() >= 1 ==> encode_entries_items(list.push(x)) =~= encode_entries_items(list)
            + seq![',' as u8] + encode_entry_bytes(x.0, x.1),
    decreases list.len(),
{
    if list.len() == 0 {
        assert(list.push(x)[0] == x);
        assert(list.push(x).len() == 1);
    } else {
        assert(list.push(x).drop_first() =~= list.drop_first().push(x));
        lemma_entries_items_push(list.drop_first(), x);
        assert(list.push(x)[0] == list[0]);
        if list.len() == 1 {
            assert(encode_entries_items(list.push(x)) =~= encode_entry_bytes(
                list[0].0,
                list[0].1,
            ) + seq![',' as u8] + encode_entry_bytes(x.0, x.1));
            assert(encode_entries_items(list) =~= encode_entry_bytes(list[0].0, list[0].1));
        } else {
            assert(encode_entries_items(list.push(x)) =~= encode_entry_bytes(
                list[0].0,
                list[0].1,
            ) + seq![',' as u8] + (encode_entries_items(list.drop_first()) + seq![',' as u8]
                + encode_entry_bytes(x.0, x.1)));
        }
    }
}

/// Renders one entry record; this is also the submission payload sent to
/// the service.
pub fn encode_entry(name: &Vec<u8>, total: u64) -> (r: Vec<u8>)
    ensures
        r@ == encode_entry_bytes(name@, total),
{
    let mut out: Vec<u8> = Vec::new();
    let head = entry_head();
    push_all(&mut out, &head);
    push_quoted(&mut out, name);
    let k = entry_k_total();
    push_all(&mut out, &k);
    let d = format_u64(total);
    push_all(&mut out, &d);
    out.push('}' as u8);
    proof {
        assert(out@ =~= encode_entry_bytes(name@, total));
    }
    out
}

/// Renders the whole ranked list.
pub fn encode_entries(list: &Vec<LeaderboardEntry>) -> (r: Vec<u8>)
    ensures
        r@ == encode_entries_bytes(entry_tuples(list@)),
{
    let mut out: Vec<u8> = Vec::new();
    out.push('[' as u8);
    let mut i: usize = 0;
    proof {
        assert(entry_tuples(list@.subrange(0, 0)) =~= Seq::<(Seq<u8>, u64)>::empty());
        assert(out@ =~= seq!['[' as u8] + encode_entries_items(entry_tuples(list@.subrange(0, 0))));
    }
    while i < list.len()
        invariant
            i <= list@.len(),
            out@ =~= seq!['[' as u8] + encode_entries_items(entry_tuples(list@.subrange(0, i as int))),
        decreases list@.len() - i,
    {
        if i > 0 {
            out.push(',' as u8);
        }
        let ghost before = entry_tuples(list@.subrange(0, i as int));
        let enc = encode_entry(&list[i].username, list[i].total_minutes);
        push_all(&mut out, &enc);
        i = i + 1;
        proof {
            let now_tup = entry_tuples(list@.subrange(0, i as int));
            assert(now_tup =~= before.push(entry_tuple(list@[i - 1]))) by {
                assert(forall|j: int|
                    0 <= j < i ==> #[trigger] now_tup[j] == entry_tuple(
                        list@.subrange(0, i as int)[j],
                    ));
                assert(forall|j: int|
                    0 <= j < i - 1 ==> #[trigger] before[j] == entry_tuple(
                        list@.subrange(0, i - 1)[j],
                    ));
            }
            lemma_entries_items_push(before, entry_tuple(list@[i - 1]));
        }
    }
    out.push(']' as u8);
    proof {
        assert(list@.subrange(0, list@.len() as int) =~= list@);
        assert(out@ =~= encode_entries_bytes(entry_tuples(list@)));
    }
    out
}

/// What reading one entry record at `i` must yield.
pub open spec fn spec_parse_entry_obj(s: Seq<u8>, i: int) -> Option<((Seq<u8>, u64), int)> {
    match spec_expect(s, i, entry_head_b()) {
        None => None,
        Some(p1) => match spec_parse_string(s, p1) {
            None => None,
            Some((name, p2)) => match spec_expect(s, p2, entry_k_total_b()) {
                None => None,
                Some(p3) => match spec_parse_u64(s, p3) {
                    None => None,
                    Some((total, p4)) => if p4 < s.len() && s[p4] == '}' as u8 {
                        Some(((name, total), p4 + 1))
                    } else {
                        None
                    },
                },
            },
        },
    }
}

/// Reads one entry record.
fn parse_entry_obj(s: &Vec<u8>, i: usize) -> (r: Option<(LeaderboardEntry, usize)>)
    ensures
        match r {
            Some((e, p)) => p <= s@.len() && spec_parse_entry_obj(s@, i as int) == Some(
                (entry_tuple(e), p as int),
            ),
            None => spec_parse_entry_obj(s@, i as int) is None,
        },
{
    let head = entry_head();
    let p1 = match expect_bytes(s, i, &head) {
        None => {
            return None;
        },
        Some(p) => p,
    };
    let (username, p2) = match parse_string_at(s, p1) {
        None => {
            return None;
        },
        Some(v) => v,
    };
    let k = entry_k_total();
    let p3 = match expect_bytes(s, p2, &k) {
        None => {
            return None;
        },
        Some(p) => p,
    };
    let (total_minutes, p4) = match parse_u64_spec(s, p3) {
        None => {
            return None;
        },
        Some(v) => v,
    };
    if p4 < s.len() && s[p4] == '}' as u8 {
        Some((LeaderboardEntry { username, total_minutes }, p4 + 1))
    } else {
        None
    }
}

/// What reading the rest of an entry list (from just after a parsed
/// element) must yield.
pub open spec fn spec_parse_entries_rest(s: Seq<u8>, j: int, fuel: nat) -> Option<
    (Seq<(Seq<u8>, u64)>, int),
>
    decreases fuel,
{
    if j < 0 || j >= s.len() {
        None
    } else if s[j] == ']' as u8 {
        Some((Seq::empty(), j + 1))
    } else if s[j] == ',' as u8 {
        if fuel == 0 {
            None
        } else {
            match spec_parse_entry_obj(s, j + 1) {
                None => None,
                Some((v, e)) => if e <= j + 1 {
                    None
                } else {
                    match spec_parse_entries_rest(s, e, (fuel - 1) as nat) {
                        None => None,
                        Some((tail, end)) => Some((seq![v] + tail, end)),
                    }
                },
            }
        }
    } else {
        None
    }
}

proof fn lemma_entries_rest_fuel(s: Seq<u8>, j: int, f1: nat, f2: nat)
    requires
        f1 >= s.len() - j,
        f2 >= s.len() - j,
    ensures
        spec_parse_entries_rest(s, j, f1) == spec_parse_entries_rest(s, j, f2),
    decreases s.len() - j,
{
    if 0 <= j < s.len() && s[j] == ',' as u8 {
        match spec_parse_entry_obj(s, j + 1) {
            None => {},
            Some((v, e)) => {
                if j + 1 < e <= s.len() {
                    lemma_entries_rest_fuel(s, e, (f1 - 1) as nat, (f2 - 1) as nat);
                } else if e > s.len() {
                    assert(spec_parse_entry_end_bound(s, j + 1));
                }
            },
        }
    }
}

/// Any successful entry read ends within the input.
pub open spec fn spec_parse_entry_end_bound(s: Seq<u8>, i: int) -> bool {
    match spec_parse_entry_obj(s, i) {
        None => true,
        Some((v, e)) => e <= s.len(),
    }
}

/// What reading a bracketed entry list starting at `i` must yield.
pub open spec fn spec_parse_entries_arr(s: Seq<u8>, i: int) -> Option<(Seq<(Seq<u8>, u64)>, int)> {
    if 0 <= i && i + 2 <= s.len() && s[i] == '[' as u8 {
        if s[i + 1] == ']' as u8 {
            Some((Seq::empty(), i + 2))
        } else {
            match spec_parse_entry_obj(s, i + 1) {
                None => None,
                Some((v, e)) => if e <= i + 1 {
                    None
                } else {
                    match spec_parse_entries_rest(s, e, s.len() as nat) {
                        None => None,
                        Some((tail, end)) => Some((seq![v] + tail, end)),
                    }
                },
            }
        }
    } else {
        None
    }
}

/// Reads a bracketed entry list starting at `i`.
pub fn parse_entries_at(s: &Vec<u8>, i: usize) -> (r: Option<(Vec<LeaderboardEntry>, usize)>)
    ensures
        match r {
            Some((list, e)) => e <= s@.len() && spec_parse_entries_arr(s@, i as int) == Some(
                (entry_tuples(list@), e as int),
            ),
            None => spec_parse_entries_arr(s@, i as int) is None,
        },
{
    if !(i < s.len() && s.len() - i >= 2 && s[i] == '[' as u8) {
        return None;
    }
    if s[i + 1] == ']' as u8 {
        proof {
            assert(entry_tuples(Seq::<LeaderboardEntry>::empty()) =~= Seq::<
                (Seq<u8>, u64),
            >::empty());
        }
        return Some((Vec::new(), i + 2));
    }
    let (first, e0) = match parse_entry_obj(s, i + 1) {
        None => {
            return None;
        },
        Some(v) => v,
    };
    if e0 <= i + 1 {
        return None;
    }
    let mut acc: Vec<LeaderboardEntry> = Vec::new();
    let ghost first_tup = entry_tuple(first);
    acc.push(first);
    let mut j: usize = e0;
    proof {
        lemma_entries_rest_fuel(s@, e0 as int, s@.len() as nat, (s@.len() - e0) as nat);
        assert(entry_tuples(acc@) =~= seq![first_tup]);
    }
    loop
        invariant
            e0 <= j <= s@.len(),
            spec_parse_entries_arr(s@, i as int) == (match spec_parse_entries_rest(
                s@,
                j as int,
                (s@.len() - j) as nat,
            ) {
                None => None::<(Seq<(Seq<u8>, u64)>, int)>,
                Some((tail, end)) => Some((entry_tuples(acc@) + tail, end)),
            }),
        decreases s@.len() - j,
    {
        if j >= s.len() {
            return None;
        }
        let b = s[j];
        if b == ']' as u8 {
            proof {
                assert(entry_tuples(acc@) + Seq::<(Seq<u8>, u64)>::empty() =~= entry_tuples(
                    acc@,
                ));
            }
            return Some((acc, j + 1));
        }
        if b != ',' as u8 {
            return None;
        }
        let (x, e) = match parse_entry_obj(s, j + 1) {
            None => {
                return None;
            },
            Some(v) => v,
        };
        if e <= j + 1 {
            return None;
        }
        let ghost before = acc@;
        let ghost xt = entry_tuple(x);
        acc.push(x);
        proof {
            lemma_entries_rest_fuel(s@, e as int, (s@.len() - j - 1) as nat, (s@.len() - e) as nat);
            assert(entry_tuples(acc@) =~= entry_tuples(before).push(xt));
            match spec_parse_entries_rest(s@, e as int, (s@.len() - e) as nat) {
                None => {},
                Some((tail, end)) => {
                    assert(entry_tuples(before) + (seq![xt] + tail) =~= entry_tuples(acc@) + tail);
                },
            }
        }
        j = e;
    }
}

/// What reading a whole persisted or served ranked list must yield: the
/// bytes carry exactly one bracketed list.
pub open spec fn spec_parse_entries(s: Seq<u8>) -> Option<Seq<(Seq<u8>, u64)>> {
    match spec_parse_entries_arr(s, 0) {
        None => None,
        Some((l, e)) => if e == s.len() {
            Some(l)
        } else {
            None
        },
    }
}

/// Reads a whole ranked list.
pub fn parse_entries(s: &Vec<u8>) -> (r: Option<Vec<LeaderboardEntry>>)
    ensures
        match r {
            Some(list) => spec_parse_entries(s@) == Some(entry_tuples(list@)),
            None => spec_parse_entries(s@) is None,
        },
{
    match parse_entries_at(s, 0) {
        None => None,
        Some((list, e)) => {
            if e == s.len() {
                Some(list)
            } else {
                None
            }
        },
    }
}


/// The literal `null`.
pub open spec fn lit_null_b() -> Seq<u8> {
    seq!['n' as u8, 'u' as u8, 'l' as u8, 'l' as u8]
}

fn lit_null() -> (r: Vec<u8>)
    ensures
        r@ == lit_null_b(),
{
    let mut v: Vec<u8> = Vec::new();
    v.push('n' as u8);
    v.push('u' as u8);
    v.push('l' as u8);
    v.push('l' as u8);
    proof {
        assert(v@ =~= lit_null_b());
    }
    v
}

/// The envelope key that carries the ranked list: `entries`.
pub open spec fn entries_word() -> Seq<u8> {
    seq!['e' as u8, 'n' as u8, 't' as u8, 'r' as u8, 'i' as u8, 'e' as u8, 's' as u8]
}

fn entries_word_vec() -> (r: Vec<u8>)
    ensures
        r@ == entries_word(),
{
    let mut v: Vec<u8> = Vec::new();
    v.push('e' as u8);
    v.push('n' as u8);
    v.push('t' as u8);
    v.push('r' as u8);
    v.push('i' as u8);
    v.push('e' as u8);
    v.push('s' as u8);
    proof {
        assert(v@ =~= entries_word());
    }
    v
}

/// What skipping one number token must yield: an optional minus, a digit
/// run, and an optional fraction.
pub open spec fn spec_skip_number(s: Seq<u8>, i: int) -> Option<int> {
    let j0 = if 0 <= i < s.len() && s[i] == 45 {
        i + 1
    } else {
        i
    };
    if 0 <= j0 < s.len() && is_digit(s[j0]) {
        let j1 = digit_run_end(s, j0);
        if j1 < s.len() && s[j1] == '.' as u8 && j1 + 1 < s.len() && is_digit(s[j1 + 1]) {
            Some(digit_run_end(s, j1 + 1))
        } else {
            Some(j1)
        }
    } else {
        None
    }
}

/// What skipping one metadata value must yield: the position just past
/// it. Strings, numbers, booleans, null, and arrays and objects nested
/// arbitrarily are all consumed; the fuel bounds the recursion and, at
/// the budget `spec_parse_top` supplies, covers any input.
pub open spec fn spec_skip_value(s: Seq<u8>, i: int, fuel: nat) -> Option<int>
    decreases fuel,
{
    if fuel == 0 || i < 0 || i >= s.len() {
        None
    } else if s[i] == 34 {
        match spec_parse_string(s, i) {
            None => None,
            Some((v, e)) => Some(e),
        }
    } else if s[i] == 45 || is_digit(s[i]) {
        spec_skip_number(s, i)
    } else if s[i] == '[' as u8 {
        if i + 1 < s.len() && s[i + 1] == ']' as u8 {
            Some(i + 2)
        } else {
            match spec_skip_value(s, i + 1, (fuel - 1) as nat) {
                None => None,
                Some(e) => spec_skip_items(s, e, (fuel - 1) as nat),
            }
        }
    } else if s[i] == '{' as u8 {
        if i + 1 < s.len() && s[i + 1] == '}' as u8 {
            Some(i + 2)
        } else {
            spec_skip_members(s, i + 1, (fuel - 1) as nat)
        }
    } else {
        match spec_parse_bool(s, i) {
            Some((v, e)) => Some(e),
            None => match spec_expect(s, i, lit_null_b()) {
                Some(e) => Some(e),
                None => None,
            },
        }
    }
}

/// After a skipped array element: a separator and the next element, or
/// the closing bracket.
pub open spec fn spec_skip_items(s: Seq<u8>, j: int, fuel: nat) -> Option<int>
    decreases fuel,
{
    if fuel == 0 || j < 0 || j >= s.len() {
        None
    } else if s[j] == ']' as u8 {
        Some(j + 1)
    } else if s[j] == ',' as u8 {
        match spec_skip_value(s, j + 1, (fuel - 1) as nat) {
            None => None,
            Some(e) => spec_skip_items(s, e, (fuel - 1) as nat),
        }
    } else {
        None
    }
}

/// At an object member's key: the key, a colon, its value, and then the
/// next member or the closing brace.
pub open spec fn spec_skip_members(s: Seq<u8>, j: int, fuel: nat) -> Option<int>
    decreases fuel,
{
    if fuel == 0 {
        None
    } else {
        match spec_parse_string(s, j) {
            None => None,
            Some((k, p)) => if p < s.len() && s[p] == ':' as u8 {
                match spec_skip_value(s, p + 1, (fuel - 1) as nat) {
                    None => None,
                    Some(e) => if 0 <= e < s.len() {
                        if s[e] == '}' as u8 {
                            Some(e + 1)
                        } else if s[e] == ',' as u8 {
                            spec_skip_members(s, e + 1, (fuel - 1) as nat)
                        } else {
                            None
                        }
                    } else {
                        None
                    },
                }
            } else {
                None
            },
        }
    }
}

/// What reading the envelope's members must yield: each member is a key,
/// a colon and a value; the member keyed `entries` carries the ranked
/// list, every other value is skipped, and the object must close at the
/// input's end with the list found.
pub open spec fn spec_top_members(
    s: Seq<u8>,
    j: int,
    found: Option<Seq<(Seq<u8>, u64)>>,
    fuel: nat,
) -> Option<Seq<(Seq<u8>, u64)>>
    decreases fuel,
{
    if fuel == 0 {
        None
    } else {
        match spec_parse_string(s, j) {
            None => None,
            Some((key, p)) => if p < s.len() && s[p] == ':' as u8 {
                if key == entries_word() && found is None {
                    match spec_parse_entries_arr(s, p + 1) {
                        None => None,
                        Some((l, e)) => if 0 <= e < s.len() {
                            if s[e] == '}' as u8 && e + 1 == s.len() {
                                Some(l)
                            } else if s[e] == ',' as u8 {
                                spec_top_members(s, e + 1, Some(l), (fuel - 1) as nat)
                            } else {
                                None
                            }
                        } else {
                            None
                        },
                    }
                } else {
                    match spec_skip_value(s, p + 1, (fuel - 1) as nat) {
                        None => None,
                        Some(e) => if 0 <= e < s.len() {
                            if s[e] == '}' as u8 && e + 1 == s.len() {
                                found
                            } else if s[e] == ',' as u8 {
                                spec_top_members(s, e + 1, found, (fuel - 1) as nat)
                            } else {
                                None
                            }
                        } else {
                            None
                        },
                    }
                }
            } else {
                None
            },
        }
    }
}

/// What reading the service's ranked-list response must yield: either a
/// bare list, or an envelope object carrying the list under the
/// `entries` key at any position, with arbitrary other members.
pub open spec fn spec_parse_top(s: Seq<u8>) -> Option<Seq<(Seq<u8>, u64)>> {
    if s.len() >= 1 && s[0] == '[' as u8 {
        spec_parse_entries(s)
    } else if s.len() >= 1 && s[0] == '{' as u8 {
        spec_top_members(s, 1, None, (2 * s.len() + 2) as nat)
    } else {
        None
    }
}

/// Executable twin of `digit_run_end`.
fn digit_run_end_at(s: &Vec<u8>, j: usize) -> (r: usize)
    requires
        j <= s@.len(),
    ensures
        r as int == digit_run_end(s@, j as int),
        j <= r <= s@.len(),
{
    let mut k: usize = j;
    while k < s.len() && 48 <= s[k] && s[k] <= 57
        invariant
            j <= k <= s@.len(),
            all_digits(s@.subrange(j as int, k as int)),
        decreases s@.len() - k,
    {
        proof {
            assert(s@.subrange(j as int, k + 1) =~= s@.subrange(j as int, k as int).push(
                s@[k as int],
            ));
        }
        k = k + 1;
    }
    proof {
        lemma_digit_run_end_unique(s@, j as int, k as int);
    }
    k
}

fn skip_number(s: &Vec<u8>, i: usize) -> (r: Option<usize>)
    ensures
        match r {
            Some(e) => e <= s@.len() && spec_skip_number(s@, i as int) == Some(e as int),
            None => spec_skip_number(s@, i as int) is None,
        },
{
    let j0: usize = if i < s.len() && s[i] == 45 {
        i + 1
    } else {
        i
    };
    if j0 < s.len() && 48 <= s[j0] && s[j0] <= 57 {
        let j1 = digit_run_end_at(s, j0);
        if j1 < s.len() && s[j1] == '.' as u8 && j1 + 1 < s.len() && 48 <= s[j1 + 1] && s[j1 + 1]
            <= 57 {
            Some(digit_run_end_at(s, j1 + 1))
        } else {
            Some(j1)
        }
    } else {
        None
    }
}

fn skip_value(s: &Vec<u8>, i: usize, fuel: u128) -> (r: Option<usize>)
    ensures
        match r {
            Some(e) => e <= s@.len() && spec_skip_value(s@, i as int, fuel as nat) == Some(
                e as int,
            ),
            None => spec_skip_value(s@, i as int, fuel as nat) is None,
        },
    decreases fuel,
{
    if fuel == 0 || i >= s.len() {
        return None;
    }
    let b = s[i];
    if b == 34 {
        match parse_string_at(s, i) {
            None => None,
            Some((v, e)) => Some(e),
        }
    } else if b == 45 || (48 <= b && b <= 57) {
        skip_number(s, i)
    } else if b == '[' as u8 {
        if i + 1 < s.len() && s[i + 1] == ']' as u8 {
            Some(i + 2)
        } else {
            match skip_value(s, i + 1, fuel - 1) {
                None => None,
                Some(e) => skip_items(s, e, fuel - 1),
            }
        }
    } else if b == '{' as u8 {
        if i + 1 < s.len() && s[i + 1] == '}' as u8 {
            Some(i + 2)
        } else {
            skip_members(s, i + 1, fuel - 1)
        }
    } else {
        match parse_bool_at(s, i) {
            Some((v, e)) => Some(e),
            None => {
                let n = lit_null();
                match expect_bytes(s, i, &n) {
                    Some(e) => Some(e),
                    None => None,
                }
            },
        }
    }
}

fn skip_items(s: &Vec<u8>, j: usize, fuel: u128) -> (r: Option<usize>)
    ensures
        match r {
            Some(e) => e <= s@.len() && spec_skip_items(s@, j as int, fuel as nat) == Some(
                e as int,
            ),
            None => spec_skip_items(s@, j as int, fuel as nat) is None,
        },
    decreases fuel,
{
    if fuel == 0 || j >= s.len() {
        return None;
    }
    let b = s[j];
    if b == ']' as u8 {
        Some(j + 1)
    } else if b == ',' as u8 {
        match skip_value(s, j + 1, fuel - 1) {
            None => None,
            Some(e) => skip_items(s, e, fuel - 1),
        }
    } else {
        None
    }
}

fn skip_members(s: &Vec<u8>, j: usize, fuel: u128) -> (r: Option<usize>)
    ensures
        match r {
            Some(e) => e <= s@.len() && spec_skip_members(s@, j as int, fuel as nat) == Some(
                e as int,
            ),
            None => spec_skip_members(s@, j as int, fuel as nat) is None,
        },
    decreases fuel,
{
    if fuel == 0 {
        return None;
    }
    let (k, p) = match parse_string_at(s, j) {
        None => {
            return None;
        },
        Some(v) => v,
    };
    if !(p < s.len() && s[p] == ':' as u8) {
        return None;
    }
    let e = match skip_value(s, p + 1, fuel - 1) {
        None => {
            return None;
        },
        Some(v) => v,
    };
    if e < s.len() {
        if s[e] == '}' as u8 {
            Some(e + 1)
        } else if s[e] == ',' as u8 {
            skip_members(s, e + 1, fuel - 1)
        } else {
            None
        }
    } else {
        None
    }
}

/// The mathematical view of an already-found ranked list.
pub open spec fn found_view(found: Option<Vec<LeaderboardEntry>>) -> Option<Seq<(Seq<u8>, u64)>> {
    match found {
        None => None,
        Some(v) => Some(entry_tuples(v@)),
    }
}

fn top_members(s: &Vec<u8>, j: usize, found: Option<Vec<LeaderboardEntry>>, fuel: u128) -> (r:
    Option<Vec<LeaderboardEntry>>)
    ensures
        match r {
            Some(list) => spec_top_members(s@, j as int, found_view(found), fuel as nat) == Some(
                entry_tuples(list@),
            ),
            None => spec_top_members(s@, j as int, found_view(found), fuel as nat) is None,
        },
    decreases fuel,
{
    if fuel == 0 {
        return None;
    }
    let (key, p) = match parse_string_at(s, j) {
        None => {
            return None;
        },
        Some(v) => v,
    };
    if !(p < s.len() && s[p] == ':' as u8) {
        return None;
    }
    let word = entries_word_vec();
    if bytes_eq(&key, &word) && found.is_none() {
        let (l, e) = match parse_entries_at(s, p + 1) {
            None => {
                return None;
            },
            Some(v) => v,
        };
        if e < s.len() {
            if s[e] == '}' as u8 && e + 1 == s.len() {
                Some(l)
            } else if s[e] == ',' as u8 {
                top_members(s, e + 1, Some(l), fuel - 1)
            } else {
                None
            }
        } else {
            None
        }
    } else {
        let e = match skip_value(s, p + 1, fuel - 1) {
            None => {
                return None;
            },
            Some(v) => v,
        };
        if e < s.len() {
            if s[e] == '}' as u8 && e + 1 == s.len() {
                found
            } else if s[e] == ',' as u8 {
                top_members(s, e + 1, found, fuel - 1)
            } else {
                None
            }
        } else {
            None
        }
    }
}

/// Reads the service's ranked-list response: a bare list, or an envelope
/// carrying the list under `entries` at any position among arbitrary
/// other members.
pub fn parse_top_response(s: &Vec<u8>) -> (r: Option<Vec<LeaderboardEntry>>)
    ensures
        match r {
            Some(list) => spec_parse_top(s@) == Some(entry_tuples(list@)),
            None => spec_parse_top(s@) is None,
        },
{
    if s.len() >= 1 && s[0] == '[' as u8 {
        return parse_entries(s);
    }
    if s.len() >= 1 && s[0] == '{' as u8 {
        let fuel: u128 = 2 * (s.len() as u128) + 2;
        return top_members(s, 1, None, fuel);
    }
    None
}

/// Splitting a known concatenation out of a buffer range.
proof fn lemma_split_subrange(buf: Seq<u8>, a: int, b: int, x: Seq<u8>, y: Seq<u8>)
    requires
        0 <= a <= b <= buf.len(),
        buf.subrange(a, b) == x + y,
    ensures
        buf.subrange(a, a + x.len() as int) =~= x,
        buf.subrange(a + x.len() as int, b) =~= y,
{
    assert((x + y).len() == x.len() + y.len());
    assert(buf.subrange(a, b).len() == b - a);
    assert(b - a == x.len() + y.len());
    assert forall|k: int| 0 <= k < x.len() implies buf.subrange(a, a + x.len() as int)[k]
        == x[k] by {
        assert(buf.subrange(a, b)[k] == buf[a + k]);
        assert((x + y)[k] == x[k]);
        assert(buf.subrange(a, a + x.len() as int)[k] == buf[a + k]);
    }
    assert forall|k: int| 0 <= k < y.len() implies buf.subrange(a + x.len() as int, b)[k]
        == y[k] by {
        assert(buf.subrange(a, b)[x.len() + k] == buf[a + x.len() + k]);
        assert((x + y)[x.len() + k] == y[k]);
        assert(buf.subrange(a + x.len() as int, b)[k] == buf[a + x.len() + k]);
    }
}

/// One encoded session record parses back to its fields.
#[verifier::rlimit(100)]
proof fn lemma_session_obj_round_trip(buf: Seq<u8>, i: int, x: Session)
    requires
        0 <= i,
        i + encode_session_bytes(x).len() <= buf.len(),
        buf.subrange(i, i + encode_session_bytes(x).len() as int) == encode_session_bytes(x),
    ensures
        spec_parse_session_obj(buf, i) == Some(
            (session_tuple(x), i + encode_session_bytes(x).len() as int),
        ),
{
    let a0 = sess_head_b();
    let q1 = quoted(x.id@);
    let a1 = sess_k_start_b();
    let d1 = dec_digits_i64(x.start as int);
    let a2 = sess_k_end_b();
    let d2 = dec_digits_i64(x.end as int);
    let a3 = sess_k_dur_b();
    let d3 = dec_digits(x.duration_seconds as nat);
    let a4 = sess_k_note_b();
    let q2 = quoted(x.note@);
    let enc = encode_session_bytes(x);
    let p1 = i + a0.len() as int;
    let p2 = p1 + q1.len() as int;
    let p3 = p2 + a1.len() as int;
    let p4 = p3 + d1.len() as int;
    let p5 = p4 + a2.len() as int;
    let p6 = p5 + d2.len() as int;
    let p7 = p6 + a3.len() as int;
    let p8 = p7 + d3.len() as int;
    let p9 = p8 + a4.len() as int;
    let p10 = p9 + q2.len() as int;
    assert(enc.len() == a0.len() + q1.len() + a1.len() + d1.len() + a2.len() + d2.len() + a3.len()
        + d3.len() + a4.len() + q2.len() + 1);
    let close = seq!['}' as u8];
    let r9 = q2 + close;
    let r8 = a4 + r9;
    let r7 = d3 + r8;
    let r6 = a3 + r7;
    let r5 = d2 + r6;
    let r4 = a2 + r5;
    let r3 = d1 + r4;
    let r2 = a1 + r3;
    let r1 = q1 + r2;
    assert(enc =~= a0 + r1);
    let endp = i + enc.len() as int;
    lemma_split_subrange(buf, i, endp, a0, r1);
    lemma_split_subrange(buf, p1, endp, q1, r2);
    lemma_split_subrange(buf, p2, endp, a1, r3);
    lemma_split_subrange(buf, p3, endp, d1, r4);
    lemma_split_subrange(buf, p4, endp, a2, r5);
    lemma_split_subrange(buf, p5, endp, d2, r6);
    lemma_split_subrange(buf, p6, endp, a3, r7);
    lemma_split_subrange(buf, p7, endp, d3, r8);
    lemma_split_subrange(buf, p8, endp, a4, r9);
    lemma_split_subrange(buf, p9, endp, q2, close);
    assert(buf[p10] == '}' as u8) by {
        assert(buf.subrange(p10, endp)[0] == buf[p10]);
    }
    assert(spec_expect(buf, i, a0) == Some(p1));
    assert(buf[p1] == 34) by {
        assert(buf.subrange(p1, p2)[0] == buf[p1]);
    }
    assert(buf.subrange(p1 + 1, p1 + 1 + esc_seq(x.id@).len() as int) =~= esc_seq(x.id@)) by {
        assert(forall|k: int|
            0 <= k < esc_seq(x.id@).len() ==> buf.subrange(p1, p2)[1 + k] == #[trigger] buf[p1 + 1
                + k]);
        assert(forall|k: int|
            0 <= k < esc_seq(x.id@).len() ==> q1[1 + k] == #[trigger] esc_seq(x.id@)[k]);
    }
    assert(buf[p1 + 1 + esc_seq(x.id@).len()] == 34) by {
        assert(buf.subrange(p1, p2)[q1.len() - 1] == buf[p2 - 1]);
    }
    lemma_parse_escaped(x.id@, buf, p1 + 1);
    assert(spec_parse_string(buf, p1) == Some((x.id@, p2)));
    assert(spec_expect(buf, p2, a1) == Some(p3));
    assert(buf[p4] == ',' as u8) by {
        assert(buf.subrange(p4, p5)[0] == buf[p4]);
    }
    lemma_spec_parse_i64_of_format(buf, p3, p4, x.start);
    assert(spec_expect(buf, p4, a2) == Some(p5));
    assert(buf[p6] == ',' as u8) by {
        assert(buf.subrange(p6, p7)[0] == buf[p6]);
    }
    lemma_spec_parse_i64_of_format(buf, p5, p6, x.end);
    assert(spec_expect(buf, p6, a3) == Some(p7));
    assert(buf[p8] == ',' as u8) by {
        assert(buf.subrange(p8, p9)[0] == buf[p8]);
    }
    lemma_spec_parse_u64_of_format(buf, p7, p8, x.duration_seconds);
    assert(spec_expect(buf, p8, a4) == Some(p9));
    assert(buf[p9] == 34) by {
        assert(buf.subrange(p9, p10)[0] == buf[p9]);
    }
    assert(buf.subrange(p9 + 1, p9 + 1 + esc_seq(x.note@).len() as int) =~= esc_seq(x.note@)) by {
        assert(forall|k: int|
            0 <= k < esc_seq(x.note@).len() ==> buf.subrange(p9, p10)[1 + k] == #[trigger] buf[p9
                + 1 + k]);
        assert(forall|k: int|
            0 <= k < esc_seq(x.note@).len() ==> q2[1 + k] == #[trigger] esc_seq(x.note@)[k]);
    }
    assert(buf[p9 + 1 + esc_seq(x.note@).len()] == 34) by {
        assert(buf.subrange(p9, p10)[q2.len() - 1] == buf[p10 - 1]);
    }
    lemma_parse_escaped(x.note@, buf, p9 + 1);
    assert(spec_parse_string(buf, p9) == Some((x.note@, p10)));
}

proof fn lemma_session_tuples_cons(t: Seq<Session>)
    requires
        t.len() >= 1,
    ensures
        session_tuples(t) =~= seq![session_tuple(t[0])] + session_tuples(t.drop_first()),
{
    assert(forall|j: int|
        0 <= j < t.len() ==> #[trigger] session_tuples(t)[j] == session_tuple(t[j]));
    assert(forall|j: int|
        0 <= j < t.len() - 1 ==> #[trigger] session_tuples(t.drop_first())[j] == session_tuple(
            t.drop_first()[j],
        ));
}

/// The list tail from just after an element: a separator and the next
/// record, repeatedly, then the closing bracket.
pub open spec fn sessions_rest_bytes(tail: Seq<Session>) -> Seq<u8>
    decreases tail.len(),
{
    if tail.len() == 0 {
        seq![']' as u8]
    } else {
        seq![',' as u8] + encode_session_bytes(tail[0]) + sessions_rest_bytes(tail.drop_first())
    }
}

proof fn lemma_sessions_items_decompose(l: Seq<Session>)
    requires
        l.len() >= 1,
    ensures
        encode_sessions_items(l) + seq![']' as u8] =~= encode_session_bytes(l[0])
            + sessions_rest_bytes(l.drop_first()),
    decreases l.len(),
{
    if l.len() == 1 {
        assert(encode_sessions_items(l) == encode_session_bytes(l[0]));
        assert(sessions_rest_bytes(l.drop_first()) =~= seq![']' as u8]);
    } else {
        let d = l.drop_first();
        lemma_sessions_items_decompose(d);
        assert(d[0] == l[1]);
        assert(encode_sessions_items(l) == encode_session_bytes(l[0]) + seq![',' as u8]
            + encode_sessions_items(d));
        assert(sessions_rest_bytes(d) == seq![',' as u8] + encode_session_bytes(d[0])
            + sessions_rest_bytes(d.drop_first()));
        assert(encode_sessions_items(l) + seq![']' as u8] =~= encode_session_bytes(l[0]) + (seq![
            ',' as u8,
        ] + (encode_sessions_items(d) + seq![']' as u8])));
        assert(encode_sessions_items(d) + seq![']' as u8] == encode_session_bytes(d[0])
            + sessions_rest_bytes(d.drop_first()));
        assert(encode_session_bytes(l[0]) + sessions_rest_bytes(d) =~= encode_session_bytes(l[0])
            + (seq![',' as u8] + (encode_session_bytes(d[0]) + sessions_rest_bytes(
            d.drop_first(),
        ))));
    }
}

#[verifier::rlimit(100)]
proof fn lemma_sessions_rest_parses(buf: Seq<u8>, q: int, tail: Seq<Session>, fuel: nat)
    requires
        0 <= q <= buf.len(),
        buf.subrange(q, buf.len() as int) == sessions_rest_bytes(tail),
        fuel >= buf.len() - q,
    ensures
        spec_parse_sessions_rest(buf, q, fuel) == Some((session_tuples(tail), buf.len() as int)),
    decreases tail.len(),
{
    if tail.len() == 0 {
        assert(sessions_rest_bytes(tail) =~= seq![']' as u8]);
        assert(buf.subrange(q, buf.len() as int).len() == buf.len() - q);
        assert(buf.len() - q == 1);
        assert(buf[q] == ']' as u8) by {
            assert(buf.subrange(q, buf.len() as int)[0] == buf[q]);
        }
        assert(session_tuples(Seq::<Session>::empty()) =~= Seq::<SessTup>::empty());
    } else {
        let t0 = tail[0];
        let enc = encode_session_bytes(t0);
        let q1 = q + 1 + enc.len() as int;
        let rest_tail = sessions_rest_bytes(tail.drop_first());
        assert(sessions_rest_bytes(tail) =~= seq![',' as u8] + (enc + rest_tail));
        lemma_split_subrange(buf, q, buf.len() as int, seq![',' as u8], enc + rest_tail);
        assert(buf[q] == ',' as u8) by {
            assert(buf.subrange(q, q + 1)[0] == buf[q]);
        }
        lemma_split_subrange(buf, q + 1, buf.len() as int, enc, rest_tail);
        lemma_session_obj_round_trip(buf, q + 1, t0);
        lemma_sessions_rest_parses(buf, q1, tail.drop_first(), (fuel - 1) as nat);
        lemma_session_tuples_cons(tail);
    }
}

#[verifier::rlimit(100)]
proof fn lemma_sessions_buf_split(l: Seq<Session>)
    requires
        l.len() >= 1,
    ensures
        ({
            let buf = encode_sessions_bytes(l);
            let enc = encode_session_bytes(l[0]);
            let e0 = 1 + enc.len() as int;
            &&& buf.len() == 1 + enc.len() + sessions_rest_bytes(l.drop_first()).len()
            &&& buf.len() >= 2
            &&& buf[0] == '[' as u8
            &&& buf[1] == '{' as u8
            &&& buf.subrange(1, e0) == enc
            &&& buf.subrange(e0, buf.len() as int) == sessions_rest_bytes(l.drop_first())
        }),
{
    let buf = encode_sessions_bytes(l);
    let enc = encode_session_bytes(l[0]);
    let e0 = 1 + enc.len() as int;
    let rest_tail = sessions_rest_bytes(l.drop_first());
    lemma_sessions_items_decompose(l);
    assert(buf =~= seq!['[' as u8] + (enc + rest_tail));
    assert(buf.subrange(0, buf.len() as int) =~= buf);
    lemma_split_subrange(buf, 0, buf.len() as int, seq!['[' as u8], enc + rest_tail);
    lemma_split_subrange(buf, 1, buf.len() as int, enc, rest_tail);
    assert(buf[0] == '[' as u8) by {
        assert(buf.subrange(0, 1)[0] == buf[0]);
        assert(seq!['[' as u8][0] == '[' as u8);
    }
    assert(buf[1] == '{' as u8) by {
        assert(enc[0] == '{' as u8) by {
            assert(sess_head_b()[0] == '{' as u8);
        }
        assert(buf.subrange(1, e0)[0] == buf[1]);
    }
}

#[verifier::rlimit(100)]
proof fn lemma_sessions_round_trip_nonempty(l: Seq<Session>)
    requires
        l.len() >= 1,
    ensures
        spec_parse_sessions(encode_sessions_bytes(l)) == Some(session_tuples(l)),
{
    let buf = encode_sessions_bytes(l);
    let enc = encode_session_bytes(l[0]);
    let e0 = 1 + enc.len() as int;
    lemma_sessions_buf_split(l);
    lemma_session_obj_round_trip(buf, 1, l[0]);
    lemma_sessions_rest_parses(buf, e0, l.drop_first(), buf.len() as nat);
    lemma_session_tuples_cons(l);
}

/// What the history writer wrote, the history reader reads back
/// unchanged.
pub proof fn lemma_sessions_round_trip(l: Seq<Session>)
    ensures
        spec_parse_sessions(encode_sessions_bytes(l)) == Some(session_tuples(l)),
{
    if l.len() == 0 {
        let buf = encode_sessions_bytes(l);
        assert(encode_sessions_items(l) =~= Seq::<u8>::empty());
        assert(buf =~= seq!['[' as u8, ']' as u8]);
        assert(buf[0] == '[' as u8 && buf[1] == ']' as u8 && buf.len() == 2);
        assert(session_tuples(l) =~= Seq::<SessTup>::empty());
    } else {
        lemma_sessions_round_trip_nonempty(l);
    }
}


/// One encoded entry record parses back to its fields.
#[verifier::rlimit(100)]
proof fn lemma_entry_obj_round_trip(buf: Seq<u8>, i: int, e: (Seq<u8>, u64))
    requires
        0 <= i,
        i + encode_entry_bytes(e.0, e.1).len() <= buf.len(),
        buf.subrange(i, i + encode_entry_bytes(e.0, e.1).len() as int) == encode_entry_bytes(
            e.0,
            e.1,
        ),
    ensures
        spec_parse_entry_obj(buf, i) == Some((e, i + encode_entry_bytes(e.0, e.1).len() as int)),
{
    let a0 = entry_head_b();
    let q1 = quoted(e.0);
    let a1 = entry_k_total_b();
    let d1 = dec_digits(e.1 as nat);
    let enc = encode_entry_bytes(e.0, e.1);
    let p1 = i + a0.len() as int;
    let p2 = p1 + q1.len() as int;
    let p3 = p2 + a1.len() as int;
    let p4 = p3 + d1.len() as int;
    assert(enc.len() == a0.len() + q1.len() + a1.len() + d1.len() + 1);
    let close = seq!['}' as u8];
    let r3 = d1 + close;
    let r2 = a1 + r3;
    let r1 = q1 + r2;
    assert(enc =~= a0 + r1);
    let endp = i + enc.len() as int;
    lemma_split_subrange(buf, i, endp, a0, r1);
    lemma_split_subrange(buf, p1, endp, q1, r2);
    lemma_split_subrange(buf, p2, endp, a1, r3);
    lemma_split_subrange(buf, p3, endp, d1, close);
    assert(buf[p4] == '}' as u8) by {
        assert(buf.subrange(p4, endp)[0] == buf[p4]);
    }
    assert(spec_expect(buf, i, a0) == Some(p1));
    assert(buf[p1] == 34) by {
        assert(buf.subrange(p1, p2)[0] == buf[p1]);
    }
    assert(buf.subrange(p1 + 1, p1 + 1 + esc_seq(e.0).len() as int) =~= esc_seq(e.0)) by {
        assert(forall|k: int|
            0 <= k < esc_seq(e.0).len() ==> buf.subrange(p1, p2)[1 + k] == #[trigger] buf[p1 + 1
                + k]);
        assert(forall|k: int|
            0 <= k < esc_seq(e.0).len() ==> q1[1 + k] == #[trigger] esc_seq(e.0)[k]);
    }
    assert(buf[p1 + 1 + esc_seq(e.0).len()] == 34) by {
        assert(buf.subrange(p1, p2)[q1.len() - 1] == buf[p2 - 1]);
    }
    lemma_parse_escaped(e.0, buf, p1 + 1);
    assert(spec_parse_string(buf, p1) == Some((e.0, p2)));
    assert(spec_expect(buf, p2, a1) == Some(p3));
    assert(!is_digit(buf[p4]));
    lemma_spec_parse_u64_of_format(buf, p3, p4, e.1);
}

/// The list tail from just after an entry.
pub open spec fn entries_rest_bytes(tail: Seq<(Seq<u8>, u64)>) -> Seq<u8>
    decreases tail.len(),
{
    if tail.len() == 0 {
        seq![']' as u8]
    } else {
        seq![',' as u8] + encode_entry_bytes(tail[0].0, tail[0].1) + entries_rest_bytes(
            tail.drop_first(),
        )
    }
}

proof fn lemma_entries_items_decompose(l: Seq<(Seq<u8>, u64)>)
    requires
        l.len() >= 1,
    ensures
        encode_entries_items(l) + seq![']' as u8] =~= encode_entry_bytes(l[0].0, l[0].1)
            + entries_rest_bytes(l.drop_first()),
    decreases l.len(),
{
    if l.len() == 1 {
        assert(encode_entries_items(l) == encode_entry_bytes(l[0].0, l[0].1));
        assert(entries_rest_bytes(l.drop_first()) =~= seq![']' as u8]);
    } else {
        let d = l.drop_first();
        lemma_entries_items_decompose(d);
        assert(d[0] == l[1]);
        assert(encode_entries_items(l) == encode_entry_bytes(l[0].0, l[0].1) + seq![',' as u8]
            + encode_entries_items(d));
        assert(entries_rest_bytes(d) == seq![',' as u8] + encode_entry_bytes(d[0].0, d[0].1)
            + entries_rest_bytes(d.drop_first()));
        assert(encode_entries_items(l) + seq![']' as u8] =~= encode_entry_bytes(l[0].0, l[0].1)
            + (seq![',' as u8] + (encode_entries_items(d) + seq![']' as u8])));
        assert(encode_entries_items(d) + seq![']' as u8] == encode_entry_bytes(d[0].0, d[0].1)
            + entries_rest_bytes(d.drop_first()));
        assert(encode_entry_bytes(l[0].0, l[0].1) + entries_rest_bytes(d) =~= encode_entry_bytes(
            l[0].0,
            l[0].1,
        ) + (seq![',' as u8] + (encode_entry_bytes(d[0].0, d[0].1) + entries_rest_bytes(
            d.drop_first(),
        ))));
    }
}

#[verifier::rlimit(100)]
proof fn lemma_entries_rest_parses(buf: Seq<u8>, q: int, tail: Seq<(Seq<u8>, u64)>, fuel: nat)
    requires
        0 <= q <= buf.len(),
        buf.subrange(q, buf.len() as int) == entries_rest_bytes(tail),
        fuel >= buf.len() - q,
    ensures
        spec_parse_entries_rest(buf, q, fuel) == Some((tail, buf.len() as int)),
    decreases tail.len(),
{
    if tail.len() == 0 {
        assert(entries_rest_bytes(tail) =~= seq![']' as u8]);
        assert(buf.subrange(q, buf.len() as int).len() == buf.len() - q);
        assert(buf.len() - q == 1);
        assert(buf[q] == ']' as u8) by {
            assert(buf.subrange(q, buf.len() as int)[0] == buf[q]);
        }
        assert(Seq::<(Seq<u8>, u64)>::empty() =~= tail);
    } else {
        let t0 = tail[0];
        let enc = encode_entry_bytes(t0.0, t0.1);
        let q1 = q + 1 + enc.len() as int;
        let rest_tail = entries_rest_bytes(tail.drop_first());
        assert(entries_rest_bytes(tail) =~= seq![',' as u8] + (enc + rest_tail));
        lemma_split_subrange(buf, q, buf.len() as int, seq![',' as u8], enc + rest_tail);
        assert(buf[q] == ',' as u8) by {
            assert(buf.subrange(q, q + 1)[0] == buf[q]);
        }
        lemma_split_subrange(buf, q + 1, buf.len() as int, enc, rest_tail);
        lemma_entry_obj_round_trip(buf, q + 1, t0);
        lemma_entries_rest_parses(buf, q1, tail.drop_first(), (fuel - 1) as nat);
        assert(tail =~= seq![t0] + tail.drop_first());
    }
}

#[verifier::rlimit(100)]
proof fn lemma_entries_buf_split(l: Seq<(Seq<u8>, u64)>)
    requires
        l.len() >= 1,
    ensures
        ({
            let buf = encode_entries_bytes(l);
            let enc = encode_entry_bytes(l[0].0, l[0].1);
            let e0 = 1 + enc.len() as int;
            &&& buf.len() == 1 + enc.len() + entries_rest_bytes(l.drop_first()).len()
            &&& buf.len() >= 2
            &&& buf[0] == '[' as u8
            &&& buf[1] == '{' as u8
            &&& buf.subrange(1, e0) == enc
            &&& buf.subrange(e0, buf.len() as int) == entries_rest_bytes(l.drop_first())
        }),
{
    let buf = encode_entries_bytes(l);
    let enc = encode_entry_bytes(l[0].0, l[0].1);
    let e0 = 1 + enc.len() as int;
    let rest_tail = entries_rest_bytes(l.drop_first());
    lemma_entries_items_decompose(l);
    assert(buf =~= seq!['[' as u8] + (enc + rest_tail));
    assert(buf.subrange(0, buf.len() as int) =~= buf);
    lemma_split_subrange(buf, 0, buf.len() as int, seq!['[' as u8], enc + rest_tail);
    lemma_split_subrange(buf, 1, buf.len() as int, enc, rest_tail);
    assert(buf[0] == '[' as u8) by {
        assert(buf.subrange(0, 1)[0] == buf[0]);
        assert(seq!['[' as u8][0] == '[' as u8);
    }
    assert(buf[1] == '{' as u8) by {
        assert(enc[0] == '{' as u8) by {
            assert(entry_head_b()[0] == '{' as u8);
        }
        assert(buf.subrange(1, e0)[0] == buf[1]);
    }
}

#[verifier::rlimit(100)]
proof fn lemma_entries_round_trip_nonempty(l: Seq<(Seq<u8>, u64)>)
    requires
        l.len() >= 1,
    ensures
        spec_parse_entries(encode_entries_bytes(l)) == Some(l),
{
    let buf = encode_entries_bytes(l);
    let enc = encode_entry_bytes(l[0].0, l[0].1);
    let e0 = 1 + enc.len() as int;
    lemma_entries_buf_split(l);
    lemma_entry_obj_round_trip(buf, 1, l[0]);
    lemma_entries_rest_parses(buf, e0, l.drop_first(), buf.len() as nat);
    assert(l =~= seq![l[0]] + l.drop_first());
}

/// What the ranked-list writer wrote, the reader reads back unchanged.
pub proof fn lemma_entries_round_trip(l: Seq<(Seq<u8>, u64)>)
    ensures
        spec_parse_entries(encode_entries_bytes(l)) == Some(l),
{
    if l.len() == 0 {
        let buf = encode_entries_bytes(l);
        assert(encode_entries_items(l) =~= Seq::<u8>::empty());
        assert(buf =~= seq!['[' as u8, ']' as u8]);
        assert(buf[0] == '[' as u8 && buf[1] == ']' as u8 && buf.len() == 2);
        assert(Seq::<(Seq<u8>, u64)>::empty() =~= l);
    } else {
        lemma_entries_round_trip_nonempty(l);
    }
}

} // verus!
