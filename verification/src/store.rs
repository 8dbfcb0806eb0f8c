//! The persistence layer: file locations, the sorted session history,
//! the active marker, and CSV export.
//!
//! The store computes paths and record bytes; reading and writing the
//! files themselves is the caller's concern. Loads degrade exactly as
//! specified: absent content is an empty history, unparsable content is
//! a parse error.

use vstd::prelude::*;

use crate::analytics::ts_in_range;
use crate::calendar::{format_rfc3339_utc, rfc3339_utc_of};
use crate::codec::{
    encode_active, encode_active_bytes, encode_sessions, encode_sessions_bytes, parse_active,
    parse_sessions, session_tuple, session_tuples, spec_parse_active, spec_parse_sessions, SessTup,
};
use crate::num::{dec_digits, format_u64};
use crate::session::{ActiveSession, Session};
use crate::text::push_all;
use crate::CoreError;

verus! {

/// Stable ascending insertion by start time: after every record starting
/// no later.
pub open spec fn ins_by_start(l: Seq<SessTup>, s: SessTup) -> Seq<SessTup>
    decreases l.len(),
{
    if l.len() == 0 {
        seq![s]
    } else if l[0].1 <= s.1 {
        seq![l[0]] + ins_by_start(l.drop_first(), s)
    } else {
        seq![s] + l
    }
}

/// Stable insertion sort by start time, ascending.
pub open spec fn sort_by_start(l: Seq<SessTup>) -> Seq<SessTup>
    decreases l.len(),
{
    if l.len() == 0 {
        l
    } else {
        ins_by_start(sort_by_start(l.drop_last()), l.last())
    }
}

proof fn lemma_ins_by_start_at(l: Seq<SessTup>, s: SessTup, p: int)
    requires
        0 <= p <= l.len(),
        forall|j: int| 0 <= j < p ==> (#[trigger] l[j]).1 <= s.1,
        p == l.len() || l[p].1 > s.1,
    ensures
        ins_by_start(l, s) =~= l.subrange(0, p) + seq![s] + l.subrange(p, l.len() as int),
    decreases l.len(),
{
    if l.len() == 0 {
    } else if p == 0 {
        assert(l.subrange(0, l.len() as int) =~= l);
    } else {
        assert(forall|j: int| 0 <= j < p - 1 ==> (#[trigger] l.drop_first()[j]).1 <= s.1) by {
            assert(forall|j: int| 0 <= j < p - 1 ==> l.drop_first()[j] == l[j + 1]);
        }
        if p < l.len() {
            assert(l.drop_first()[p - 1] == l[p]);
        }
        lemma_ins_by_start_at(l.drop_first(), s, p - 1);
        assert(l.drop_first().subrange(0, p - 1) =~= l.subrange(1, p));
        assert(l.drop_first().subrange(p - 1, l.drop_first().len() as int) =~= l.subrange(
            p,
            l.len() as int,
        ));
    }
}

fn insert_session_sorted(list: &mut Vec<Session>, s: Session)
    ensures
        session_tuples(final(list)@) == ins_by_start(
            session_tuples(old(list)@),
            session_tuple(s),
        ),
{
    let mut p: usize = 0;
    while p < list.len() && list[p].start <= s.start
        invariant
            p <= list@.len(),
            forall|j: int| 0 <= j < p ==> (#[trigger] session_tuples(list@)[j]).1 <= s.start,
        decreases list@.len() - p,
    {
        proof {
            assert(session_tuples(list@)[p as int] == session_tuple(list@[p as int]));
        }
        p = p + 1;
    }
    let ghost before = session_tuples(list@);
    let ghost sv = session_tuple(s);
    let ghost pp = p as int;
    proof {
        assert(forall|j: int|
            0 <= j < list@.len() ==> #[trigger] session_tuples(list@)[j] == session_tuple(
                list@[j],
            ));
        lemma_ins_by_start_at(before, sv, pp);
    }
    list.insert(p, s);
    proof {
        assert(session_tuples(list@) =~= before.subrange(0, pp) + seq![sv] + before.subrange(
            pp,
            before.len() as int,
        )) by {
            assert(forall|j: int|
                0 <= j < list@.len() ==> #[trigger] session_tuples(list@)[j] == session_tuple(
                    list@[j],
                ));
        }
    }
}

/// Sorts the history by start time, ascending and stably.
fn sort_sessions(list: &mut Vec<Session>)
    ensures
        session_tuples(final(list)@) == sort_by_start(session_tuples(old(list)@)),
{
    let mut sorted: Vec<Session> = Vec::new();
    let mut i: usize = 0;
    proof {
        assert(session_tuples(Seq::<Session>::empty()) =~= Seq::<SessTup>::empty());
        assert(session_tuples(old(list)@.subrange(0, 0)) =~= Seq::<SessTup>::empty());
        assert(sort_by_start(session_tuples(old(list)@.subrange(0, 0))) =~= Seq::<
            SessTup,
        >::empty());
    }
    while i < list.len()
        invariant
            i <= list@.len(),
            list@ == old(list)@,
            session_tuples(sorted@) == sort_by_start(
                session_tuples(list@.subrange(0, i as int)),
            ),
        decreases list@.len() - i,
    {
        let s = list[i].clone();
        let ghost prefix = session_tuples(list@.subrange(0, i as int));
        let ghost sv = session_tuple(s);
        insert_session_sorted(&mut sorted, s);
        i = i + 1;
        proof {
            let prefix1 = session_tuples(list@.subrange(0, i as int));
            assert(prefix1.drop_last() =~= prefix) by {
                assert(forall|j: int|
                    0 <= j < i ==> #[trigger] prefix1[j] == session_tuple(
                        list@.subrange(0, i as int)[j],
                    ));
                assert(forall|j: int|
                    0 <= j < i - 1 ==> #[trigger] prefix[j] == session_tuple(
                        list@.subrange(0, i - 1)[j],
                    ));
            }
            assert(prefix1.last() == session_tuple(list@[i - 1]));
            assert(sv == session_tuple(list@[i - 1]));
            assert(sort_by_start(prefix1) == ins_by_start(
                sort_by_start(prefix),
                session_tuple(list@[i - 1]),
            ));
        }
    }
    proof {
        assert(list@.subrange(0, list@.len() as int) =~= list@);
    }
    *list = sorted;
}

/// Bytes of the session-history file's name.
pub open spec fn sessions_file_name() -> Seq<u8> {
    seq![
        's' as u8, 'e' as u8, 's' as u8, 's' as u8, 'i' as u8, 'o' as u8, 'n' as u8, 's' as u8,
        '.' as u8, 'j' as u8, 's' as u8, 'o' as u8, 'n' as u8,
    ]
}

/// Bytes of the active-marker file's name.
pub open spec fn active_file_name() -> Seq<u8> {
    seq![
        'a' as u8, 'c' as u8, 't' as u8, 'i' as u8, 'v' as u8, 'e' as u8, '_' as u8, 's' as u8,
        'e' as u8, 's' as u8, 's' as u8, 'i' as u8, 'o' as u8, 'n' as u8, '.' as u8, 'j' as u8,
        's' as u8, 'o' as u8, 'n' as u8,
    ]
}

/// `dir`, a separator, and `name`.
pub open spec fn joined_path(dir: Seq<u8>, name: Seq<u8>) -> Seq<u8> {
    dir + seq![47u8] + name
}

fn push_sessions_file_name(out: &mut Vec<u8>)
    ensures
        final(out)@ == old(out)@ + sessions_file_name(),
{
    out.push('s' as u8);
    out.push('e' as u8);
    out.push('s' as u8);
    out.push('s' as u8);
    out.push('i' as u8);
    out.push('o' as u8);
    out.push('n' as u8);
    out.push('s' as u8);
    out.push('.' as u8);
    out.push('j' as u8);
    out.push('s' as u8);
    out.push('o' as u8);
    out.push('n' as u8);
    proof {
        assert(out@ =~= old(out)@ + sessions_file_name());
    }
}

fn push_active_file_name(out: &mut Vec<u8>)
    ensures
        final(out)@ == old(out)@ + active_file_name(),
{
    out.push('a' as u8);
    out.push('c' as u8);
    out.push('t' as u8);
    out.push('i' as u8);
    out.push('v' as u8);
    out.push('e' as u8);
    out.push('_' as u8);
    out.push('s' as u8);
    out.push('e' as u8);
    out.push('s' as u8);
    out.push('s' as u8);
    out.push('i' as u8);
    out.push('o' as u8);
    out.push('n' as u8);
    out.push('.' as u8);
    out.push('j' as u8);
    out.push('s' as u8);
    out.push('o' as u8);
    out.push('n' as u8);
    proof {
        assert(out@ =~= old(out)@ + active_file_name());
    }
}

/// File locations for the persisted records, under one data directory.
pub struct SessionStore {
    pub data_dir: Vec<u8>,
    pub sessions_file: Vec<u8>,
    pub active_file: Vec<u8>,
}

impl SessionStore {
    /// Lays the record files out under the given data directory.
    pub fn new(data_dir: Vec<u8>) -> (r: SessionStore)
        ensures
            r.data_dir@ == data_dir@,
            r.sessions_file@ == joined_path(data_dir@, sessions_file_name()),
            r.active_file@ == joined_path(data_dir@, active_file_name()),
    {
        let mut sessions_file: Vec<u8> = data_dir.clone();
        sessions_file.push(47);
        push_sessions_file_name(&mut sessions_file);
        let mut active_file: Vec<u8> = data_dir.clone();
        active_file.push(47);
        push_active_file_name(&mut active_file);
        proof {
            assert(sessions_file@ =~= joined_path(data_dir@, sessions_file_name()));
            assert(active_file@ =~= joined_path(data_dir@, active_file_name()));
        }
        SessionStore { data_dir, sessions_file, active_file }
    }

    pub fn data_dir(&self) -> (r: &Vec<u8>)
        ensures
            r@ == self.data_dir@,
    {
        &self.data_dir
    }

    /// The history carried by the session file's content: absent content
    /// is an empty history, unparsable content a parse error.
    pub fn load_sessions(&self, content: Option<&Vec<u8>>) -> (r: Result<Vec<Session>, CoreError>)
        ensures
            match content {
                None => r matches Ok(l) && l@.len() == 0,
                Some(b) => match spec_parse_sessions(b@) {
                    Some(t) => r matches Ok(l) && session_tuples(l@) == t,
                    None => r == Result::<Vec<Session>, CoreError>::Err(CoreError::Parse),
                },
            },
    {
        match content {
            None => Ok(Vec::new()),
            Some(b) => {
                match parse_sessions(b) {
                    Some(l) => Ok(l),
                    None => Err(CoreError::Parse),
                }
            },
        }
    }

    /// Sorts the history by start, ascending, and renders the bytes to
    /// write back.
    pub fn save_sessions(&self, sessions: &mut Vec<Session>) -> (r: Vec<u8>)
        ensures
            session_tuples(final(sessions)@) == sort_by_start(session_tuples(old(sessions)@)),
            r@ == encode_sessions_bytes(final(sessions)@),
    {
        sort_sessions(sessions);
        encode_sessions(sessions)
    }

    /// Appends one session, re-sorts, and renders the bytes to write
    /// back.
    pub fn append_session(&self, sessions: &mut Vec<Session>, session: Session) -> (r: Vec<u8>)
        ensures
            session_tuples(final(sessions)@) == sort_by_start(
                session_tuples(old(sessions)@).push(session_tuple(session)),
            ),
            r@ == encode_sessions_bytes(final(sessions)@),
    {
        let ghost before = session_tuples(sessions@);
        let ghost sv = session_tuple(session);
        sessions.push(session);
        proof {
            assert(session_tuples(sessions@) =~= before.push(sv)) by {
                assert(forall|j: int|
                    0 <= j < sessions@.len() ==> #[trigger] session_tuples(sessions@)[j]
                        == session_tuple(sessions@[j]));
                assert(forall|j: int|
                    0 <= j < before.len() ==> #[trigger] before[j] == session_tuple(
                        old(sessions)@[j],
                    ));
            }
        }
        self.save_sessions(sessions)
    }

    /// The marker carried by the active file's content: absent content is
    /// no marker, unparsable content a parse error.
    pub fn load_active(&self, content: Option<&Vec<u8>>) -> (r: Result<
        Option<ActiveSession>,
        CoreError,
    >)
        ensures
            match content {
                None => r matches Ok(a) && a is None,
                Some(b) => match spec_parse_active(b@) {
                    Some((st, ls)) => r matches Ok(a) && (a matches Some(m) && m.start == st
                        && m.last_seen == ls),
                    None => r == Result::<Option<ActiveSession>, CoreError>::Err(CoreError::Parse),
                },
            },
    {
        match content {
            None => Ok(None),
            Some(b) => {
                match parse_active(b) {
                    Some(a) => Ok(Some(a)),
                    None => Err(CoreError::Parse),
                }
            },
        }
    }

    /// Renders the marker's bytes to write. Together with
    /// `crate::codec::lemma_active_round_trip`, what is saved here is
    /// exactly what `load_active` reads back.
    pub fn save_active(&self, active: &ActiveSession) -> (r: Vec<u8>)
        ensures
            r@ == encode_active_bytes(active.start as int, active.last_seen as int),
    {
        encode_active(active)
    }
}

/// Index of the last path separator, or -1.
pub open spec fn last_sep(s: Seq<u8>) -> int
    decreases s.len(),
{
    if s.len() == 0 {
        -1
    } else if s.last() == 47 {
        s.len() - 1
    } else {
        last_sep(s.drop_last())
    }
}

/// Index of the last dot, or -1.
pub open spec fn last_dot(s: Seq<u8>) -> int
    decreases s.len(),
{
    if s.len() == 0 {
        -1
    } else if s.last() == 46 {
        s.len() - 1
    } else {
        last_dot(s.drop_last())
    }
}

/// The bytes `.csv`.
pub open spec fn csv_ext() -> Seq<u8> {
    seq!['.' as u8, 'c' as u8, 's' as u8, 'v' as u8]
}

/// A `.csv` extension forced onto the path: a non-`csv` extension in the
/// final component is replaced, a missing one appended.
pub open spec fn force_csv(s: Seq<u8>) -> Seq<u8> {
    let ld = last_dot(s);
    let has_ext = ld >= last_sep(s) + 2;
    if has_ext && ld == s.len() - 4 && s.subrange(ld, s.len() as int) == csv_ext() {
        s
    } else if has_ext {
        s.subrange(0, ld) + csv_ext()
    } else {
        s + csv_ext()
    }
}

proof fn lemma_last_sep_at(s: Seq<u8>, k: int)
    requires
        -1 <= k < s.len(),
        forall|i: int| k < i < s.len() ==> s[i] != 47,
        k == -1 || s[k] == 47,
    ensures
        last_sep(s) == k,
    decreases s.len(),
{
    if s.len() > 0 && s.last() != 47 {
        lemma_last_sep_at(s.drop_last(), k);
    }
}

proof fn lemma_last_dot_at(s: Seq<u8>, k: int)
    requires
        -1 <= k < s.len(),
        forall|i: int| k < i < s.len() ==> s[i] != 46,
        k == -1 || s[k] == 46,
    ensures
        last_dot(s) == k,
    decreases s.len(),
{
    if s.len() > 0 && s.last() != 46 {
        lemma_last_dot_at(s.drop_last(), k);
    }
}

/// Finds the last byte equal to `b`, if any.
fn rfind_byte(s: &Vec<u8>, b: u8) -> (r: Option<usize>)
    ensures
        match r {
            Some(k) => k < s@.len() && s@[k as int] == b && (forall|i: int|
                k < i < s@.len() ==> s@[i] != b),
            None => forall|i: int| 0 <= i < s@.len() ==> s@[i] != b,
        },
{
    let mut j: usize = s.len();
    while j > 0
        invariant
            j <= s@.len(),
            forall|i: int| j <= i < s@.len() ==> s@[i] != b,
        decreases j,
    {
        j = j - 1;
        if s[j] == b {
            return Some(j);
        }
    }
    None
}

fn push_csv_ext(out: &mut Vec<u8>)
    ensures
        final(out)@ == old(out)@ + csv_ext(),
{
    out.push('.' as u8);
    out.push('c' as u8);
    out.push('s' as u8);
    out.push('v' as u8);
    proof {
        assert(out@ =~= old(out)@ + csv_ext());
    }
}

/// Forces a `.csv` extension onto the path.
pub fn force_csv_extension(path: &Vec<u8>) -> (r: Vec<u8>)
    ensures
        r@ == force_csv(path@),
        r@.len() >= 4,
        r@.subrange(r@.len() - 4, r@.len() as int) == csv_ext(),
{
    let ld = rfind_byte(path, 46);
    let ls = rfind_byte(path, 47);
    proof {
        match ld {
            Some(k) => lemma_last_dot_at(path@, k as int),
            None => lemma_last_dot_at(path@, -1),
        }
        match ls {
            Some(k) => lemma_last_sep_at(path@, k as int),
            None => lemma_last_sep_at(path@, -1),
        }
    }
    let has_ext: bool = match (ld, ls) {
        (Some(d), Some(k)) => d > k && d - k >= 2,
        (Some(d), None) => d >= 1,
        (None, _) => false,
    };
    match ld {
        Some(d) if has_ext => {
            // an extension exists; keep the path when it is already `.csv`
            if path.len() - d == 4 && path[d] == 46 && path[d + 1] == 99 && path[d + 2] == 115
                && path[d + 3] == 118 {
                proof {
                    assert(path@.subrange(d as int, path@.len() as int) =~= csv_ext());
                }
                let r = path.clone();
                proof {
                    assert(r@.subrange(r@.len() - 4, r@.len() as int) =~= csv_ext());
                }
                r
            } else {
                let mut r: Vec<u8> = Vec::new();
                let mut i: usize = 0;
                while i < d
                    invariant
                        i <= d <= path@.len(),
                        r@ =~= path@.subrange(0, i as int),
                    decreases d - i,
                {
                    r.push(path[i]);
                    i = i + 1;
                    proof {
                        assert(path@.subrange(0, i as int) =~= path@.subrange(0, i - 1).push(
                            path@[i - 1],
                        ));
                    }
                }
                push_csv_ext(&mut r);
                proof {
                    if d + 4 == path@.len() && path@.subrange(d as int, path@.len() as int)
                        == csv_ext() {
                        assert(path@.len() - d == 4);
                        assert(path@[d as int] == 46) by {
                            assert(path@.subrange(d as int, path@.len() as int)[0] == path@[
                                d as int
                            ]);
                        }
                        assert(path@[d + 1] == 99) by {
                            assert(path@.subrange(d as int, path@.len() as int)[1] == path@[d + 1]);
                        }
                        assert(path@[d + 2] == 115) by {
                            assert(path@.subrange(d as int, path@.len() as int)[2] == path@[d + 2]);
                        }
                        assert(path@[d + 3] == 118) by {
                            assert(path@.subrange(d as int, path@.len() as int)[3] == path@[d + 3]);
                        }
                        assert(false);
                    }
                    assert(r@.subrange(r@.len() - 4, r@.len() as int) =~= csv_ext());
                }
                r
            }
        },
        _ => {
            let mut r = path.clone();
            push_csv_ext(&mut r);
            proof {
                assert(r@ =~= path@ + csv_ext());
                assert(r@.subrange(r@.len() - 4, r@.len() as int) =~= csv_ext());
            }
            r
        },
    }
}

/// The note field as exported: embedded quotes downgraded to apostrophes.
pub open spec fn csv_note(s: Seq<u8>) -> Seq<u8> {
    Seq::new(
        s.len(),
        |i: int|
            if s[i] == 34 {
                39u8
            } else {
                s[i]
            },
    )
}

/// Minutes to two decimal places, from whole seconds: the whole minutes,
/// a dot, and the rounded hundredths.
pub open spec fn two_dec_minutes(secs: nat) -> Seq<u8> {
    let frac = (10 * (secs % 60) + 3) / 6;
    dec_digits(secs / 60) + seq!['.' as u8] + (if frac < 10 {
        seq!['0' as u8]
    } else {
        Seq::<u8>::empty()
    }) + dec_digits(frac)
}

/// The export's header row.
pub open spec fn csv_header() -> Seq<u8> {
    seq![
        'i' as u8, 'd' as u8, ',' as u8, 's' as u8, 't' as u8, 'a' as u8, 'r' as u8, 't' as u8,
        ',' as u8, 'e' as u8, 'n' as u8, 'd' as u8, ',' as u8, 'd' as u8, 'u' as u8, 'r' as u8,
        'a' as u8, 't' as u8, 'i' as u8, 'o' as u8, 'n' as u8, '_' as u8, 'm' as u8, 'i' as u8,
        'n' as u8, 'u' as u8, 't' as u8, 'e' as u8, 's' as u8, ',' as u8, 'n' as u8, 'o' as u8,
        't' as u8, 'e' as u8, '\n' as u8,
    ]
}

/// One export row: id, both timestamps in UTC RFC 3339, the duration in
/// minutes to two decimals, and the quoted note.
pub open spec fn csv_row(s: Session) -> Seq<u8> {
    s.id@ + seq![',' as u8] + rfc3339_utc_of(s.start as int) + seq![',' as u8] + rfc3339_utc_of(
        s.end as int,
    ) + seq![',' as u8] + two_dec_minutes(s.duration_seconds as nat) + seq![',' as u8, '"' as u8]
        + csv_note(s.note@) + seq!['"' as u8, '\n' as u8]
}

/// All export rows, in history order.
pub open spec fn csv_rows(l: Seq<Session>) -> Seq<u8>
    decreases l.len(),
{
    if l.len() == 0 {
        Seq::empty()
    } else {
        csv_rows(l.drop_last()) + csv_row(l.last())
    }
}

/// The whole export: header then one row per session.
pub open spec fn csv_bytes(l: Seq<Session>) -> Seq<u8> {
    csv_header() + csv_rows(l)
}

fn push_csv_header(out: &mut Vec<u8>)
    ensures
        final(out)@ == old(out)@ + csv_header(),
{
    let mut h: Vec<u8> = Vec::new();
    h.push('i' as u8);
    h.push('d' as u8);
    h.push(',' as u8);
    h.push('s' as u8);
    h.push('t' as u8);
    h.push('a' as u8);
    h.push('r' as u8);
    h.push('t' as u8);
    h.push(',' as u8);
    h.push('e' as u8);
    h.push('n' as u8);
    h.push('d' as u8);
    h.push(',' as u8);
    h.push('d' as u8);
    h.push('u' as u8);
    h.push('r' as u8);
    h.push('a' as u8);
    h.push('t' as u8);
    h.push('i' as u8);
    h.push('o' as u8);
    h.push('n' as u8);
    h.push('_' as u8);
    h.push('m' as u8);
    h.push('i' as u8);
    h.push('n' as u8);
    h.push('u' as u8);
    h.push('t' as u8);
    h.push('e' as u8);
    h.push('s' as u8);
    h.push(',' as u8);
    h.push('n' as u8);
    h.push('o' as u8);
    h.push('t' as u8);
    h.push('e' as u8);
    h.push('\n' as u8);
    proof {
        assert(h@ =~= csv_header());
    }
    push_all(out, &h);
}

fn push_two_dec_minutes(out: &mut Vec<u8>, secs: u64)
    ensures
        final(out)@ == old(out)@ + two_dec_minutes(secs as nat),
{
    let whole: u64 = secs / 60;
    let frac: u64 = (10 * (secs % 60) + 3) / 6;
    let w = format_u64(whole);
    push_all(out, &w);
    out.push('.' as u8);
    if frac < 10 {
        out.push('0' as u8);
    }
    let f = format_u64(frac);
    push_all(out, &f);
    proof {
        assert(out@ =~= old(out)@ + two_dec_minutes(secs as nat));
    }
}

fn push_csv_note(out: &mut Vec<u8>, note: &Vec<u8>)
    ensures
        final(out)@ == old(out)@ + csv_note(note@),
{
    let mut i: usize = 0;
    while i < note.len()
        invariant
            i <= note@.len(),
            out@ =~= old(out)@ + csv_note(note@).subrange(0, i as int),
        decreases note@.len() - i,
    {
        let b = note[i];
        if b == 34 {
            out.push(39);
        } else {
            out.push(b);
        }
        i = i + 1;
        proof {
            assert(csv_note(note@).subrange(0, i as int) =~= csv_note(note@).subrange(
                0,
                i - 1,
            ).push(csv_note(note@)[i - 1]));
        }
    }
    proof {
        assert(csv_note(note@).subrange(0, note@.len() as int) =~= csv_note(note@));
    }
}

impl SessionStore {
    /// Renders the history as CSV: the row count, the `.csv`-forced
    /// output path, and the file's contents.
    #[verifier::rlimit(60)]
    pub fn export_csv(&self, path: &Vec<u8>, sessions: &Vec<Session>) -> (r: (
        usize,
        Vec<u8>,
        Vec<u8>,
    ))
        requires
            forall|i: int|
                0 <= i < sessions@.len() ==> ts_in_range((#[trigger] sessions@[i]).start as int)
                    && ts_in_range(sessions@[i].end as int),
        ensures
            r.0 == sessions@.len(),
            r.1@ == force_csv(path@),
            r.1@.len() >= 4,
            r.1@.subrange(r.1@.len() - 4, r.1@.len() as int) == csv_ext(),
            r.2@ == csv_bytes(sessions@),
    {
        let out_path = force_csv_extension(path);
        let mut out: Vec<u8> = Vec::new();
        push_csv_header(&mut out);
        let mut i: usize = 0;
        proof {
            assert(csv_rows(sessions@.subrange(0, 0)) =~= Seq::<u8>::empty());
            assert(out@ =~= csv_header() + csv_rows(sessions@.subrange(0, 0)));
        }
        while i < sessions.len()
            invariant
                i <= sessions@.len(),
                forall|j: int|
                    0 <= j < sessions@.len() ==> ts_in_range(
                        (#[trigger] sessions@[j]).start as int,
                    ) && ts_in_range(sessions@[j].end as int),
                out@ =~= csv_header() + csv_rows(sessions@.subrange(0, i as int)),
            decreases sessions@.len() - i,
        {
            let s = &sessions[i];
            push_all(&mut out, &s.id);
            out.push(',' as u8);
            let t1 = format_rfc3339_utc(s.start);
            push_all(&mut out, &t1);
            out.push(',' as u8);
            let t2 = format_rfc3339_utc(s.end);
            push_all(&mut out, &t2);
            out.push(',' as u8);
            push_two_dec_minutes(&mut out, s.duration_seconds);
            out.push(',' as u8);
            out.push('"' as u8);
            push_csv_note(&mut out, &s.note);
            out.push('"' as u8);
            out.push('\n' as u8);
            i = i + 1;
            proof {
                assert(sessions@.subrange(0, i as int).drop_last() =~= sessions@.subrange(
                    0,
                    i - 1,
                ));
                assert(sessions@.subrange(0, i as int).last() == sessions@[i - 1]);
                assert(out@ =~= csv_header() + csv_rows(sessions@.subrange(0, i as int)));
            }
        }
        proof {
            assert(sessions@.subrange(0, sessions@.len() as int) =~= sessions@);
        }
        (sessions.len(), out_path, out)
    }
}

} // verus!
