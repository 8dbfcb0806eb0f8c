//! The ranked list of display names and aggregate totals, and the client
//! configuration that decides where it lives.
//!
//! The stored list is capped at 25 entries, sorted descending by total
//! minutes, and unique by case-insensitive name; a newer submission
//! overwrites the total kept under a matching name.

use vstd::prelude::*;

use crate::text::{eq_ignore_case, lower_seq, push_all, trim, trim_seq};

verus! {

/// One ranked entry: a display name and its aggregate total minutes.
pub struct LeaderboardEntry {
    pub username: Vec<u8>,
    pub total_minutes: u64,
}

impl Clone for LeaderboardEntry {
    fn clone(&self) -> (r: LeaderboardEntry)
        ensures
            r.username@ == self.username@,
            r.total_minutes == self.total_minutes,
    {
        LeaderboardEntry { username: self.username.clone(), total_minutes: self.total_minutes }
    }
}

/// The mathematical shape of an entry: name bytes and total.
pub type EntryV = (Seq<u8>, u64);

pub open spec fn entry_view(e: LeaderboardEntry) -> EntryV {
    (e.username@, e.total_minutes)
}

pub open spec fn lb_view(l: Seq<LeaderboardEntry>) -> Seq<EntryV> {
    l.map_values(|e: LeaderboardEntry| entry_view(e))
}

/// Entries are matched by their ASCII-lower-cased name.
pub open spec fn entry_key(e: EntryV) -> Seq<u8> {
    lower_seq(e.0)
}

/// Descending order by total minutes.
pub open spec fn sorted_desc(l: Seq<EntryV>) -> bool {
    forall|i: int, j: int| 0 <= i < j < l.len() ==> (#[trigger] l[i]).1 >= (#[trigger] l[j]).1
}

/// Stable descending insertion: `e` lands after every entry whose total
/// is at least as large.
pub open spec fn ins_desc(l: Seq<EntryV>, e: EntryV) -> Seq<EntryV>
    decreases l.len(),
{
    if l.len() == 0 {
        seq![e]
    } else if l[0].1 >= e.1 {
        seq![l[0]] + ins_desc(l.drop_first(), e)
    } else {
        seq![e] + l
    }
}

/// Stable insertion sort, descending by total.
pub open spec fn sort_desc(l: Seq<EntryV>) -> Seq<EntryV>
    decreases l.len(),
{
    if l.len() == 0 {
        l
    } else {
        ins_desc(sort_desc(l.drop_last()), l.last())
    }
}

/// Index of the first entry whose key matches, or -1.
pub open spec fn find_key(l: Seq<EntryV>, k: Seq<u8>) -> int
    decreases l.len(),
{
    if l.len() == 0 {
        -1
    } else if entry_key(l[0]) == k {
        0
    } else {
        let r = find_key(l.drop_first(), k);
        if r < 0 {
            -1
        } else {
            r + 1
        }
    }
}

/// A submission lands on the existing entry of the same key, keeping its
/// stored name, or is appended as a new trimmed name.
pub open spec fn upsert(l: Seq<EntryV>, name: Seq<u8>, t: u64) -> Seq<EntryV> {
    let i = find_key(l, lower_seq(name));
    if i >= 0 {
        l.update(i, (l[i].0, t))
    } else {
        l.push((trim_seq(name), t))
    }
}

/// First `n` entries.
pub open spec fn take_at_most(l: Seq<EntryV>, n: int) -> Seq<EntryV> {
    if l.len() <= n {
        l
    } else {
        l.subrange(0, n)
    }
}

/// What one leaderboard submission does to the stored list: upsert by
/// case-insensitive name, re-sort descending (stably), keep the top 25.
pub open spec fn lb_update(l: Seq<EntryV>, name: Seq<u8>, t: u64) -> Seq<EntryV> {
    take_at_most(sort_desc(upsert(l, name, t)), 25)
}

proof fn lemma_find_key_at(l: Seq<EntryV>, k: Seq<u8>, i: int)
    requires
        0 <= i <= l.len(),
        forall|j: int| 0 <= j < i ==> entry_key(#[trigger] l[j]) != k,
        i == l.len() || entry_key(l[i]) == k,
    ensures
        find_key(l, k) == if i == l.len() {
            -1
        } else {
            i
        },
    decreases l.len(),
{
    if l.len() == 0 {
    } else if i == 0 {
    } else {
        assert(forall|j: int|
            0 <= j < i - 1 ==> entry_key(#[trigger] l.drop_first()[j]) != k) by {
            assert(forall|j: int| 0 <= j < i - 1 ==> l.drop_first()[j] == l[j + 1]);
        }
        if i < l.len() {
            assert(l.drop_first()[i - 1] == l[i]);
        }
        lemma_find_key_at(l.drop_first(), k, i - 1);
    }
}

proof fn lemma_ins_desc_at(l: Seq<EntryV>, e: EntryV, p: int)
    requires
        0 <= p <= l.len(),
        forall|j: int| 0 <= j < p ==> (#[trigger] l[j]).1 >= e.1,
        p == l.len() || l[p].1 < e.1,
    ensures
        ins_desc(l, e) =~= l.subrange(0, p) + seq![e] + l.subrange(p, l.len() as int),
    decreases l.len(),
{
    if l.len() == 0 {
    } else if p == 0 {
        assert(l.subrange(0, l.len() as int) =~= l);
    } else {
        assert(forall|j: int| 0 <= j < p - 1 ==> (#[trigger] l.drop_first()[j]).1 >= e.1) by {
            assert(forall|j: int| 0 <= j < p - 1 ==> l.drop_first()[j] == l[j + 1]);
        }
        if p < l.len() {
            assert(l.drop_first()[p - 1] == l[p]);
        }
        lemma_ins_desc_at(l.drop_first(), e, p - 1);
        assert(l.drop_first().subrange(0, p - 1) =~= l.subrange(1, p));
        assert(l.drop_first().subrange(p - 1, l.drop_first().len() as int) =~= l.subrange(
            p,
            l.len() as int,
        ));
    }
}

/// Inserts `e` into a descending-sorted vector, after equals.
fn insert_sorted(entries: &mut Vec<LeaderboardEntry>, e: LeaderboardEntry)
    ensures
        lb_view(final(entries)@) == ins_desc(lb_view(old(entries)@), entry_view(e)),
{
    let mut p: usize = 0;
    while p < entries.len() && entries[p].total_minutes >= e.total_minutes
        invariant
            p <= entries@.len(),
            forall|j: int| 0 <= j < p ==> (#[trigger] lb_view(entries@)[j]).1 >= e.total_minutes,
        decreases entries@.len() - p,
    {
        p = p + 1;
    }
    let ghost before = lb_view(entries@);
    let ghost ev = entry_view(e);
    let ghost pp = p as int;
    entries.insert(p, e);
    proof {
        lemma_ins_desc_at(before, ev, pp);
        assert(lb_view(entries@) =~= before.subrange(0, pp) + seq![ev] + before.subrange(
            pp,
            before.len() as int,
        )) by {
            assert(forall|j: int|
                0 <= j < entries@.len() ==> lb_view(entries@)[j] == entry_view(
                    #[trigger] entries@[j],
                ));
        }
    }
}

/// Sorts descending by total, stably.
fn sort_entries(entries: &mut Vec<LeaderboardEntry>)
    ensures
        lb_view(final(entries)@) == sort_desc(lb_view(old(entries)@)),
{
    let mut sorted: Vec<LeaderboardEntry> = Vec::new();
    let mut i: usize = 0;
    proof {
        assert(lb_view(Seq::<LeaderboardEntry>::empty()) =~= Seq::<EntryV>::empty());
        assert(lb_view(old(entries)@.subrange(0, 0)) =~= Seq::<EntryV>::empty());
        assert(sort_desc(lb_view(old(entries)@.subrange(0, 0))) =~= Seq::<EntryV>::empty());
    }
    while i < entries.len()
        invariant
            i <= entries@.len(),
            entries@ == old(entries)@,
            lb_view(sorted@) == sort_desc(lb_view(entries@.subrange(0, i as int))),
        decreases entries@.len() - i,
    {
        let e = entries[i].clone();
        let ghost prefix = lb_view(entries@.subrange(0, i as int));
        let ghost ev = entry_view(e);
        insert_sorted(&mut sorted, e);
        i = i + 1;
        proof {
            let prefix1 = lb_view(entries@.subrange(0, i as int));
            assert(prefix1 =~= prefix.push(entry_view(entries@[i - 1]))) by {
                assert(entries@.subrange(0, i as int).drop_last() =~= entries@.subrange(
                    0,
                    i - 1,
                ));
                assert(forall|j: int|
                    0 <= j < prefix1.len() ==> prefix1[j] == entry_view(
                        #[trigger] entries@.subrange(0, i as int)[j],
                    ));
                assert(forall|j: int|
                    0 <= j < prefix.len() ==> prefix[j] == entry_view(
                        #[trigger] entries@.subrange(0, i - 1)[j],
                    ));
            }
            assert(ev == entry_view(entries@[i - 1]));
            assert(prefix1.drop_last() =~= prefix);
            assert(prefix1.last() == entry_view(entries@[i - 1]));
            assert(sort_desc(prefix1) == ins_desc(sort_desc(prefix), entry_view(entries@[i - 1])));
        }
    }
    proof {
        assert(entries@.subrange(0, entries@.len() as int) =~= entries@);
    }
    *entries = sorted;
}

/// One submission to the stored ranked list: upsert matching
/// case-insensitively, re-sort descending, keep the top 25.
pub fn update_local_entries(entries: &mut Vec<LeaderboardEntry>, username: &Vec<u8>, total_minutes: u64)
    ensures
        lb_view(final(entries)@) == lb_update(lb_view(old(entries)@), username@, total_minutes),
        sorted_desc(lb_view(final(entries)@)),
        final(entries)@.len() <= 25,
{
    let ghost l0 = lb_view(entries@);
    let hit = find_entry(entries, username);
    if let Some(i) = hit {
        let kept = entries.remove(i);
        let updated = LeaderboardEntry { username: kept.username, total_minutes };
        entries.insert(i, updated);
        proof {
            lemma_find_key_at(l0, lower_seq(username@), i as int);
            assert(lb_view(entries@) =~= l0.update(i as int, (l0[i as int].0, total_minutes))) by {
                assert(forall|j: int|
                    0 <= j < entries@.len() ==> lb_view(entries@)[j] == entry_view(
                        #[trigger] entries@[j],
                    ));
            }
            assert(lb_view(entries@) == upsert(l0, username@, total_minutes));
        }
    } else {
        let name = trim(username);
        entries.push(LeaderboardEntry { username: name, total_minutes });
        proof {
            lemma_find_key_at(l0, lower_seq(username@), l0.len() as int);
            assert(lb_view(entries@) =~= l0.push((trim_seq(username@), total_minutes))) by {
                assert(forall|j: int|
                    0 <= j < entries@.len() ==> lb_view(entries@)[j] == entry_view(
                        #[trigger] entries@[j],
                    ));
            }
        }
    }
    sort_entries(entries);
    let ghost mid = entries@;
    proof {
        lemma_sort_desc_sorted(upsert(l0, username@, total_minutes));
    }
    entries.truncate(25);
    proof {
        let sorted_all = sort_desc(upsert(l0, username@, total_minutes));
        assert(lb_view(mid) == sorted_all);
        assert(lb_view(entries@) =~= take_at_most(sorted_all, 25)) by {
            assert(forall|j: int|
                0 <= j < entries@.len() ==> lb_view(entries@)[j] == entry_view(
                    #[trigger] entries@[j],
                ));
            assert(forall|j: int|
                0 <= j < mid.len() ==> lb_view(mid)[j] == entry_view(#[trigger] mid[j]));
        }
        assert(sorted_desc(lb_view(entries@))) by {
            let t = take_at_most(sorted_all, 25);
            assert(forall|j: int| 0 <= j < t.len() ==> t[j] == sorted_all[j]);
        }
    }
}

/// Index of the entry whose name matches case-insensitively, if any.
fn find_entry(entries: &Vec<LeaderboardEntry>, username: &Vec<u8>) -> (r: Option<usize>)
    ensures
        match r {
            Some(i) => i < entries@.len() && entry_key(lb_view(entries@)[i as int]) == lower_seq(
                username@,
            ) && (forall|j: int|
                0 <= j < i ==> entry_key(#[trigger] lb_view(entries@)[j]) != lower_seq(username@)),
            None => forall|j: int|
                0 <= j < entries@.len() ==> entry_key(#[trigger] lb_view(entries@)[j])
                    != lower_seq(username@),
        },
{
    let mut i: usize = 0;
    while i < entries.len()
        invariant
            i <= entries@.len(),
            forall|j: int|
                0 <= j < i ==> entry_key(#[trigger] lb_view(entries@)[j]) != lower_seq(username@),
        decreases entries@.len() - i,
    {
        if eq_ignore_case(&entries[i].username, username) {
            return Some(i);
        }
        i = i + 1;
    }
    None
}

/// The sort's result is descending-sorted.
pub proof fn lemma_sort_desc_sorted(l: Seq<EntryV>)
    ensures
        sorted_desc(sort_desc(l)),
        sort_desc(l).len() == l.len(),
    decreases l.len(),
{
    if l.len() == 0 {
    } else {
        lemma_sort_desc_sorted(l.drop_last());
        lemma_ins_desc_sorted(sort_desc(l.drop_last()), l.last());
    }
}

proof fn lemma_ins_desc_sorted(l: Seq<EntryV>, e: EntryV)
    requires
        sorted_desc(l),
    ensures
        sorted_desc(ins_desc(l, e)),
        ins_desc(l, e).len() == l.len() + 1,
    decreases l.len(),
{
    if l.len() == 0 {
    } else if l[0].1 >= e.1 {
        assert(sorted_desc(l.drop_first())) by {
            assert(forall|j: int| 0 <= j < l.len() - 1 ==> l.drop_first()[j] == l[j + 1]);
        }
        lemma_ins_desc_sorted(l.drop_first(), e);
        let r = ins_desc(l, e);
        let rr = ins_desc(l.drop_first(), e);
        assert forall|i: int, j: int| 0 <= i < j < r.len() implies (#[trigger] r[i]).1 >= (
        #[trigger] r[j]).1 by {
            if i == 0 {
                if j < r.len() {
                    assert(r[j] == rr[j - 1]);
                    lemma_ins_desc_members(l.drop_first(), e, j - 1);
                }
            } else {
                assert(r[i] == rr[i - 1]);
                assert(r[j] == rr[j - 1]);
            }
        }
    } else {
    }
}

/// Every entry of an insertion's result is the inserted entry or one of
/// the entries given.
proof fn lemma_ins_desc_members(l: Seq<EntryV>, e: EntryV, i: int)
    requires
        0 <= i < ins_desc(l, e).len(),
    ensures
        ins_desc(l, e)[i] == e || exists|j: int| 0 <= j < l.len() && ins_desc(l, e)[i] == l[j],
        ins_desc(l, e)[i].1 <= e.1 || (exists|j: int|
            0 <= j < l.len() && ins_desc(l, e)[i] == #[trigger] l[j]),
    decreases l.len(),
{
    if l.len() == 0 {
    } else if l[0].1 >= e.1 {
        if i == 0 {
            assert(ins_desc(l, e)[0] == l[0]);
        } else {
            lemma_ins_desc_members(l.drop_first(), e, i - 1);
            assert(ins_desc(l, e)[i] == ins_desc(l.drop_first(), e)[i - 1]);
            if ins_desc(l.drop_first(), e)[i - 1] != e {
                let j = choose|j: int|
                    0 <= j < l.drop_first().len() && ins_desc(l.drop_first(), e)[i - 1]
                        == l.drop_first()[j];
                assert(l.drop_first()[j] == l[j + 1]);
            }
        }
    } else {
        if i == 0 {
        } else {
            assert(ins_desc(l, e)[i] == l[i - 1]);
        }
    }
}


/// Number of entries whose key is `k`.
pub open spec fn key_count(l: Seq<EntryV>, k: Seq<u8>) -> nat
    decreases l.len(),
{
    if l.len() == 0 {
        0
    } else {
        key_count(l.drop_last(), k) + (if entry_key(l.last()) == k {
            1nat
        } else {
            0nat
        })
    }
}

/// Number of entries whose key is `k` and total is `t`.
pub open spec fn keyt_count(l: Seq<EntryV>, k: Seq<u8>, t: u64) -> nat
    decreases l.len(),
{
    if l.len() == 0 {
        0
    } else {
        keyt_count(l.drop_last(), k, t) + (if entry_key(l.last()) == k && l.last().1 == t {
            1nat
        } else {
            0nat
        })
    }
}

proof fn lemma_counts_concat(a: Seq<EntryV>, b: Seq<EntryV>, k: Seq<u8>, t: u64)
    ensures
        key_count(a + b, k) == key_count(a, k) + key_count(b, k),
        keyt_count(a + b, k, t) == keyt_count(a, k, t) + keyt_count(b, k, t),
    decreases b.len(),
{
    if b.len() == 0 {
        assert(a + b =~= a);
    } else {
        assert((a + b).drop_last() =~= a + b.drop_last());
        assert((a + b).last() == b.last());
        lemma_counts_concat(a, b.drop_last(), k, t);
    }
}

proof fn lemma_counts_single(e: EntryV, k: Seq<u8>, t: u64)
    ensures
        key_count(seq![e], k) == (if entry_key(e) == k {
            1nat
        } else {
            0nat
        }),
        keyt_count(seq![e], k, t) == (if entry_key(e) == k && e.1 == t {
            1nat
        } else {
            0nat
        }),
{
    assert(seq![e].drop_last() =~= Seq::<EntryV>::empty());
    assert(key_count(seq![e].drop_last(), k) == 0);
    assert(keyt_count(seq![e].drop_last(), k, t) == 0);
    assert(seq![e].last() == e);
}

proof fn lemma_ins_desc_counts(l: Seq<EntryV>, e: EntryV, k: Seq<u8>, t: u64)
    ensures
        key_count(ins_desc(l, e), k) == key_count(l, k) + (if entry_key(e) == k {
            1nat
        } else {
            0nat
        }),
        keyt_count(ins_desc(l, e), k, t) == keyt_count(l, k, t) + (if entry_key(e) == k && e.1
            == t {
            1nat
        } else {
            0nat
        }),
    decreases l.len(),
{
    if l.len() == 0 {
        lemma_counts_single(e, k, t);
    } else if l[0].1 >= e.1 {
        lemma_ins_desc_counts(l.drop_first(), e, k, t);
        lemma_counts_single(l[0], k, t);
        lemma_counts_concat(seq![l[0]], ins_desc(l.drop_first(), e), k, t);
        lemma_counts_concat(seq![l[0]], l.drop_first(), k, t);
        assert(seq![l[0]] + l.drop_first() =~= l);
    } else {
        lemma_counts_single(e, k, t);
        lemma_counts_concat(seq![e], l, k, t);
    }
}

proof fn lemma_sort_desc_counts(l: Seq<EntryV>, k: Seq<u8>, t: u64)
    ensures
        key_count(sort_desc(l), k) == key_count(l, k),
        keyt_count(sort_desc(l), k, t) == keyt_count(l, k, t),
    decreases l.len(),
{
    if l.len() > 0 {
        lemma_sort_desc_counts(l.drop_last(), k, t);
        lemma_ins_desc_counts(sort_desc(l.drop_last()), l.last(), k, t);
    }
}

proof fn lemma_keyt_le_key(l: Seq<EntryV>, k: Seq<u8>, t: u64)
    ensures
        keyt_count(l, k, t) <= key_count(l, k),
    decreases l.len(),
{
    if l.len() > 0 {
        lemma_keyt_le_key(l.drop_last(), k, t);
    }
}

proof fn lemma_key_count_index(l: Seq<EntryV>, k: Seq<u8>, i: int)
    requires
        0 <= i < l.len(),
        entry_key(l[i]) == k,
    ensures
        key_count(l, k) >= 1,
    decreases l.len(),
{
    if i == l.len() - 1 {
    } else {
        assert(l.drop_last()[i] == l[i]);
        lemma_key_count_index(l.drop_last(), k, i);
    }
}

proof fn lemma_keyt_count_index(l: Seq<EntryV>, k: Seq<u8>, t: u64, i: int)
    requires
        0 <= i < l.len(),
        entry_key(l[i]) == k,
        l[i].1 == t,
    ensures
        keyt_count(l, k, t) >= 1,
    decreases l.len(),
{
    if i == l.len() - 1 {
    } else {
        assert(l.drop_last()[i] == l[i]);
        lemma_keyt_count_index(l.drop_last(), k, t, i);
    }
}

proof fn lemma_key_count_two(l: Seq<EntryV>, k: Seq<u8>, i: int, j: int)
    requires
        0 <= i < j < l.len(),
        entry_key(l[i]) == k,
        entry_key(l[j]) == k,
    ensures
        key_count(l, k) >= 2,
    decreases l.len(),
{
    if j == l.len() - 1 {
        assert(l.drop_last()[i] == l[i]);
        lemma_key_count_index(l.drop_last(), k, i);
    } else {
        assert(l.drop_last()[i] == l[i]);
        assert(l.drop_last()[j] == l[j]);
        lemma_key_count_two(l.drop_last(), k, i, j);
    }
}

proof fn lemma_keyt_pos_exists(l: Seq<EntryV>, k: Seq<u8>, t: u64)
    requires
        keyt_count(l, k, t) >= 1,
    ensures
        exists|i: int| 0 <= i < l.len() && entry_key(#[trigger] l[i]) == k && l[i].1 == t,
    decreases l.len(),
{
    if entry_key(l.last()) == k && l.last().1 == t {
        assert(entry_key(l[l.len() - 1]) == k && l[l.len() - 1].1 == t);
    } else {
        lemma_keyt_pos_exists(l.drop_last(), k, t);
        let i = choose|i: int|
            0 <= i < l.drop_last().len() && entry_key(#[trigger] l.drop_last()[i]) == k
                && l.drop_last()[i].1 == t;
        assert(l[i] == l.drop_last()[i]);
    }
}

proof fn lemma_find_key_none_count(l: Seq<EntryV>, k: Seq<u8>)
    requires
        find_key(l, k) < 0,
    ensures
        key_count(l, k) == 0,
    decreases l.len(),
{
    if l.len() > 0 {
        assert(entry_key(l[0]) != k);
        assert(find_key(l.drop_first(), k) < 0);
        assert(forall|j: int|
            0 <= j < l.drop_first().len() ==> #[trigger] l.drop_first()[j] == l[j + 1]);
        lemma_find_key_none_count(l.drop_first(), k);
        lemma_counts_single(l[0], k, 0);
        lemma_counts_concat(seq![l[0]], l.drop_first(), k, 0);
        assert(seq![l[0]] + l.drop_first() =~= l);
    }
}

proof fn lemma_find_key_found(l: Seq<EntryV>, k: Seq<u8>)
    requires
        find_key(l, k) >= 0,
    ensures
        0 <= find_key(l, k) < l.len(),
        entry_key(l[find_key(l, k)]) == k,
        forall|j: int| 0 <= j < find_key(l, k) ==> entry_key(#[trigger] l[j]) != k,
    decreases l.len(),
{
    if l.len() > 0 && entry_key(l[0]) != k {
        lemma_find_key_found(l.drop_first(), k);
        assert(forall|j: int|
            0 <= j < l.drop_first().len() ==> #[trigger] l.drop_first()[j] == l[j + 1]);
        assert forall|j: int| 0 <= j < find_key(l, k) implies entry_key(#[trigger] l[j]) != k by {
            if j > 0 {
                assert(entry_key(l.drop_first()[j - 1]) != k);
            }
        }
    }
}

/// A descending-sorted list sorts to itself.
proof fn lemma_sort_of_sorted(l: Seq<EntryV>)
    requires
        sorted_desc(l),
    ensures
        sort_desc(l) =~= l,
    decreases l.len(),
{
    if l.len() > 0 {
        assert(sorted_desc(l.drop_last())) by {
            assert(forall|j: int|
                0 <= j < l.len() - 1 ==> #[trigger] l.drop_last()[j] == l[j]);
        }
        lemma_sort_of_sorted(l.drop_last());
        assert(forall|j: int|
            0 <= j < l.len() - 1 ==> (#[trigger] l.drop_last()[j]).1 >= l.last().1);
        lemma_ins_desc_at(l.drop_last(), l.last(), l.len() - 1);
        assert(l.drop_last().subrange(0, l.len() - 1) =~= l.drop_last());
        assert(l.drop_last().subrange(l.len() - 1, l.len() - 1) =~= Seq::<EntryV>::empty());
    }
}

/// The stored list never holds two entries with one key.
pub open spec fn unique_keys(l: Seq<EntryV>) -> bool {
    forall|i: int, j: int|
        0 <= i < j < l.len() ==> entry_key(#[trigger] l[i]) != entry_key(#[trigger] l[j])
}

/// Submitting the same trimmed name and total twice yields the same list
/// as submitting it once, for any stored list whose names are unique.
pub proof fn lemma_lb_update_idempotent(l: Seq<EntryV>, name: Seq<u8>, t: u64)
    requires
        trim_seq(name) == name,
        unique_keys(l),
    ensures
        lb_update(lb_update(l, name, t), name, t) == lb_update(l, name, t),
{
    let k = lower_seq(name);
    let u1 = upsert(l, name, t);
    let s1 = sort_desc(u1);
    let r1 = lb_update(l, name, t);
    lemma_sort_desc_sorted(u1);

    // the upserted list holds exactly one entry with this key, valued t
    assert(key_count(u1, k) == 1 && keyt_count(u1, k, t) == 1) by {
        let i = find_key(l, k);
        if i >= 0 {
            lemma_find_key_found(l, k);
            assert(u1 =~= l.subrange(0, i) + seq![(l[i].0, t)] + l.subrange(i + 1, l.len() as int));
            assert(l =~= l.subrange(0, i) + seq![l[i]] + l.subrange(i + 1, l.len() as int));
            lemma_counts_concat(l.subrange(0, i) + seq![(l[i].0, t)], l.subrange(i + 1, l.len() as int), k, t);
            lemma_counts_concat(l.subrange(0, i), seq![(l[i].0, t)], k, t);
            lemma_counts_concat(l.subrange(0, i) + seq![l[i]], l.subrange(i + 1, l.len() as int), k, t);
            lemma_counts_concat(l.subrange(0, i), seq![l[i]], k, t);
            lemma_counts_single((l[i].0, t), k, t);
            lemma_counts_single(l[i], k, t);
            assert(entry_key((l[i].0, t)) == k);
            // no other entry carries the key
            assert(key_count(l.subrange(0, i), k) == 0) by {
                if key_count(l.subrange(0, i), k) >= 1 {
                    lemma_key_pos_exists(l.subrange(0, i), k);
                    let w = choose|w: int|
                        0 <= w < l.subrange(0, i).len() && entry_key(
                            #[trigger] l.subrange(0, i)[w],
                        ) == k;
                    assert(l.subrange(0, i)[w] == l[w]);
                    assert(entry_key(l[w]) != entry_key(l[i]));
                }
            }
            assert(key_count(l.subrange(i + 1, l.len() as int), k) == 0) by {
                if key_count(l.subrange(i + 1, l.len() as int), k) >= 1 {
                    lemma_key_pos_exists(l.subrange(i + 1, l.len() as int), k);
                    let w = choose|w: int|
                        0 <= w < l.subrange(i + 1, l.len() as int).len() && entry_key(
                            #[trigger] l.subrange(i + 1, l.len() as int)[w],
                        ) == k;
                    assert(l.subrange(i + 1, l.len() as int)[w] == l[i + 1 + w]);
                    assert(entry_key(l[i]) != entry_key(l[i + 1 + w]));
                }
            }
            lemma_keyt_le_key(l.subrange(0, i), k, t);
            lemma_keyt_le_key(l.subrange(i + 1, l.len() as int), k, t);
        } else {
            lemma_find_key_none_count(l, k);
            assert(u1 =~= l + seq![(trim_seq(name), t)]);
            lemma_counts_concat(l, seq![(trim_seq(name), t)], k, t);
            lemma_counts_single((trim_seq(name), t), k, t);
            assert(entry_key((trim_seq(name), t)) == k);
            lemma_keyt_le_key(l, k, t);
        }
    }
    lemma_sort_desc_counts(u1, k, t);
    assert(key_count(s1, k) == 1 && keyt_count(s1, k, t) == 1);

    if s1.len() <= 25 {
        assert(r1 == s1);
    } else {
        assert(r1 == s1.subrange(0, 25));
    }
    let rest = if s1.len() <= 25 {
        Seq::<EntryV>::empty()
    } else {
        s1.subrange(25, s1.len() as int)
    };
    assert(s1 =~= r1 + rest);
    lemma_counts_concat(r1, rest, k, t);
    lemma_keyt_le_key(r1, k, t);
    lemma_keyt_le_key(rest, k, t);

    let u2 = upsert(r1, name, t);
    let i2 = find_key(r1, k);
    if keyt_count(r1, k, t) >= 1 {
        // the entry survived the cap: the second upsert rewrites it in place
        lemma_keyt_pos_exists(r1, k, t);
        let w = choose|w: int|
            0 <= w < r1.len() && entry_key(#[trigger] r1[w]) == k && r1[w].1 == t;
        lemma_key_count_index(r1, k, w);
        assert(i2 >= 0) by {
            if i2 < 0 {
                lemma_find_key_none_count(r1, k);
            }
        }
        lemma_find_key_found(r1, k);
        assert(i2 == w) by {
            if i2 < w {
                lemma_key_count_two(r1, k, i2, w);
            }
            if i2 > w {
                assert(entry_key(r1[w]) != k);
            }
        }
        assert(u2 =~= r1) by {
            assert((r1[i2].0, t) == r1[i2]);
        }
        lemma_sort_of_sorted(r1);
        assert(lb_update(r1, name, t) == r1);
    } else {
        // the entry was cut: it re-enters at the very end and is cut again
        assert(keyt_count(rest, k, t) == 1);
        assert(rest.len() >= 1) by {
            if rest.len() == 0 {
                assert(keyt_count(rest, k, t) == 0);
            }
        }
        assert(s1.len() > 25);
        assert(key_count(r1, k) == 0) by {
            lemma_keyt_pos_exists(rest, k, t);
            let w = choose|w: int|
                0 <= w < rest.len() && entry_key(#[trigger] rest[w]) == k && rest[w].1 == t;
            if key_count(r1, k) >= 1 {
                lemma_key_pos_exists(r1, k);
                let v = choose|v: int| 0 <= v < r1.len() && entry_key(#[trigger] r1[v]) == k;
                lemma_key_count_index(r1, k, v);
                lemma_key_count_index(rest, k, w);
                assert(key_count(s1, k) >= 2) by {
                    lemma_counts_concat(r1, rest, k, t);
                }
                assert(false);
            }
        }
        assert(i2 < 0) by {
            if i2 >= 0 {
                lemma_find_key_found(r1, k);
                lemma_key_count_index(r1, k, i2);
            }
        }
        assert(u2 =~= r1.push((name, t)));
        // every retained entry's total reaches t
        lemma_keyt_pos_exists(rest, k, t);
        let w = choose|w: int|
            0 <= w < rest.len() && entry_key(#[trigger] rest[w]) == k && rest[w].1 == t;
        assert(forall|j: int| 0 <= j < 25 ==> (#[trigger] r1[j]).1 >= t) by {
            assert(forall|j: int| 0 <= j < 25 ==> r1[j] == s1[j]);
            assert(rest[w] == s1[25 + w]);
            assert(forall|j: int| 0 <= j < 25 ==> (#[trigger] s1[j]).1 >= s1[25 + w].1);
        }
        assert(sort_desc(u2) =~= r1 + seq![(name, t)]) by {
            assert(u2.drop_last() =~= r1);
            assert(u2.last() == (name, t));
            lemma_sort_of_sorted(r1);
            lemma_ins_desc_at(r1, (name, t), r1.len() as int);
            assert(r1.subrange(0, r1.len() as int) =~= r1);
            assert(r1.subrange(r1.len() as int, r1.len() as int) =~= Seq::<EntryV>::empty());
        }
        assert(lb_update(r1, name, t) =~= r1) by {
            assert((r1 + seq![(name, t)]).len() == 26);
            assert((r1 + seq![(name, t)]).subrange(0, 25) =~= r1);
        }
    }
}

proof fn lemma_key_pos_exists(l: Seq<EntryV>, k: Seq<u8>)
    requires
        key_count(l, k) >= 1,
    ensures
        exists|i: int| 0 <= i < l.len() && entry_key(#[trigger] l[i]) == k,
    decreases l.len(),
{
    if entry_key(l.last()) == k {
        assert(entry_key(l[l.len() - 1]) == k);
    } else {
        lemma_key_pos_exists(l.drop_last(), k);
        let i = choose|i: int|
            0 <= i < l.drop_last().len() && entry_key(#[trigger] l.drop_last()[i]) == k;
        assert(l[i] == l.drop_last()[i]);
    }
}


/// Brings a loaded list into the stored shape: sorted descending by
/// total and capped at 25, as the service does when it loads its file.
pub fn normalize_entries(entries: &mut Vec<LeaderboardEntry>)
    ensures
        lb_view(final(entries)@) == take_at_most(sort_desc(lb_view(old(entries)@)), 25),
        sorted_desc(lb_view(final(entries)@)),
        final(entries)@.len() <= 25,
{
    let ghost l0 = lb_view(entries@);
    sort_entries(entries);
    let ghost mid = entries@;
    proof {
        lemma_sort_desc_sorted(l0);
    }
    entries.truncate(25);
    proof {
        let sorted_all = sort_desc(l0);
        assert(lb_view(mid) == sorted_all);
        assert(lb_view(entries@) =~= take_at_most(sorted_all, 25)) by {
            assert(forall|j: int|
                0 <= j < entries@.len() ==> lb_view(entries@)[j] == entry_view(
                    #[trigger] entries@[j],
                ));
            assert(forall|j: int|
                0 <= j < mid.len() ==> lb_view(mid)[j] == entry_view(#[trigger] mid[j]));
        }
        assert(sorted_desc(lb_view(entries@))) by {
            let t = take_at_most(sorted_all, 25);
            assert(forall|j: int| 0 <= j < t.len() ==> t[j] == sorted_all[j]);
        }
    }
}

/// The service's submission rule: a name that trims to nothing is
/// rejected; anything else is accepted. (Totals are whole minutes here
/// and cannot be negative.)
pub fn accept_submission(username: &Vec<u8>) -> (r: bool)
    ensures
        r == (trim_seq(username@).len() != 0),
{
    let t = trim(username);
    t.len() != 0
}

/// The hardcoded fallback endpoint, `https://playtracker.al1e.dev`.
pub open spec fn fallback_endpoint_bytes() -> Seq<u8> {
    seq![
        'h' as u8, 't' as u8, 't' as u8, 'p' as u8, 's' as u8, ':' as u8, '/' as u8, '/' as u8,
        'p' as u8, 'l' as u8, 'a' as u8, 'y' as u8, 't' as u8, 'r' as u8, 'a' as u8, 'c' as u8,
        'k' as u8, 'e' as u8, 'r' as u8, '.' as u8, 'a' as u8, 'l' as u8, '1' as u8, 'e' as u8,
        '.' as u8, 'd' as u8, 'e' as u8, 'v' as u8,
    ]
}

/// The override word `default`.
pub open spec fn word_default() -> Seq<u8> {
    seq!['d' as u8, 'e' as u8, 'f' as u8, 'a' as u8, 'u' as u8, 'l' as u8, 't' as u8]
}

/// The override word `builtin`.
pub open spec fn word_builtin() -> Seq<u8> {
    seq!['b' as u8, 'u' as u8, 'i' as u8, 'l' as u8, 't' as u8, 'i' as u8, 'n' as u8]
}

/// The override word `local`.
pub open spec fn word_local() -> Seq<u8> {
    seq!['l' as u8, 'o' as u8, 'c' as u8, 'a' as u8, 'l' as u8]
}

/// Bytes of the local leaderboard file's name.
pub open spec fn lb_file_name() -> Seq<u8> {
    seq![
        'l' as u8, 'e' as u8, 'a' as u8, 'd' as u8, 'e' as u8, 'r' as u8, 'b' as u8, 'o' as u8,
        'a' as u8, 'r' as u8, 'd' as u8, '.' as u8, 'j' as u8, 's' as u8, 'o' as u8, 'n' as u8,
    ]
}

/// The local leaderboard file under a data directory.
pub open spec fn lb_store_path(data_dir: Seq<u8>) -> Seq<u8> {
    data_dir + seq![47u8] + lb_file_name()
}

fn word_default_vec() -> (r: Vec<u8>)
    ensures
        r@ == word_default(),
{
    let mut v: Vec<u8> = Vec::new();
    v.push('d' as u8);
    v.push('e' as u8);
    v.push('f' as u8);
    v.push('a' as u8);
    v.push('u' as u8);
    v.push('l' as u8);
    v.push('t' as u8);
    proof {
        assert(v@ =~= word_default());
    }
    v
}

fn word_builtin_vec() -> (r: Vec<u8>)
    ensures
        r@ == word_builtin(),
{
    let mut v: Vec<u8> = Vec::new();
    v.push('b' as u8);
    v.push('u' as u8);
    v.push('i' as u8);
    v.push('l' as u8);
    v.push('t' as u8);
    v.push('i' as u8);
    v.push('n' as u8);
    proof {
        assert(v@ =~= word_builtin());
    }
    v
}

fn word_local_vec() -> (r: Vec<u8>)
    ensures
        r@ == word_local(),
{
    let mut v: Vec<u8> = Vec::new();
    v.push('l' as u8);
    v.push('o' as u8);
    v.push('c' as u8);
    v.push('a' as u8);
    v.push('l' as u8);
    proof {
        assert(v@ =~= word_local());
    }
    v
}

/// The endpoint's usable form: trimmed, and absent when blank.
pub fn normalize_endpoint(value: &Vec<u8>) -> (r: Option<Vec<u8>>)
    ensures
        match r {
            Some(v) => v@ == trim_seq(value@) && v@.len() > 0,
            None => trim_seq(value@).len() == 0,
        },
{
    let t = trim(value);
    if t.len() == 0 {
        None
    } else {
        Some(t)
    }
}

/// The endpoint baked into the build; this build bakes none in.
pub fn baked_in_default_endpoint() -> (r: Option<Vec<u8>>)
    ensures
        r is None,
{
    None
}

/// The hardcoded last-resort endpoint.
pub fn fallback_global_endpoint() -> (r: Option<Vec<u8>>)
    ensures
        r matches Some(v) && v@ == fallback_endpoint_bytes(),
{
    let mut v: Vec<u8> = Vec::new();
    v.push('h' as u8);
    v.push('t' as u8);
    v.push('t' as u8);
    v.push('p' as u8);
    v.push('s' as u8);
    v.push(':' as u8);
    v.push('/' as u8);
    v.push('/' as u8);
    v.push('p' as u8);
    v.push('l' as u8);
    v.push('a' as u8);
    v.push('y' as u8);
    v.push('t' as u8);
    v.push('r' as u8);
    v.push('a' as u8);
    v.push('c' as u8);
    v.push('k' as u8);
    v.push('e' as u8);
    v.push('r' as u8);
    v.push('.' as u8);
    v.push('a' as u8);
    v.push('l' as u8);
    v.push('1' as u8);
    v.push('e' as u8);
    v.push('.' as u8);
    v.push('d' as u8);
    v.push('e' as u8);
    v.push('v' as u8);
    proof {
        assert(v@ =~= fallback_endpoint_bytes());
    }
    Some(v)
}

/// The remote endpoint a supplied runtime value resolves to.
pub open spec fn global_endpoint_of(runtime: Option<Seq<u8>>) -> Seq<u8> {
    match runtime {
        Some(rv) => if trim_seq(rv).len() > 0 {
            trim_seq(rv)
        } else {
            fallback_endpoint_bytes()
        },
        None => fallback_endpoint_bytes(),
    }
}

/// The globally shared remote endpoint: the baked-in default, else the
/// supplied runtime value, else the hardcoded fallback.
pub fn global_remote_endpoint(runtime: Option<&Vec<u8>>) -> (r: Option<Vec<u8>>)
    ensures
        r matches Some(v) && v@ == global_endpoint_of(match runtime {
            Some(rv) => Some(rv@),
            None => None,
        }),
{
    match baked_in_default_endpoint() {
        Some(v) => Some(v),
        None => {
            match runtime {
                Some(rv) => {
                    match normalize_endpoint(rv) {
                        Some(v) => Some(v),
                        None => fallback_global_endpoint(),
                    }
                },
                None => fallback_global_endpoint(),
            }
        },
    }
}

/// Where submissions and queries go: a remote endpoint (with an optional
/// secondary), or a local file.
pub enum LeaderboardClient {
    Remote { endpoint: Vec<u8>, secondary: Option<Vec<u8>> },
    Local { path: Vec<u8> },
}

impl LeaderboardClient {
    /// Resolves the client from the configuration: an override of
    /// `default`/`builtin` selects the shared remote endpoint, `local`
    /// the local file, any other non-blank override a custom endpoint
    /// (with the shared one as secondary when they differ); without an
    /// override the shared remote endpoint is used.
    pub fn auto(
        data_dir: &Vec<u8>,
        override_endpoint: Option<&Vec<u8>>,
        runtime_endpoint: Option<&Vec<u8>>,
    ) -> (r: LeaderboardClient)
        ensures
            ({
                let g = global_endpoint_of(
                    match runtime_endpoint {
                        Some(rv) => Some(rv@),
                        None => None,
                    },
                );
                match override_endpoint {
                    Some(raw) => {
                        let t = trim_seq(raw@);
                        if lower_seq(t) == word_default() || lower_seq(t) == word_builtin() {
                            r matches LeaderboardClient::Remote { endpoint, secondary }
                                && endpoint@ == g && secondary is None
                        } else if lower_seq(t) == word_local() {
                            r matches LeaderboardClient::Local { path } && path@ == lb_store_path(
                                data_dir@,
                            )
                        } else if t.len() > 0 {
                            r matches LeaderboardClient::Remote { endpoint, secondary }
                                && endpoint@ == t && (if lower_seq(g) == lower_seq(t) {
                                secondary is None
                            } else {
                                secondary matches Some(s2) && s2@ == g
                            })
                        } else {
                            r matches LeaderboardClient::Remote { endpoint, secondary }
                                && endpoint@ == g && secondary is None
                        }
                    },
                    None => r matches LeaderboardClient::Remote { endpoint, secondary }
                        && endpoint@ == g && secondary is None,
                }
            }),
    {
        match override_endpoint {
            Some(raw) => {
                let trimmed = trim(raw);
                let dflt = word_default_vec();
                let bltn = word_builtin_vec();
                let lcl = word_local_vec();
                proof {
                    lemma_lower_of_lower_word(word_default());
                    lemma_lower_of_lower_word(word_builtin());
                    lemma_lower_of_lower_word(word_local());
                }
                if eq_ignore_case(&trimmed, &dflt) || eq_ignore_case(&trimmed, &bltn) {
                    let endpoint = match global_remote_endpoint(runtime_endpoint) {
                        Some(v) => v,
                        None => fallback_global_endpoint().unwrap(),
                    };
                    LeaderboardClient::Remote { endpoint, secondary: None }
                } else if eq_ignore_case(&trimmed, &lcl) {
                    let mut path = data_dir.clone();
                    path.push(47);
                    path.push('l' as u8);
                    path.push('e' as u8);
                    path.push('a' as u8);
                    path.push('d' as u8);
                    path.push('e' as u8);
                    path.push('r' as u8);
                    path.push('b' as u8);
                    path.push('o' as u8);
                    path.push('a' as u8);
                    path.push('r' as u8);
                    path.push('d' as u8);
                    path.push('.' as u8);
                    path.push('j' as u8);
                    path.push('s' as u8);
                    path.push('o' as u8);
                    path.push('n' as u8);
                    proof {
                        assert(path@ =~= lb_store_path(data_dir@));
                    }
                    LeaderboardClient::Local { path }
                } else if trimmed.len() > 0 {
                    let g = match global_remote_endpoint(runtime_endpoint) {
                        Some(v) => v,
                        None => fallback_global_endpoint().unwrap(),
                    };
                    let secondary = if eq_ignore_case(&g, &trimmed) {
                        None
                    } else {
                        Some(g)
                    };
                    LeaderboardClient::Remote { endpoint: trimmed, secondary }
                } else {
                    let endpoint = match global_remote_endpoint(runtime_endpoint) {
                        Some(v) => v,
                        None => fallback_global_endpoint().unwrap(),
                    };
                    LeaderboardClient::Remote { endpoint, secondary: None }
                }
            },
            None => {
                let endpoint = match global_remote_endpoint(runtime_endpoint) {
                    Some(v) => v,
                    None => fallback_global_endpoint().unwrap(),
                };
                LeaderboardClient::Remote { endpoint, secondary: None }
            },
        }
    }
}

/// Lower-casing a word that is already lower-case changes nothing.
proof fn lemma_lower_of_lower_word(w: Seq<u8>)
    requires
        forall|i: int| 0 <= i < w.len() ==> !(65 <= #[trigger] w[i] <= 90),
    ensures
        lower_seq(w) =~= w,
{
}

/// `base`, a single separator, and `segment`.
pub open spec fn joined_endpoint(base: Seq<u8>, segment: Seq<u8>) -> Seq<u8> {
    if base.len() > 0 && base.last() == 47 {
        base + segment
    } else {
        base + seq![47u8] + segment
    }
}

/// Appends a path segment to an endpoint, inserting a separator when one
/// is missing.
pub fn join_endpoint(base: &Vec<u8>, segment: &Vec<u8>) -> (r: Vec<u8>)
    ensures
        r@ == joined_endpoint(base@, segment@),
{
    let mut r = base.clone();
    if !(r.len() > 0 && r[r.len() - 1] == 47) {
        r.push(47);
    }
    push_all(&mut r, segment);
    proof {
        assert(r@ =~= joined_endpoint(base@, segment@));
    }
    r
}


/// Number of leading entries whose total reaches `t`.
pub open spec fn lt_pos(l: Seq<EntryV>, t: u64) -> int
    decreases l.len(),
{
    if l.len() == 0 {
        0
    } else if l[0].1 >= t {
        1 + lt_pos(l.drop_first(), t)
    } else {
        0
    }
}

proof fn lemma_lt_pos(l: Seq<EntryV>, t: u64)
    requires
        sorted_desc(l),
    ensures
        0 <= lt_pos(l, t) <= l.len(),
        forall|j: int| 0 <= j < lt_pos(l, t) ==> (#[trigger] l[j]).1 >= t,
        lt_pos(l, t) == l.len() || l[lt_pos(l, t)].1 < t,
    decreases l.len(),
{
    if l.len() > 0 && l[0].1 >= t {
        assert(sorted_desc(l.drop_first())) by {
            assert(forall|j: int|
                0 <= j < l.len() - 1 ==> #[trigger] l.drop_first()[j] == l[j + 1]);
        }
        lemma_lt_pos(l.drop_first(), t);
        let p = lt_pos(l, t);
        assert forall|j: int| 0 <= j < p implies (#[trigger] l[j]).1 >= t by {
            if j > 0 {
                assert(l.drop_first()[j - 1] == l[j]);
                assert(l.drop_first()[j - 1].1 >= t);
            }
        }
        if p < l.len() {
            assert(l.drop_first()[p - 1] == l[p]);
        }
    }
}

/// Inserting into the capped prefix of a sorted list and capping again
/// gives the same as inserting into the whole list and capping.
proof fn lemma_take25_ins(l: Seq<EntryV>, e: EntryV)
    requires
        sorted_desc(l),
    ensures
        take_at_most(ins_desc(take_at_most(l, 25), e), 25) =~= take_at_most(ins_desc(l, e), 25),
{
    let k = take_at_most(l, 25);
    if l.len() <= 25 {
        assert(k =~= l);
    } else {
        assert(k.len() == 25);
        assert(forall|j: int| 0 <= j < 25 ==> #[trigger] k[j] == l[j]);
        assert(sorted_desc(k));
        let p = lt_pos(l, e.1);
        lemma_lt_pos(l, e.1);
        lemma_ins_desc_at(l, e, p);
        let pk = if p <= 25 {
            p
        } else {
            25int
        };
        assert forall|j: int| 0 <= j < pk implies (#[trigger] k[j]).1 >= e.1 by {
            assert(k[j] == l[j]);
        }
        if pk < 25 {
            assert(k[pk] == l[pk]);
        }
        lemma_ins_desc_at(k, e, pk);
        let lhs = ins_desc(k, e);
        let rhs = ins_desc(l, e);
        assert(lhs.len() == 26);
        assert(rhs.len() == l.len() + 1);
        assert forall|i: int| 0 <= i < 25 implies lhs[i] == rhs[i] by {
            if i < pk {
                assert(lhs[i] == k[i]);
                assert(rhs[i] == l[i]);
            } else if i == pk && pk == p {
                assert(lhs[i] == e);
                assert(rhs[i] == e);
            } else if p >= 25 {
                assert(lhs[i] == k[i]);
                assert(rhs[i] == l[i]);
            } else {
                assert(lhs[i] == k[i - 1]);
                assert(rhs[i] == l[i - 1]);
            }
        }
    }
}

/// The stored list an empty start reaches after a run of submissions,
/// each applied with `lb_update`.
pub open spec fn lb_fold(subs: Seq<EntryV>) -> Seq<EntryV>
    decreases subs.len(),
{
    if subs.len() == 0 {
        Seq::empty()
    } else {
        lb_update(lb_fold(subs.drop_last()), subs.last().0, subs.last().1)
    }
}

/// Any run of submissions with case-insensitively distinct, trimmed
/// names, starting from an empty list, retains exactly the submissions
/// with the highest totals, descending and capped at 25.
pub proof fn lemma_fold_keeps_top(subs: Seq<EntryV>)
    requires
        forall|i: int| 0 <= i < subs.len() ==> trim_seq((#[trigger] subs[i]).0) == subs[i].0,
        forall|i: int, j: int|
            0 <= i < j < subs.len() ==> entry_key(#[trigger] subs[i]) != entry_key(
                #[trigger] subs[j],
            ),
    ensures
        lb_fold(subs) =~= take_at_most(sort_desc(subs), 25),
    decreases subs.len(),
{
    if subs.len() == 0 {
    } else {
        let pre = subs.drop_last();
        let e = subs.last();
        assert(forall|i: int| 0 <= i < pre.len() ==> #[trigger] pre[i] == subs[i]);
        lemma_fold_keeps_top(pre);
        let l = sort_desc(pre);
        lemma_sort_desc_sorted(pre);
        let k = take_at_most(l, 25);
        assert(sorted_desc(k)) by {
            assert(forall|j: int| 0 <= j < k.len() ==> #[trigger] k[j] == l[j]);
        }
        let key = entry_key(e);
        assert(find_key(k, key) < 0) by {
            if find_key(k, key) >= 0 {
                lemma_find_key_found(k, key);
                lemma_key_count_index(k, key, find_key(k, key));
                let rest = if l.len() <= 25 {
                    Seq::<EntryV>::empty()
                } else {
                    l.subrange(25, l.len() as int)
                };
                assert(l =~= k + rest);
                lemma_counts_concat(k, rest, key, e.1);
                lemma_sort_desc_counts(pre, key, e.1);
                assert(key_count(pre, key) >= 1);
                lemma_key_pos_exists(pre, key);
                let w = choose|w: int|
                    0 <= w < pre.len() && entry_key(#[trigger] pre[w]) == key;
                assert(entry_key(subs[w]) == entry_key(subs[subs.len() - 1]));
                assert(false);
            }
        }
        assert((trim_seq(e.0), e.1) == e);
        assert(upsert(k, e.0, e.1) == k.push(e));
        assert(k.push(e).drop_last() =~= k);
        assert(k.push(e).last() == e);
        lemma_sort_of_sorted(k);
        assert(sort_desc(k.push(e)) == ins_desc(k, e));
        lemma_take25_ins(l, e);
        assert(sort_desc(subs) == ins_desc(l, e)) by {
            assert(subs.drop_last() =~= pre);
            assert(subs.last() == e);
        }
        assert(lb_fold(subs) == take_at_most(ins_desc(k, e), 25));
    }
}

} // verus!
