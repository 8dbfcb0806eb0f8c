//! Pure aggregation over the ordered session history.
//!
//! The caller supplies, for each session, the local calendar day of its
//! start (day numbers as in `crate::calendar`) and the current day;
//! everything else is computed and pinned down here. All quantities are
//! whole seconds.

use vstd::prelude::*;

use crate::calendar::{iso_week_of, iso_week_of_day};
use crate::codec::session_tuple;
use crate::session::Session;

verus! {

/// History ordered by start time, ascending.
pub open spec fn sessions_sorted(l: Seq<Session>) -> bool {
    forall|i: int, j: int|
        0 <= i < j < l.len() ==> (#[trigger] l[i]).start <= (#[trigger] l[j]).start
}

/// Total seconds across the whole history.
pub open spec fn sum_secs(l: Seq<Session>) -> int
    decreases l.len(),
{
    if l.len() == 0 {
        0
    } else {
        sum_secs(l.drop_last()) + l.last().duration_seconds
    }
}

/// Total seconds of the sessions whose day is on or after `cutoff`.
pub open spec fn sum_secs_from_day(l: Seq<Session>, days: Seq<i64>, cutoff: int) -> int
    decreases l.len(),
{
    if l.len() == 0 || days.len() != l.len() {
        0
    } else {
        sum_secs_from_day(l.drop_last(), days.drop_last(), cutoff) + (if days.last() >= cutoff {
            l.last().duration_seconds as int
        } else {
            0
        })
    }
}

pub proof fn lemma_sum_secs_nonneg(l: Seq<Session>)
    ensures
        sum_secs(l) >= 0,
    decreases l.len(),
{
    if l.len() > 0 {
        lemma_sum_secs_nonneg(l.drop_last());
    }
}

proof fn lemma_sum_secs_prefix(l: Seq<Session>, i: int)
    requires
        0 <= i <= l.len(),
    ensures
        sum_secs(l.subrange(0, i)) <= sum_secs(l),
        sum_secs(l.subrange(0, i)) >= 0,
    decreases l.len() - i,
{
    lemma_sum_secs_nonneg(l.subrange(0, i));
    if i == l.len() {
        assert(l.subrange(0, i) =~= l);
    } else {
        lemma_sum_secs_prefix(l, i + 1);
        assert(l.subrange(0, i + 1).drop_last() =~= l.subrange(0, i));
        assert(sum_secs(l.subrange(0, i + 1)) == sum_secs(l.subrange(0, i)) + l[i].duration_seconds);
    }
}

proof fn lemma_sum_from_day_le(l: Seq<Session>, days: Seq<i64>, cutoff: int)
    requires
        days.len() == l.len(),
    ensures
        0 <= sum_secs_from_day(l, days, cutoff) <= sum_secs(l),
    decreases l.len(),
{
    if l.len() > 0 {
        lemma_sum_from_day_le(l.drop_last(), days.drop_last(), cutoff);
    }
}

/// Ascending, stable insertion of `v`: after every value at most `v`.
pub open spec fn ins_asc(l: Seq<u64>, v: u64) -> Seq<u64>
    decreases l.len(),
{
    if l.len() == 0 {
        seq![v]
    } else if l[0] <= v {
        seq![l[0]] + ins_asc(l.drop_first(), v)
    } else {
        seq![v] + l
    }
}

/// Stable insertion sort, ascending.
pub open spec fn sort_asc(l: Seq<u64>) -> Seq<u64>
    decreases l.len(),
{
    if l.len() == 0 {
        l
    } else {
        ins_asc(sort_asc(l.drop_last()), l.last())
    }
}

pub open spec fn durations_of(l: Seq<Session>) -> Seq<u64> {
    l.map_values(|s: Session| s.duration_seconds)
}

/// The median session length in seconds: the middle duration, or the
/// mean of the two middle durations when the count is even; zero for an
/// empty history.
pub open spec fn median_secs(durs: Seq<u64>) -> int {
    if durs.len() == 0 {
        0
    } else {
        let sd = sort_asc(durs);
        let m = durs.len() as int / 2;
        if durs.len() % 2 == 1 {
            sd[m] as int
        } else {
            (sd[m - 1] + sd[m]) / 2
        }
    }
}

proof fn lemma_ins_asc_at(l: Seq<u64>, v: u64, p: int)
    requires
        0 <= p <= l.len(),
        forall|j: int| 0 <= j < p ==> #[trigger] l[j] <= v,
        p == l.len() || l[p] > v,
    ensures
        ins_asc(l, v) =~= l.subrange(0, p) + seq![v] + l.subrange(p, l.len() as int),
    decreases l.len(),
{
    if l.len() == 0 {
    } else if p == 0 {
        assert(l.subrange(0, l.len() as int) =~= l);
    } else {
        assert(forall|j: int| 0 <= j < p - 1 ==> #[trigger] l.drop_first()[j] <= v) by {
            assert(forall|j: int| 0 <= j < p - 1 ==> l.drop_first()[j] == l[j + 1]);
        }
        if p < l.len() {
            assert(l.drop_first()[p - 1] == l[p]);
        }
        lemma_ins_asc_at(l.drop_first(), v, p - 1);
        assert(l.drop_first().subrange(0, p - 1) =~= l.subrange(1, p));
        assert(l.drop_first().subrange(p - 1, l.drop_first().len() as int) =~= l.subrange(
            p,
            l.len() as int,
        ));
    }
}

fn insert_duration(sorted: &mut Vec<u64>, v: u64)
    ensures
        final(sorted)@ == ins_asc(old(sorted)@, v),
{
    let mut p: usize = 0;
    while p < sorted.len() && sorted[p] <= v
        invariant
            p <= sorted@.len(),
            forall|j: int| 0 <= j < p ==> #[trigger] sorted@[j] <= v,
        decreases sorted@.len() - p,
    {
        p = p + 1;
    }
    let ghost before = sorted@;
    let ghost pp = p as int;
    sorted.insert(p, v);
    proof {
        lemma_ins_asc_at(before, v, pp);
    }
}

/// The history's durations, sorted ascending.
fn sorted_durations(sessions: &Vec<Session>) -> (r: Vec<u64>)
    ensures
        r@ == sort_asc(durations_of(sessions@)),
{
    let mut r: Vec<u64> = Vec::new();
    let mut i: usize = 0;
    proof {
        assert(durations_of(sessions@.subrange(0, 0)) =~= Seq::<u64>::empty());
        assert(sort_asc(durations_of(sessions@.subrange(0, 0))) =~= Seq::<u64>::empty());
    }
    while i < sessions.len()
        invariant
            i <= sessions@.len(),
            r@ == sort_asc(durations_of(sessions@.subrange(0, i as int))),
        decreases sessions@.len() - i,
    {
        let ghost prefix = durations_of(sessions@.subrange(0, i as int));
        insert_duration(&mut r, sessions[i].duration_seconds);
        i = i + 1;
        proof {
            let prefix1 = durations_of(sessions@.subrange(0, i as int));
            assert(prefix1.drop_last() =~= prefix) by {
                assert(forall|j: int|
                    0 <= j < i - 1 ==> prefix1[j] == (#[trigger] sessions@.subrange(
                        0,
                        i as int,
                    )[j]).duration_seconds);
                assert(forall|j: int|
                    0 <= j < i - 1 ==> prefix[j] == (#[trigger] sessions@.subrange(
                        0,
                        i - 1,
                    )[j]).duration_seconds);
            }
            assert(prefix1.last() == sessions@[i - 1].duration_seconds);
            assert(sort_asc(prefix1) == ins_asc(sort_asc(prefix), sessions@[i - 1].duration_seconds));
        }
    }
    proof {
        assert(sessions@.subrange(0, sessions@.len() as int) =~= sessions@);
    }
    r
}

proof fn lemma_sort_asc_len(l: Seq<u64>)
    ensures
        sort_asc(l).len() == l.len(),
    decreases l.len(),
{
    if l.len() > 0 {
        lemma_sort_asc_len(l.drop_last());
        lemma_ins_asc_len(sort_asc(l.drop_last()), l.last());
    }
}

proof fn lemma_ins_asc_len(l: Seq<u64>, v: u64)
    ensures
        ins_asc(l, v).len() == l.len() + 1,
    decreases l.len(),
{
    if l.len() > 0 && l[0] <= v {
        lemma_ins_asc_len(l.drop_first(), v);
    }
}

/// Total seconds over the history.
fn total_seconds_of(sessions: &Vec<Session>) -> (r: u64)
    requires
        sum_secs(sessions@) <= u64::MAX,
    ensures
        r == sum_secs(sessions@),
{
    let mut acc: u64 = 0;
    let mut i: usize = 0;
    proof {
        assert(sum_secs(sessions@.subrange(0, 0)) == 0);
    }
    while i < sessions.len()
        invariant
            i <= sessions@.len(),
            sum_secs(sessions@) <= u64::MAX,
            acc == sum_secs(sessions@.subrange(0, i as int)),
        decreases sessions@.len() - i,
    {
        proof {
            assert(sessions@.subrange(0, i + 1).drop_last() =~= sessions@.subrange(0, i as int));
            assert(sum_secs(sessions@.subrange(0, i + 1)) == acc + sessions@[i as int].duration_seconds);
            lemma_sum_secs_prefix(sessions@, i + 1);
        }
        acc = acc + sessions[i].duration_seconds;
        i = i + 1;
    }
    proof {
        assert(sessions@.subrange(0, sessions@.len() as int) =~= sessions@);
    }
    acc
}

/// Total seconds of the sessions whose local day is on or after `cutoff`.
fn seconds_from_day(sessions: &Vec<Session>, days: &Vec<i64>, cutoff: i64) -> (r: u64)
    requires
        days@.len() == sessions@.len(),
        sum_secs(sessions@) <= u64::MAX,
    ensures
        r == sum_secs_from_day(sessions@, days@, cutoff as int),
{
    let mut acc: u64 = 0;
    let mut i: usize = 0;
    proof {
        assert(sum_secs_from_day(sessions@.subrange(0, 0), days@.subrange(0, 0), cutoff as int)
            == 0);
    }
    while i < sessions.len()
        invariant
            i <= sessions@.len(),
            days@.len() == sessions@.len(),
            sum_secs(sessions@) <= u64::MAX,
            acc == sum_secs_from_day(
                sessions@.subrange(0, i as int),
                days@.subrange(0, i as int),
                cutoff as int,
            ),
        decreases sessions@.len() - i,
    {
        proof {
            let l1 = sessions@.subrange(0, i + 1);
            let d1 = days@.subrange(0, i + 1);
            assert(l1.drop_last() =~= sessions@.subrange(0, i as int));
            assert(d1.drop_last() =~= days@.subrange(0, i as int));
            assert(sum_secs_from_day(l1, d1, cutoff as int) == acc + (if days@[i as int] >= cutoff {
                sessions@[i as int].duration_seconds as int
            } else {
                0
            }));
            lemma_sum_from_day_le(l1, d1, cutoff as int);
            lemma_sum_secs_prefix(sessions@, i + 1);
            lemma_sum_from_day_le(sessions@.subrange(0, i + 1), days@.subrange(0, i + 1), cutoff as int);
        }
        if days[i] >= cutoff {
            proof {
                let l1 = sessions@.subrange(0, i + 1);
                let d1 = days@.subrange(0, i + 1);
                assert(sum_secs_from_day(l1, d1, cutoff as int) <= sum_secs(l1));
            }
            acc = acc + sessions[i].duration_seconds;
        }
        i = i + 1;
    }
    proof {
        assert(sessions@.subrange(0, sessions@.len() as int) =~= sessions@);
        assert(days@.subrange(0, days@.len() as int) =~= days@);
    }
    acc
}


/// Per-day totals as a day-keyed association list, sorted ascending by
/// day. Values are exact integer second counts.
pub open spec fn daily_add(m: Seq<(i64, int)>, d: i64, secs: int) -> Seq<(i64, int)>
    decreases m.len(),
{
    if m.len() == 0 {
        seq![(d, secs)]
    } else if m[0].0 == d {
        seq![(d, m[0].1 + secs)] + m.drop_first()
    } else if m[0].0 < d {
        seq![m[0]] + daily_add(m.drop_first(), d, secs)
    } else {
        seq![(d, secs)] + m
    }
}

/// The history bucketed by local calendar day.
pub open spec fn daily_totals(l: Seq<Session>, days: Seq<i64>) -> Seq<(i64, int)>
    decreases l.len(),
{
    if l.len() == 0 || days.len() != l.len() {
        Seq::empty()
    } else {
        daily_add(
            daily_totals(l.drop_last(), days.drop_last()),
            days.last(),
            l.last().duration_seconds as int,
        )
    }
}

/// Sum of a bucket list's values.
pub open spec fn bucket_valsum(m: Seq<(i64, int)>) -> int
    decreases m.len(),
{
    if m.len() == 0 {
        0
    } else {
        m[0].1 + bucket_valsum(m.drop_first())
    }
}

pub open spec fn buckets_nonneg(m: Seq<(i64, int)>) -> bool {
    forall|j: int| 0 <= j < m.len() ==> (#[trigger] m[j]).1 >= 0
}

proof fn lemma_daily_add_valsum(m: Seq<(i64, int)>, d: i64, secs: int)
    ensures
        bucket_valsum(daily_add(m, d, secs)) == bucket_valsum(m) + secs,
        buckets_nonneg(m) && secs >= 0 ==> buckets_nonneg(daily_add(m, d, secs)),
    decreases m.len(),
{
    let r = daily_add(m, d, secs);
    if m.len() == 0 {
        assert(r.drop_first() =~= Seq::<(i64, int)>::empty());
        assert(r[0] == (d, secs));
        assert(bucket_valsum(Seq::<(i64, int)>::empty()) == 0);
        assert(bucket_valsum(r.drop_first()) == 0);
        assert(bucket_valsum(r) == secs);
        if secs >= 0 {
            assert(forall|j: int| 0 <= j < r.len() ==> (#[trigger] r[j]).1 >= 0);
        }
    } else if m[0].0 == d {
        assert(r.drop_first() =~= m.drop_first());
        assert(r[0] == (d, m[0].1 + secs));
        assert(bucket_valsum(r) == m[0].1 + secs + bucket_valsum(m.drop_first()));
        if buckets_nonneg(m) && secs >= 0 {
            assert forall|j: int| 0 <= j < r.len() implies (#[trigger] r[j]).1 >= 0 by {
                if j > 0 {
                    assert(r[j] == m[j]);
                }
            }
        }
    } else if m[0].0 < d {
        assert(forall|j: int|
            0 <= j < m.drop_first().len() ==> #[trigger] m.drop_first()[j] == m[j + 1]);
        lemma_daily_add_valsum(m.drop_first(), d, secs);
        assert(r.drop_first() =~= daily_add(m.drop_first(), d, secs));
        assert(r[0] == m[0]);
        assert(bucket_valsum(r) == m[0].1 + bucket_valsum(daily_add(m.drop_first(), d, secs)));
        if buckets_nonneg(m) && secs >= 0 {
            assert(buckets_nonneg(m.drop_first()));
            assert forall|j: int| 0 <= j < r.len() implies (#[trigger] r[j]).1 >= 0 by {
                if j > 0 {
                    assert(r[j] == daily_add(m.drop_first(), d, secs)[j - 1]);
                }
            }
        }
    } else {
        assert(r.drop_first() =~= m);
        assert(r[0] == (d, secs));
        assert(bucket_valsum(r) == secs + bucket_valsum(m));
        if buckets_nonneg(m) && secs >= 0 {
            assert forall|j: int| 0 <= j < r.len() implies (#[trigger] r[j]).1 >= 0 by {
                if j > 0 {
                    assert(r[j] == m[j - 1]);
                }
            }
        }
    }
}

proof fn lemma_daily_totals_valsum(l: Seq<Session>, days: Seq<i64>)
    requires
        days.len() == l.len(),
    ensures
        bucket_valsum(daily_totals(l, days)) == sum_secs(l),
        buckets_nonneg(daily_totals(l, days)),
    decreases l.len(),
{
    if l.len() > 0 {
        lemma_daily_totals_valsum(l.drop_last(), days.drop_last());
        lemma_daily_add_valsum(
            daily_totals(l.drop_last(), days.drop_last()),
            days.last(),
            l.last().duration_seconds as int,
        );
    }
}

proof fn lemma_bucket_value_le_valsum(m: Seq<(i64, int)>, j: int)
    requires
        buckets_nonneg(m),
        0 <= j < m.len(),
    ensures
        m[j].1 <= bucket_valsum(m),
    decreases m.len(),
{
    if j == 0 {
        lemma_bucket_valsum_nonneg(m.drop_first());
    } else {
        assert(forall|k: int|
            0 <= k < m.drop_first().len() ==> (#[trigger] m.drop_first()[k]).1 >= 0);
        lemma_bucket_value_le_valsum(m.drop_first(), j - 1);
        assert(m.drop_first()[j - 1] == m[j]);
    }
}

proof fn lemma_bucket_valsum_nonneg(m: Seq<(i64, int)>)
    requires
        buckets_nonneg(m),
    ensures
        bucket_valsum(m) >= 0,
    decreases m.len(),
{
    if m.len() > 0 {
        assert(forall|k: int|
            0 <= k < m.drop_first().len() ==> (#[trigger] m.drop_first()[k]).1 >= 0);
        lemma_bucket_valsum_nonneg(m.drop_first());
    }
}

/// The bucket keys all come from the supplied day list.
pub open spec fn keys_from(m: Seq<(i64, int)>, days: Seq<i64>) -> bool {
    forall|j: int| 0 <= j < m.len() ==> days.contains((#[trigger] m[j]).0)
}

proof fn lemma_daily_add_keys(m: Seq<(i64, int)>, d: i64, secs: int, days: Seq<i64>)
    requires
        keys_from(m, days),
        days.contains(d),
    ensures
        keys_from(daily_add(m, d, secs), days),
    decreases m.len(),
{
    let r = daily_add(m, d, secs);
    if m.len() == 0 {
        assert(r[0].0 == d);
    } else if m[0].0 == d {
        assert(forall|j: int| 1 <= j < r.len() ==> r[j] == m[j]);
        assert(r[0].0 == d);
    } else if m[0].0 < d {
        assert(forall|k: int|
            0 <= k < m.drop_first().len() ==> days.contains((#[trigger] m.drop_first()[k]).0));
        lemma_daily_add_keys(m.drop_first(), d, secs, days);
        assert(forall|j: int| 1 <= j < r.len() ==> r[j] == daily_add(m.drop_first(), d, secs)[j - 1]);
        assert(r[0] == m[0]);
    } else {
        assert(forall|j: int| 1 <= j < r.len() ==> r[j] == m[j - 1]);
        assert(r[0].0 == d);
    }
}

proof fn lemma_daily_totals_keys(l: Seq<Session>, days: Seq<i64>)
    requires
        days.len() == l.len(),
    ensures
        keys_from(daily_totals(l, days), days),
    decreases l.len(),
{
    if l.len() > 0 {
        lemma_daily_totals_keys(l.drop_last(), days.drop_last());
        let m = daily_totals(l.drop_last(), days.drop_last());
        assert(keys_from(m, days)) by {
            assert(forall|j: int| 0 <= j < m.len() ==> days.drop_last().contains((#[trigger] m[j]).0));
            assert(forall|k: int|
                0 <= k < days.len() - 1 ==> days[k] == #[trigger] days.drop_last()[k]);
            assert(forall|j: int| 0 <= j < m.len() ==> days.contains((#[trigger] m[j]).0)) by {
                assert(forall|j: int|
                    0 <= j < m.len() ==> exists|k: int|
                        0 <= k < days.drop_last().len() && days.drop_last()[k] == (
                        #[trigger] m[j]).0);
                assert(forall|k: int|
                    0 <= k < days.drop_last().len() ==> #[trigger] days.drop_last()[k] == days[k]);
            }
        }
        assert(days.contains(days.last())) by {
            assert(days[days.len() - 1] == days.last());
        }
        lemma_daily_add_keys(m, days.last(), l.last().duration_seconds as int, days);
    }
}

proof fn lemma_daily_add_at(m: Seq<(i64, int)>, d: i64, secs: int, p: int)
    requires
        0 <= p <= m.len(),
        forall|j: int| 0 <= j < p ==> (#[trigger] m[j]).0 < d,
        p == m.len() || m[p].0 >= d,
    ensures
        p < m.len() && m[p].0 == d ==> daily_add(m, d, secs) =~= m.update(p, (d, m[p].1 + secs)),
        p == m.len() || m[p].0 > d ==> daily_add(m, d, secs) =~= m.subrange(0, p) + seq![
            (d, secs),
        ] + m.subrange(p, m.len() as int),
    decreases m.len(),
{
    if m.len() == 0 {
    } else if p == 0 {
        if m[0].0 == d {
            assert(daily_add(m, d, secs) =~= m.update(0, (d, m[0].1 + secs)));
        } else {
            assert(m[0].0 > d);
            assert(m.subrange(0, 0) =~= Seq::<(i64, int)>::empty());
            assert(m.subrange(0, m.len() as int) =~= m);
        }
    } else {
        assert(m[0].0 < d);
        assert(forall|j: int| 0 <= j < p - 1 ==> (#[trigger] m.drop_first()[j]).0 < d) by {
            assert(forall|j: int| 0 <= j < p - 1 ==> m.drop_first()[j] == m[j + 1]);
        }
        if p < m.len() {
            assert(m.drop_first()[p - 1] == m[p]);
        }
        lemma_daily_add_at(m.drop_first(), d, secs, p - 1);
        if p < m.len() && m[p].0 == d {
            assert(daily_add(m.drop_first(), d, secs) =~= m.drop_first().update(
                p - 1,
                (d, m[p].1 + secs),
            ));
            assert(daily_add(m, d, secs) =~= m.update(p, (d, m[p].1 + secs)));
        } else {
            assert(m.drop_first().subrange(0, p - 1) =~= m.subrange(1, p));
            assert(m.drop_first().subrange(p - 1, m.drop_first().len() as int) =~= m.subrange(
                p,
                m.len() as int,
            ));
        }
    }
}

/// The integer view of an executable day-bucket list.
pub open spec fn daily_view(v: Seq<(i64, u64)>) -> Seq<(i64, int)> {
    v.map_values(|p: (i64, u64)| (p.0, p.1 as int))
}

/// Buckets the history by local day, sorted ascending by day.
fn compute_daily(sessions: &Vec<Session>, days: &Vec<i64>) -> (r: Vec<(i64, u64)>)
    requires
        days@.len() == sessions@.len(),
        sum_secs(sessions@) <= u64::MAX,
    ensures
        daily_view(r@) == daily_totals(sessions@, days@),
{
    let mut dv: Vec<(i64, u64)> = Vec::new();
    let mut i: usize = 0;
    proof {
        assert(daily_view(dv@) =~= Seq::<(i64, int)>::empty());
        assert(daily_totals(sessions@.subrange(0, 0), days@.subrange(0, 0)) =~= Seq::<
            (i64, int),
        >::empty());
    }
    while i < sessions.len()
        invariant
            i <= sessions@.len(),
            days@.len() == sessions@.len(),
            sum_secs(sessions@) <= u64::MAX,
            daily_view(dv@) == daily_totals(
                sessions@.subrange(0, i as int),
                days@.subrange(0, i as int),
            ),
        decreases sessions@.len() - i,
    {
        let d: i64 = days[i];
        let secs: u64 = sessions[i].duration_seconds;
        let ghost before = daily_view(dv@);
        let ghost lpre = sessions@.subrange(0, i as int);
        let ghost dpre = days@.subrange(0, i as int);
        let mut p: usize = 0;
        while p < dv.len() && dv[p].0 < d
            invariant
                p <= dv@.len(),
                forall|j: int| 0 <= j < p ==> (#[trigger] dv@[j]).0 < d,
            decreases dv@.len() - p,
        {
            p = p + 1;
        }
        proof {
            assert(forall|j: int|
                0 <= j < p ==> (#[trigger] daily_view(dv@)[j]).0 < d) by {
                assert(forall|j: int|
                    0 <= j < dv@.len() ==> #[trigger] daily_view(dv@)[j] == (
                    dv@[j].0,
                    dv@[j].1 as int,
                ));
            }
            lemma_daily_add_at(before, d, secs as int, p as int);
            lemma_sum_secs_prefix(sessions@, i + 1);
            assert(sessions@.subrange(0, i + 1).drop_last() =~= lpre);
            assert(days@.subrange(0, i + 1).drop_last() =~= dpre);
            lemma_daily_totals_valsum(lpre, dpre);
            lemma_daily_totals_valsum(sessions@.subrange(0, i + 1), days@.subrange(0, i + 1));
        }
        if p < dv.len() && dv[p].0 == d {
            proof {
                lemma_bucket_value_le_valsum(before, p as int);
                assert(before[p as int].1 == dv@[p as int].1 as int);
                assert(bucket_valsum(before) == sum_secs(lpre));
                assert(sum_secs(sessions@.subrange(0, i + 1)) == sum_secs(lpre) + secs);
            }
            let merged: (i64, u64) = (d, dv[p].1 + secs);
            dv.remove(p);
            dv.insert(p, merged);
            proof {
                assert(daily_view(dv@) =~= before.update(p as int, (d, before[p as int].1 + secs))) by {
                    assert(forall|j: int|
                        0 <= j < dv@.len() ==> #[trigger] daily_view(dv@)[j] == (
                        dv@[j].0,
                        dv@[j].1 as int,
                    ));
                }
            }
        } else {
            dv.insert(p, (d, secs));
            proof {
                assert(daily_view(dv@) =~= before.subrange(0, p as int) + seq![(d, secs as int)]
                    + before.subrange(p as int, before.len() as int)) by {
                    assert(forall|j: int|
                        0 <= j < dv@.len() ==> #[trigger] daily_view(dv@)[j] == (
                        dv@[j].0,
                        dv@[j].1 as int,
                    ));
                }
            }
        }
        i = i + 1;
    }
    proof {
        assert(sessions@.subrange(0, sessions@.len() as int) =~= sessions@);
        assert(days@.subrange(0, days@.len() as int) =~= days@);
    }
    dv
}


/// Lexicographic order on (ISO week-based year, week).
pub open spec fn week_lt(a: (int, int), b: (int, int)) -> bool {
    a.0 < b.0 || (a.0 == b.0 && a.1 < b.1)
}

/// Per-week totals as a week-keyed association list, sorted ascending.
pub open spec fn weekly_add(m: Seq<((int, int), int)>, k: (int, int), secs: int) -> Seq<
    ((int, int), int),
>
    decreases m.len(),
{
    if m.len() == 0 {
        seq![(k, secs)]
    } else if m[0].0 == k {
        seq![(k, m[0].1 + secs)] + m.drop_first()
    } else if week_lt(m[0].0, k) {
        seq![m[0]] + weekly_add(m.drop_first(), k, secs)
    } else {
        seq![(k, secs)] + m
    }
}

/// The day buckets re-bucketed by ISO week.
pub open spec fn weekly_totals(daily: Seq<(i64, int)>) -> Seq<((int, int), int)>
    decreases daily.len(),
{
    if daily.len() == 0 {
        Seq::empty()
    } else {
        weekly_add(
            weekly_totals(daily.drop_last()),
            iso_week_of(daily.last().0 as int),
            daily.last().1,
        )
    }
}

pub open spec fn wk_valsum(m: Seq<((int, int), int)>) -> int
    decreases m.len(),
{
    if m.len() == 0 {
        0
    } else {
        m[0].1 + wk_valsum(m.drop_first())
    }
}

pub open spec fn wk_nonneg(m: Seq<((int, int), int)>) -> bool {
    forall|j: int| 0 <= j < m.len() ==> (#[trigger] m[j]).1 >= 0
}

proof fn lemma_weekly_add_valsum(m: Seq<((int, int), int)>, k: (int, int), secs: int)
    ensures
        wk_valsum(weekly_add(m, k, secs)) == wk_valsum(m) + secs,
        wk_nonneg(m) && secs >= 0 ==> wk_nonneg(weekly_add(m, k, secs)),
    decreases m.len(),
{
    let r = weekly_add(m, k, secs);
    if m.len() == 0 {
        assert(r.drop_first() =~= Seq::<((int, int), int)>::empty());
        assert(r[0] == (k, secs));
        assert(wk_valsum(Seq::<((int, int), int)>::empty()) == 0);
        assert(wk_valsum(r.drop_first()) == 0);
        if secs >= 0 {
            assert(forall|j: int| 0 <= j < r.len() ==> (#[trigger] r[j]).1 >= 0);
        }
    } else if m[0].0 == k {
        assert(r.drop_first() =~= m.drop_first());
        assert(r[0] == (k, m[0].1 + secs));
        assert(wk_valsum(r) == m[0].1 + secs + wk_valsum(m.drop_first()));
        if wk_nonneg(m) && secs >= 0 {
            assert forall|j: int| 0 <= j < r.len() implies (#[trigger] r[j]).1 >= 0 by {
                if j > 0 {
                    assert(r[j] == m[j]);
                }
            }
        }
    } else if week_lt(m[0].0, k) {
        assert(forall|j: int|
            0 <= j < m.drop_first().len() ==> #[trigger] m.drop_first()[j] == m[j + 1]);
        lemma_weekly_add_valsum(m.drop_first(), k, secs);
        assert(r.drop_first() =~= weekly_add(m.drop_first(), k, secs));
        assert(r[0] == m[0]);
        assert(wk_valsum(r) == m[0].1 + wk_valsum(weekly_add(m.drop_first(), k, secs)));
        if wk_nonneg(m) && secs >= 0 {
            assert(wk_nonneg(m.drop_first()));
            assert forall|j: int| 0 <= j < r.len() implies (#[trigger] r[j]).1 >= 0 by {
                if j > 0 {
                    assert(r[j] == weekly_add(m.drop_first(), k, secs)[j - 1]);
                }
            }
        }
    } else {
        assert(r.drop_first() =~= m);
        assert(r[0] == (k, secs));
        assert(wk_valsum(r) == secs + wk_valsum(m));
        if wk_nonneg(m) && secs >= 0 {
            assert forall|j: int| 0 <= j < r.len() implies (#[trigger] r[j]).1 >= 0 by {
                if j > 0 {
                    assert(r[j] == m[j - 1]);
                }
            }
        }
    }
}

proof fn lemma_weekly_totals_valsum(daily: Seq<(i64, int)>)
    requires
        buckets_nonneg(daily),
    ensures
        wk_valsum(weekly_totals(daily)) == bucket_valsum(daily),
        wk_nonneg(weekly_totals(daily)),
    decreases daily.len(),
{
    if daily.len() > 0 {
        assert(buckets_nonneg(daily.drop_last())) by {
            assert(forall|j: int|
                0 <= j < daily.len() - 1 ==> #[trigger] daily.drop_last()[j] == daily[j]);
        }
        lemma_weekly_totals_valsum(daily.drop_last());
        lemma_weekly_add_valsum(
            weekly_totals(daily.drop_last()),
            iso_week_of(daily.last().0 as int),
            daily.last().1,
        );
        lemma_bucket_valsum_last(daily);
    }
}

proof fn lemma_bucket_valsum_last(m: Seq<(i64, int)>)
    requires
        m.len() > 0,
    ensures
        bucket_valsum(m) == bucket_valsum(m.drop_last()) + m.last().1,
    decreases m.len(),
{
    if m.len() == 1 {
        assert(m.drop_last() =~= Seq::<(i64, int)>::empty());
        assert(bucket_valsum(m.drop_last()) == 0);
        assert(m.drop_first() =~= Seq::<(i64, int)>::empty());
        assert(bucket_valsum(m.drop_first()) == 0);
    } else {
        lemma_bucket_valsum_last(m.drop_first());
        assert(m.drop_last().drop_first() =~= m.drop_first().drop_last());
        assert(m.drop_first().last() == m.last());
        assert(bucket_valsum(m.drop_last()) == m[0].1 + bucket_valsum(m.drop_last().drop_first()));
    }
}

proof fn lemma_wk_value_le_valsum(m: Seq<((int, int), int)>, j: int)
    requires
        wk_nonneg(m),
        0 <= j < m.len(),
    ensures
        m[j].1 <= wk_valsum(m),
    decreases m.len(),
{
    if j == 0 {
        assert(wk_nonneg(m.drop_first())) by {
            assert(forall|k: int|
                0 <= k < m.drop_first().len() ==> #[trigger] m.drop_first()[k] == m[k + 1]);
        }
        lemma_wk_valsum_nonneg(m.drop_first());
    } else {
        assert(wk_nonneg(m.drop_first())) by {
            assert(forall|k: int|
                0 <= k < m.drop_first().len() ==> #[trigger] m.drop_first()[k] == m[k + 1]);
        }
        lemma_wk_value_le_valsum(m.drop_first(), j - 1);
        assert(m.drop_first()[j - 1] == m[j]);
    }
}

proof fn lemma_wk_valsum_nonneg(m: Seq<((int, int), int)>)
    requires
        wk_nonneg(m),
    ensures
        wk_valsum(m) >= 0,
    decreases m.len(),
{
    if m.len() > 0 {
        assert(wk_nonneg(m.drop_first())) by {
            assert(forall|k: int|
                0 <= k < m.drop_first().len() ==> #[trigger] m.drop_first()[k] == m[k + 1]);
        }
        lemma_wk_valsum_nonneg(m.drop_first());
    }
}

proof fn lemma_weekly_add_at(m: Seq<((int, int), int)>, k: (int, int), secs: int, p: int)
    requires
        0 <= p <= m.len(),
        forall|j: int| 0 <= j < p ==> week_lt((#[trigger] m[j]).0, k),
        p == m.len() || !week_lt(m[p].0, k),
    ensures
        p < m.len() && m[p].0 == k ==> weekly_add(m, k, secs) =~= m.update(p, (k, m[p].1 + secs)),
        p == m.len() || m[p].0 != k ==> weekly_add(m, k, secs) =~= m.subrange(0, p) + seq![
            (k, secs),
        ] + m.subrange(p, m.len() as int),
    decreases m.len(),
{
    if m.len() == 0 {
    } else if p == 0 {
        if m[0].0 == k {
            assert(weekly_add(m, k, secs) =~= m.update(0, (k, m[0].1 + secs)));
        } else {
            assert(!week_lt(m[0].0, k));
            assert(m.subrange(0, 0) =~= Seq::<((int, int), int)>::empty());
            assert(m.subrange(0, m.len() as int) =~= m);
        }
    } else {
        assert(week_lt(m[0].0, k));
        assert(forall|j: int| 0 <= j < p - 1 ==> week_lt((#[trigger] m.drop_first()[j]).0, k)) by {
            assert(forall|j: int| 0 <= j < p - 1 ==> m.drop_first()[j] == m[j + 1]);
        }
        if p < m.len() {
            assert(m.drop_first()[p - 1] == m[p]);
        }
        lemma_weekly_add_at(m.drop_first(), k, secs, p - 1);
        if p < m.len() && m[p].0 == k {
            assert(weekly_add(m.drop_first(), k, secs) =~= m.drop_first().update(
                p - 1,
                (k, m[p].1 + secs),
            ));
            assert(weekly_add(m, k, secs) =~= m.update(p, (k, m[p].1 + secs)));
        } else {
            assert(m.drop_first().subrange(0, p - 1) =~= m.subrange(1, p));
            assert(m.drop_first().subrange(p - 1, m.drop_first().len() as int) =~= m.subrange(
                p,
                m.len() as int,
            ));
        }
    }
}

/// The mathematical view of an executable week-bucket list.
pub open spec fn weekly_view(v: Seq<(i64, i64, u64)>) -> Seq<((int, int), int)> {
    v.map_values(|t: (i64, i64, u64)| ((t.0 as int, t.1 as int), t.2 as int))
}

/// Buckets the day totals by ISO week, sorted ascending.
fn compute_weekly(dv: &Vec<(i64, u64)>, ghost_total: Ghost<int>) -> (r: Vec<(i64, i64, u64)>)
    requires
        bucket_valsum(daily_view(dv@)) <= ghost_total@ <= u64::MAX,
        buckets_nonneg(daily_view(dv@)),
        forall|j: int| 0 <= j < dv@.len() ==> 1 <= (#[trigger] dv@[j]).0 <= 3000000,
    ensures
        weekly_view(r@) == weekly_totals(daily_view(dv@)),
{
    let mut wv: Vec<(i64, i64, u64)> = Vec::new();
    let mut i: usize = 0;
    proof {
        assert(weekly_view(wv@) =~= Seq::<((int, int), int)>::empty());
        assert(daily_view(dv@.subrange(0, 0)) =~= Seq::<(i64, int)>::empty());
        assert(weekly_totals(daily_view(dv@.subrange(0, 0))) =~= Seq::<((int, int), int)>::empty());
    }
    while i < dv.len()
        invariant
            i <= dv@.len(),
            bucket_valsum(daily_view(dv@)) <= ghost_total@ <= u64::MAX,
            buckets_nonneg(daily_view(dv@)),
            forall|j: int| 0 <= j < dv@.len() ==> 1 <= (#[trigger] dv@[j]).0 <= 3000000,
            weekly_view(wv@) == weekly_totals(daily_view(dv@.subrange(0, i as int))),
        decreases dv@.len() - i,
    {
        let day: i64 = dv[i].0;
        let secs: u64 = dv[i].1;
        let wk: (i64, i64) = iso_week_of_day(day);
        let ghost k = iso_week_of(day as int);
        let ghost before = weekly_view(wv@);
        let ghost dpre = daily_view(dv@.subrange(0, i as int));
        let mut p: usize = 0;
        while p < wv.len() && (wv[p].0 < wk.0 || (wv[p].0 == wk.0 && wv[p].1 < wk.1))
            invariant
                p <= wv@.len(),
                (wk.0 as int, wk.1 as int) == k,
                forall|j: int| 0 <= j < p ==> week_lt((#[trigger] weekly_view(wv@)[j]).0, k),
            decreases wv@.len() - p,
        {
            proof {
                assert(weekly_view(wv@)[p as int] == (
                    (wv@[p as int].0 as int, wv@[p as int].1 as int),
                    wv@[p as int].2 as int,
                ));
            }
            p = p + 1;
        }
        proof {
            assert(forall|j: int|
                0 <= j < wv@.len() ==> #[trigger] weekly_view(wv@)[j] == (
                (wv@[j].0 as int, wv@[j].1 as int),
                wv@[j].2 as int,
            ));
            lemma_weekly_add_at(before, k, secs as int, p as int);
            let dpre1 = daily_view(dv@.subrange(0, i + 1));
            assert(dpre1.drop_last() =~= dpre) by {
                assert(forall|j: int|
                    0 <= j <= i ==> #[trigger] dpre1[j] == (dv@[j].0, dv@[j].1 as int));
                assert(forall|j: int|
                    0 <= j < i ==> #[trigger] dpre[j] == (dv@[j].0, dv@[j].1 as int));
            }
            assert(dpre1.last() == (dv@[i as int].0, dv@[i as int].1 as int));
            assert(weekly_totals(dpre1) == weekly_add(weekly_totals(dpre), k, secs as int));
            assert(buckets_nonneg(dpre1)) by {
                assert(forall|j: int|
                    0 <= j < dpre1.len() ==> #[trigger] dpre1[j] == (dv@[j].0, dv@[j].1 as int));
                assert(forall|j: int| 0 <= j < dv@.len() ==> dv@[j].1 >= 0);
            }
            lemma_weekly_totals_valsum(dpre1);
            assert(bucket_valsum(dpre1) <= bucket_valsum(daily_view(dv@))) by {
                lemma_daily_prefix_valsum(daily_view(dv@), i + 1);
                assert(dpre1 =~= daily_view(dv@).subrange(0, i + 1)) by {
                    assert(forall|j: int|
                        0 <= j <= i ==> #[trigger] dpre1[j] == (dv@[j].0, dv@[j].1 as int));
                    assert(forall|j: int|
                        0 <= j < dv@.len() ==> #[trigger] daily_view(dv@)[j] == (
                        dv@[j].0,
                        dv@[j].1 as int,
                    ));
                }
            }
        }
        if p < wv.len() && wv[p].0 == wk.0 && wv[p].1 == wk.1 {
            proof {
                assert(before[p as int].0 == k);
                lemma_weekly_totals_valsum(daily_view(dv@.subrange(0, i + 1)));
                lemma_wk_value_le_valsum(weekly_totals(daily_view(dv@.subrange(0, i + 1))), p as int)
                ;
                assert(weekly_add(before, k, secs as int) == weekly_totals(
                    daily_view(dv@.subrange(0, i + 1)),
                ));
                assert(weekly_add(before, k, secs as int)[p as int].1 == before[p as int].1
                    + secs);
            }
            let merged: (i64, i64, u64) = (wk.0, wk.1, wv[p].2 + secs);
            wv.remove(p);
            wv.insert(p, merged);
            proof {
                assert(weekly_view(wv@) =~= before.update(p as int, (k, before[p as int].1
                    + secs))) by {
                    assert(forall|j: int|
                        0 <= j < wv@.len() ==> #[trigger] weekly_view(wv@)[j] == (
                        (wv@[j].0 as int, wv@[j].1 as int),
                        wv@[j].2 as int,
                    ));
                }
            }
        } else {
            proof {
                if p < wv@.len() {
                    assert(before[p as int].0 != k);
                }
            }
            wv.insert(p, (wk.0, wk.1, secs));
            proof {
                assert(weekly_view(wv@) =~= before.subrange(0, p as int) + seq![(k, secs as int)]
                    + before.subrange(p as int, before.len() as int)) by {
                    assert(forall|j: int|
                        0 <= j < wv@.len() ==> #[trigger] weekly_view(wv@)[j] == (
                        (wv@[j].0 as int, wv@[j].1 as int),
                        wv@[j].2 as int,
                    ));
                }
            }
        }
        i = i + 1;
    }
    proof {
        assert(dv@.subrange(0, dv@.len() as int) =~= dv@);
    }
    wv
}

proof fn lemma_daily_prefix_valsum(m: Seq<(i64, int)>, i: int)
    requires
        buckets_nonneg(m),
        0 <= i <= m.len(),
    ensures
        bucket_valsum(m.subrange(0, i)) <= bucket_valsum(m),
    decreases m.len() - i,
{
    if i == m.len() {
        assert(m.subrange(0, i) =~= m);
    } else {
        lemma_daily_prefix_valsum(m, i + 1);
        assert(m.subrange(0, i + 1).drop_last() =~= m.subrange(0, i));
        lemma_bucket_valsum_last(m.subrange(0, i + 1));
        assert(m.subrange(0, i + 1).last() == m[i]);
    }
}


/// Stable descending insertion by bucket value.
pub open spec fn ins_by_secs(m: Seq<(i64, int)>, e: (i64, int)) -> Seq<(i64, int)>
    decreases m.len(),
{
    if m.len() == 0 {
        seq![e]
    } else if m[0].1 >= e.1 {
        seq![m[0]] + ins_by_secs(m.drop_first(), e)
    } else {
        seq![e] + m
    }
}

/// Stable insertion sort of day buckets, descending by value.
pub open spec fn sort_by_secs_desc(m: Seq<(i64, int)>) -> Seq<(i64, int)>
    decreases m.len(),
{
    if m.len() == 0 {
        m
    } else {
        ins_by_secs(sort_by_secs_desc(m.drop_last()), m.last())
    }
}

/// The five highest-total days, descending by total (stable by day order).
pub open spec fn top_days_of(daily: Seq<(i64, int)>) -> Seq<(i64, int)> {
    let sorted = sort_by_secs_desc(daily);
    if sorted.len() <= 5 {
        sorted
    } else {
        sorted.subrange(0, 5)
    }
}

proof fn lemma_ins_by_secs_at(m: Seq<(i64, int)>, e: (i64, int), p: int)
    requires
        0 <= p <= m.len(),
        forall|j: int| 0 <= j < p ==> (#[trigger] m[j]).1 >= e.1,
        p == m.len() || m[p].1 < e.1,
    ensures
        ins_by_secs(m, e) =~= m.subrange(0, p) + seq![e] + m.subrange(p, m.len() as int),
    decreases m.len(),
{
    if m.len() == 0 {
    } else if p == 0 {
        assert(m.subrange(0, m.len() as int) =~= m);
    } else {
        assert(forall|j: int| 0 <= j < p - 1 ==> (#[trigger] m.drop_first()[j]).1 >= e.1) by {
            assert(forall|j: int| 0 <= j < p - 1 ==> m.drop_first()[j] == m[j + 1]);
        }
        if p < m.len() {
            assert(m.drop_first()[p - 1] == m[p]);
        }
        lemma_ins_by_secs_at(m.drop_first(), e, p - 1);
        assert(m.drop_first().subrange(0, p - 1) =~= m.subrange(1, p));
        assert(m.drop_first().subrange(p - 1, m.drop_first().len() as int) =~= m.subrange(
            p,
            m.len() as int,
        ));
    }
}

/// The day buckets sorted descending by value and capped at five.
fn compute_top_days(dv: &Vec<(i64, u64)>) -> (r: Vec<(i64, u64)>)
    ensures
        daily_view(r@) == top_days_of(daily_view(dv@)),
{
    let mut sorted: Vec<(i64, u64)> = Vec::new();
    let mut i: usize = 0;
    proof {
        assert(daily_view(sorted@) =~= Seq::<(i64, int)>::empty());
        assert(daily_view(dv@.subrange(0, 0)) =~= Seq::<(i64, int)>::empty());
        assert(sort_by_secs_desc(daily_view(dv@.subrange(0, 0))) =~= Seq::<(i64, int)>::empty());
    }
    while i < dv.len()
        invariant
            i <= dv@.len(),
            daily_view(sorted@) == sort_by_secs_desc(daily_view(dv@.subrange(0, i as int))),
        decreases dv@.len() - i,
    {
        let e: (i64, u64) = dv[i];
        let ghost ev = (e.0, e.1 as int);
        let ghost before = daily_view(sorted@);
        let mut p: usize = 0;
        while p < sorted.len() && sorted[p].1 >= e.1
            invariant
                p <= sorted@.len(),
                ev == (e.0, e.1 as int),
                forall|j: int| 0 <= j < p ==> (#[trigger] daily_view(sorted@)[j]).1 >= ev.1,
            decreases sorted@.len() - p,
        {
            proof {
                assert(daily_view(sorted@)[p as int] == (
                    sorted@[p as int].0,
                    sorted@[p as int].1 as int,
                ));
            }
            p = p + 1;
        }
        proof {
            assert(forall|j: int|
                0 <= j < sorted@.len() ==> #[trigger] daily_view(sorted@)[j] == (
                sorted@[j].0,
                sorted@[j].1 as int,
            ));
            lemma_ins_by_secs_at(before, ev, p as int);
        }
        sorted.insert(p, e);
        i = i + 1;
        proof {
            assert(daily_view(sorted@) =~= before.subrange(0, p as int) + seq![ev]
                + before.subrange(p as int, before.len() as int)) by {
                assert(forall|j: int|
                    0 <= j < sorted@.len() ==> #[trigger] daily_view(sorted@)[j] == (
                    sorted@[j].0,
                    sorted@[j].1 as int,
                ));
            }
            let dpre = daily_view(dv@.subrange(0, i - 1));
            let dpre1 = daily_view(dv@.subrange(0, i as int));
            assert(dpre1.drop_last() =~= dpre) by {
                assert(forall|j: int|
                    0 <= j < i ==> #[trigger] dpre1[j] == (dv@[j].0, dv@[j].1 as int));
                assert(forall|j: int|
                    0 <= j < i - 1 ==> #[trigger] dpre[j] == (dv@[j].0, dv@[j].1 as int));
            }
            assert(dpre1.last() == ev);
            assert(sort_by_secs_desc(dpre1) == ins_by_secs(sort_by_secs_desc(dpre), ev));
        }
    }
    proof {
        assert(dv@.subrange(0, dv@.len() as int) =~= dv@);
    }
    sorted.truncate(5);
    proof {
        let all = sort_by_secs_desc(daily_view(dv@));
        if all.len() > 5 {
            assert(daily_view(sorted@) =~= all.subrange(0, 5)) by {
                assert(forall|j: int|
                    0 <= j < sorted@.len() ==> #[trigger] daily_view(sorted@)[j] == (
                    sorted@[j].0,
                    sorted@[j].1 as int,
                ));
            }
        } else {
            assert(daily_view(sorted@) =~= all) by {
                assert(forall|j: int|
                    0 <= j < sorted@.len() ==> #[trigger] daily_view(sorted@)[j] == (
                    sorted@[j].0,
                    sorted@[j].1 as int,
                ));
            }
        }
    }
    sorted
}

/// Summary statistics and chart series over the whole history.
pub struct Analytics {
    pub total_sessions: usize,
    pub total_seconds: u64,
    pub average_session_seconds: u64,
    pub median_session_seconds: u64,
    pub seconds_last_7: u64,
    pub seconds_last_30: u64,
    pub top_days: Vec<(i64, u64)>,
    pub recent_sessions: Vec<Session>,
    pub recent_daily: Vec<(i64, u64)>,
    pub recent_weekly: Vec<(i64, i64, u64)>,
    pub first_day: Option<i64>,
    pub last_day: Option<i64>,
}

/// Everything the analytics promise of a freshly computed value, given
/// the history, its local days, and the current day.
pub open spec fn analytics_ok(r: Analytics, l: Seq<Session>, days: Seq<i64>, today: int) -> bool {
    let daily = daily_totals(l, days);
    &&& r.total_sessions == l.len()
    &&& r.total_seconds == sum_secs(l)
    &&& r.average_session_seconds == (if l.len() == 0 {
        0int
    } else {
        sum_secs(l) / l.len() as int
    })
    &&& r.median_session_seconds == median_secs(durations_of(l))
    &&& r.seconds_last_7 == sum_secs_from_day(l, days, today - 6)
    &&& r.seconds_last_30 == sum_secs_from_day(l, days, today - 29)
    &&& daily_view(r.top_days@) == top_days_of(daily)
    &&& r.recent_sessions@.len() == (if l.len() <= 20 {
        l.len()
    } else {
        20nat
    })
    &&& (forall|i: int|
        0 <= i < r.recent_sessions@.len() ==> session_tuple(#[trigger] r.recent_sessions@[i])
            == session_tuple(l[l.len() - 1 - i]))
    &&& r.recent_daily@.len() == (if daily.len() <= 14 {
        daily.len()
    } else {
        14nat
    })
    &&& (forall|i: int|
        0 <= i < r.recent_daily@.len() ==> (#[trigger] r.recent_daily@[i]).0 == daily[daily.len()
            - 1 - i].0 && r.recent_daily@[i].1 as int == daily[daily.len() - 1 - i].1)
    &&& {
        let weekly = weekly_totals(daily);
        &&& r.recent_weekly@.len() == (if weekly.len() <= 8 {
            weekly.len()
        } else {
            8nat
        })
        &&& (forall|i: int|
            0 <= i < r.recent_weekly@.len() ==> weekly_view(r.recent_weekly@)[i]
                == weekly[weekly.len() - 1 - i])
    }
    &&& match r.first_day {
        None => l.len() == 0,
        Some(d) => days.contains(d) && (forall|i: int|
            0 <= i < days.len() ==> #[trigger] days[i] >= d),
    }
    &&& match r.last_day {
        None => l.len() == 0,
        Some(d) => days.contains(d) && (forall|i: int|
            0 <= i < days.len() ==> #[trigger] days[i] <= d),
    }
}

/// Computes the summary statistics from the ordered history, the local
/// calendar day of each session's start, and the current day.
pub fn compute_analytics_from_days(sessions: &Vec<Session>, days: &Vec<i64>, today: i64) -> (r:
    Analytics)
    requires
        days@.len() == sessions@.len(),
        sessions_sorted(sessions@),
        sum_secs(sessions@) <= u64::MAX,
        forall|i: int| 0 <= i < days@.len() ==> 1 <= #[trigger] days@[i] <= 3000000,
        i64::MIN + 29 <= today,
    ensures
        analytics_ok(r, sessions@, days@, today as int),
{
    let total_sessions: usize = sessions.len();
    let total_seconds: u64 = total_seconds_of(sessions);
    let average_session_seconds: u64 = if total_sessions == 0 {
        0
    } else {
        total_seconds / (total_sessions as u64)
    };
    let durs = sorted_durations(sessions);
    proof {
        lemma_sort_asc_len(durations_of(sessions@));
    }
    let median_session_seconds: u64 = if durs.len() == 0 {
        0
    } else {
        let m: usize = durs.len() / 2;
        if durs.len() % 2 == 1 {
            durs[m]
        } else {
            (((durs[m - 1] as u128) + (durs[m] as u128)) / 2) as u64
        }
    };
    let seconds_last_7: u64 = seconds_from_day(sessions, days, today - 6);
    let seconds_last_30: u64 = seconds_from_day(sessions, days, today - 29);
    let dv = compute_daily(sessions, days);
    proof {
        lemma_daily_totals_valsum(sessions@, days@);
        lemma_daily_totals_keys(sessions@, days@);
        assert forall|j: int| 0 <= j < dv@.len() implies 1 <= (#[trigger] dv@[j]).0
            <= 3000000 by {
            assert(daily_view(dv@)[j] == (dv@[j].0, dv@[j].1 as int));
            assert(days@.contains((daily_view(dv@)[j]).0));
            let w = choose|w: int| 0 <= w < days@.len() && days@[w] == dv@[j].0;
            assert(1 <= days@[w] <= 3000000);
        }
    }
    let wv = compute_weekly(&dv, Ghost(sum_secs(sessions@)));
    let top_days = compute_top_days(&dv);
    let recent_sessions = recent_sessions_of(sessions);
    let recent_daily = recent_daily_of(&dv);
    let recent_weekly = recent_weekly_of(&wv);
    let mut first_day: Option<i64> = None;
    let mut last_day: Option<i64> = None;
    let mut i: usize = 0;
    while i < days.len()
        invariant
            i <= days@.len(),
            days@.len() == sessions@.len(),
            match first_day {
                None => i == 0,
                Some(d) => days@.subrange(0, i as int).contains(d) && (forall|j: int|
                    0 <= j < i ==> #[trigger] days@[j] >= d),
            },
            match last_day {
                None => i == 0,
                Some(d) => days@.subrange(0, i as int).contains(d) && (forall|j: int|
                    0 <= j < i ==> #[trigger] days@[j] <= d),
            },
        decreases days@.len() - i,
    {
        let d = days[i];
        let nf: i64 = match first_day {
            None => d,
            Some(f) => if d < f {
                d
            } else {
                f
            },
        };
        let nl: i64 = match last_day {
            None => d,
            Some(f) => if d > f {
                d
            } else {
                f
            },
        };
        first_day = Some(nf);
        last_day = Some(nl);
        i = i + 1;
        proof {
            assert(days@.subrange(0, i as int).contains(nf)) by {
                if i >= 2 && nf != days@[i - 1] {
                    let w = choose|w: int|
                        0 <= w < i - 1 && #[trigger] days@.subrange(0, i - 1)[w] == nf;
                    assert(days@.subrange(0, i as int)[w] == nf);
                } else {
                    assert(days@.subrange(0, i as int)[i - 1] == days@[i - 1]);
                }
            }
            assert(days@.subrange(0, i as int).contains(nl)) by {
                if i >= 2 && nl != days@[i - 1] {
                    let w = choose|w: int|
                        0 <= w < i - 1 && #[trigger] days@.subrange(0, i - 1)[w] == nl;
                    assert(days@.subrange(0, i as int)[w] == nl);
                } else {
                    assert(days@.subrange(0, i as int)[i - 1] == days@[i - 1]);
                }
            }
        }
    }
    proof {
        assert(days@.subrange(0, days@.len() as int) =~= days@);
        if days@.len() > 0 {
            assert(days@.contains(days@[0]));
        }
    }
    Analytics {
        total_sessions,
        total_seconds,
        average_session_seconds,
        median_session_seconds,
        seconds_last_7,
        seconds_last_30,
        top_days,
        recent_sessions,
        recent_daily,
        recent_weekly,
        first_day,
        last_day,
    }
}

/// The most recent 20 sessions, newest first.
fn recent_sessions_of(sessions: &Vec<Session>) -> (r: Vec<Session>)
    ensures
        r@.len() == (if sessions@.len() <= 20 {
            sessions@.len()
        } else {
            20nat
        }),
        forall|i: int|
            0 <= i < r@.len() ==> session_tuple(#[trigger] r@[i]) == session_tuple(
                sessions@[sessions@.len() - 1 - i],
            ),
{
    let k: usize = if sessions.len() <= 20 {
        sessions.len()
    } else {
        20
    };
    let mut r: Vec<Session> = Vec::new();
    let mut i: usize = 0;
    while i < k
        invariant
            k <= sessions@.len(),
            k == (if sessions@.len() <= 20 {
                sessions@.len()
            } else {
                20nat
            }),
            i <= k,
            r@.len() == i,
            forall|j: int|
                0 <= j < i ==> session_tuple(#[trigger] r@[j]) == session_tuple(
                    sessions@[sessions@.len() - 1 - j],
                ),
        decreases k - i,
    {
        r.push(sessions[sessions.len() - 1 - i].clone());
        i = i + 1;
    }
    r
}

/// The most recent 14 day buckets, newest first.
fn recent_daily_of(dv: &Vec<(i64, u64)>) -> (r: Vec<(i64, u64)>)
    ensures
        r@.len() == (if dv@.len() <= 14 {
            dv@.len()
        } else {
            14nat
        }),
        forall|i: int|
            0 <= i < r@.len() ==> #[trigger] r@[i] == dv@[dv@.len() - 1 - i],
{
    let k: usize = if dv.len() <= 14 {
        dv.len()
    } else {
        14
    };
    let mut r: Vec<(i64, u64)> = Vec::new();
    let mut i: usize = 0;
    while i < k
        invariant
            k <= dv@.len(),
            k == (if dv@.len() <= 14 {
                dv@.len()
            } else {
                14nat
            }),
            i <= k,
            r@.len() == i,
            forall|j: int| 0 <= j < i ==> #[trigger] r@[j] == dv@[dv@.len() - 1 - j],
        decreases k - i,
    {
        r.push(dv[dv.len() - 1 - i]);
        i = i + 1;
    }
    r
}

/// The most recent 8 week buckets, newest first.
fn recent_weekly_of(wv: &Vec<(i64, i64, u64)>) -> (r: Vec<(i64, i64, u64)>)
    ensures
        r@.len() == (if wv@.len() <= 8 {
            wv@.len()
        } else {
            8nat
        }),
        forall|i: int|
            0 <= i < r@.len() ==> #[trigger] r@[i] == wv@[wv@.len() - 1 - i],
{
    let k: usize = if wv.len() <= 8 {
        wv.len()
    } else {
        8
    };
    let mut r: Vec<(i64, i64, u64)> = Vec::new();
    let mut i: usize = 0;
    while i < k
        invariant
            k <= wv@.len(),
            k == (if wv@.len() <= 8 {
                wv@.len()
            } else {
                8nat
            }),
            i <= k,
            r@.len() == i,
            forall|j: int| 0 <= j < i ==> #[trigger] r@[j] == wv@[wv@.len() - 1 - j],
        decreases k - i,
    {
        r.push(wv[wv.len() - 1 - i]);
        i = i + 1;
    }
    r
}


/// Timestamps the calendar wrappers accept.
pub open spec fn ts_in_range(ts: int) -> bool {
    -8000000000000 <= ts <= 8000000000000
}

/// The day a timestamp's UTC moment falls on.
pub open spec fn utc_day_of(ts: int) -> int {
    719163 + ts / 86400
}

/// Timestamps whose local calendar day is certain to lie in the
/// supported day range, whatever zone the machine uses: roughly years 1
/// to 8000.
pub open spec fn ts_in_day_range(ts: int) -> bool {
    -62135510400 <= ts <= 197064316799
}

/// Computes the summary statistics over the history, bucketing by the
/// machine's local calendar day of each session's start.
///
/// The local days come from the system time zone, so the result is
/// pinned down relative to whatever days the zone assigned: there exist
/// per-session days, each within one day of the session start's UTC
/// day, and a current day, for which the value satisfies
/// `analytics_ok`.
pub fn compute_analytics(sessions: &Vec<Session>) -> (r: Analytics)
    requires
        sessions_sorted(sessions@),
        sum_secs(sessions@) <= u64::MAX,
        forall|i: int|
            0 <= i < sessions@.len() ==> ts_in_day_range((#[trigger] sessions@[i]).start as int),
    ensures
        exists|days: Seq<i64>, today: int|
            {
                &&& days.len() == sessions@.len()
                &&& (forall|i: int|
                    0 <= i < days.len() ==> utc_day_of((#[trigger] sessions@[i]).start as int) - 1
                        <= days[i] <= utc_day_of(sessions@[i].start as int) + 1)
                &&& #[trigger] analytics_ok(r, sessions@, days, today)
            },
{
    let mut days: Vec<i64> = Vec::new();
    let mut i: usize = 0;
    while i < sessions.len()
        invariant
            i <= sessions@.len(),
            days@.len() == i,
            forall|j: int| 0 <= j < i ==> 1 <= #[trigger] days@[j] <= 3000000,
            forall|j: int|
                0 <= j < i ==> utc_day_of((#[trigger] sessions@[j]).start as int) - 1 <= days@[j]
                    <= utc_day_of(sessions@[j].start as int) + 1,
            forall|j: int|
                0 <= j < sessions@.len() ==> ts_in_day_range(
                    (#[trigger] sessions@[j]).start as int,
                ),
        decreases sessions@.len() - i,
    {
        proof {
            let ts = sessions@[i as int].start as int;
            vstd::arithmetic::div_mod::lemma_div_is_ordered(-62135510400, ts, 86400);
            vstd::arithmetic::div_mod::lemma_div_is_ordered(ts, 197064316799, 86400);
            assert((-62135510400) / 86400 == -719161);
            assert(197064316799int / 86400 == 2280836);
        }
        let d = crate::calendar::local_day_of(sessions[i].start);
        days.push(d);
        i = i + 1;
    }
    let today = crate::calendar::today_local_day();
    let a = compute_analytics_from_days(sessions, &days, today);
    proof {
        let ds = days@;
        let td = today as int;
        assert({
            &&& ds.len() == sessions@.len()
            &&& (forall|i: int|
                0 <= i < ds.len() ==> utc_day_of((#[trigger] sessions@[i]).start as int) - 1
                    <= ds[i] <= utc_day_of(sessions@[i].start as int) + 1)
            &&& analytics_ok(a, sessions@, ds, td)
        });
    }
    a
}


/// On an empty history, the analytics carry zero counts and zero rolling
/// sums.
pub proof fn lemma_analytics_empty(r: Analytics, days: Seq<i64>, today: int)
    requires
        days.len() == 0,
        analytics_ok(r, Seq::<Session>::empty(), days, today),
    ensures
        r.total_sessions == 0,
        r.total_seconds == 0,
        r.average_session_seconds == 0,
        r.median_session_seconds == 0,
        r.seconds_last_7 == 0,
        r.seconds_last_30 == 0,
        r.top_days@.len() == 0,
        r.recent_sessions@.len() == 0,
        r.recent_daily@.len() == 0,
        r.recent_weekly@.len() == 0,
        r.first_day is None,
        r.last_day is None,
{
    let l = Seq::<Session>::empty();
    assert(sum_secs(l) == 0);
    assert(durations_of(l).len() == 0);
    assert(sum_secs_from_day(l, days, today - 6) == 0);
    assert(sum_secs_from_day(l, days, today - 29) == 0);
    assert(daily_totals(l, days) =~= Seq::<(i64, int)>::empty());
    assert(weekly_totals(daily_totals(l, days)).len() == 0);
    assert(top_days_of(daily_totals(l, days)).len() == 0) by {
        assert(sort_by_secs_desc(Seq::<(i64, int)>::empty()).len() == 0);
    }
    assert(daily_view(r.top_days@).len() == r.top_days@.len());
    if r.first_day is Some {
        let d = r.first_day->0;
        assert(days.contains(d));
        assert(false);
    }
    if r.last_day is Some {
        let d = r.last_day->0;
        assert(days.contains(d));
        assert(false);
    }
}

} // verus!
