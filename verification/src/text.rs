//! ASCII byte-string helpers: case folding, trimming, substring search.
//!
//! All text the library reasons about is carried as bytes; callers convert
//! between `String` and `Vec<u8>` at the edge.

use vstd::prelude::*;

verus! {

/// ASCII lower-casing of a single byte.
pub open spec fn lower_byte(b: u8) -> u8 {
    if 65 <= b && b <= 90 {
        (b + 32) as u8
    } else {
        b
    }
}

/// ASCII lower-casing of a byte string.
pub open spec fn lower_seq(s: Seq<u8>) -> Seq<u8> {
    Seq::new(s.len(), |i: int| lower_byte(s[i]))
}

/// ASCII whitespace: space, tab, line feed, vertical tab, form feed,
/// carriage return.
pub open spec fn is_ascii_space(b: u8) -> bool {
    b == 32 || (9 <= b && b <= 13)
}

pub open spec fn trim_front_seq(s: Seq<u8>) -> Seq<u8>
    decreases s.len(),
{
    if s.len() > 0 && is_ascii_space(s[0]) {
        trim_front_seq(s.drop_first())
    } else {
        s
    }
}

pub open spec fn trim_back_seq(s: Seq<u8>) -> Seq<u8>
    decreases s.len(),
{
    if s.len() > 0 && is_ascii_space(s.last()) {
        trim_back_seq(s.drop_last())
    } else {
        s
    }
}

/// ASCII whitespace stripped from both ends.
pub open spec fn trim_seq(s: Seq<u8>) -> Seq<u8> {
    trim_back_seq(trim_front_seq(s))
}

/// `n` occurs contiguously somewhere in `h`.
pub open spec fn has_subslice(h: Seq<u8>, n: Seq<u8>) -> bool {
    exists|i: int|
        0 <= i && i + n.len() <= h.len() && #[trigger] h.subrange(i, i + n.len() as int) == n
}

proof fn lemma_trim_front_at(s: Seq<u8>, lo: int)
    requires
        0 <= lo <= s.len(),
        forall|i: int| 0 <= i < lo ==> is_ascii_space(#[trigger] s[i]),
        lo == s.len() || !is_ascii_space(s[lo]),
    ensures
        trim_front_seq(s) =~= s.subrange(lo, s.len() as int),
    decreases lo,
{
    if lo == 0 {
        if s.len() > 0 && is_ascii_space(s[0]) {
            assert(false);
        }
        assert(s.subrange(0, s.len() as int) =~= s);
    } else {
        let t = s.drop_first();
        assert(forall|i: int| 0 <= i < lo - 1 ==> is_ascii_space(#[trigger] t[i]));
        lemma_trim_front_at(t, lo - 1);
        assert(t.subrange(lo - 1, t.len() as int) =~= s.subrange(lo, s.len() as int));
    }
}

proof fn lemma_trim_back_at(s: Seq<u8>, hi: int)
    requires
        0 <= hi <= s.len(),
        forall|i: int| hi <= i < s.len() ==> is_ascii_space(#[trigger] s[i]),
        hi == 0 || !is_ascii_space(s[hi - 1]),
    ensures
        trim_back_seq(s) =~= s.subrange(0, hi),
    decreases s.len(),
{
    if hi == s.len() {
        if s.len() > 0 && is_ascii_space(s.last()) {
            assert(false);
        }
        assert(s.subrange(0, s.len() as int) =~= s);
    } else {
        let t = s.drop_last();
        lemma_trim_back_at(t, hi);
        assert(t.subrange(0, hi) =~= s.subrange(0, hi));
    }
}

/// Copies `v` with each ASCII letter lower-cased.
pub fn to_lower(v: &Vec<u8>) -> (r: Vec<u8>)
    ensures
        r@ == lower_seq(v@),
{
    let mut r: Vec<u8> = Vec::new();
    let mut i: usize = 0;
    while i < v.len()
        invariant
            i <= v@.len(),
            r@ =~= lower_seq(v@).subrange(0, i as int),
        decreases v@.len() - i,
    {
        let b = v[i];
        if 65 <= b && b <= 90 {
            r.push(b + 32);
        } else {
            r.push(b);
        }
        i = i + 1;
        proof {
            assert(lower_seq(v@).subrange(0, i as int) =~= lower_seq(v@).subrange(
                0,
                i - 1,
            ).push(lower_byte(v@[i - 1])));
        }
    }
    proof {
        assert(lower_seq(v@).subrange(0, v@.len() as int) =~= lower_seq(v@));
    }
    r
}

/// Case-insensitive (ASCII) equality.
pub fn eq_ignore_case(a: &Vec<u8>, b: &Vec<u8>) -> (r: bool)
    ensures
        r == (lower_seq(a@) == lower_seq(b@)),
{
    if a.len() != b.len() {
        proof {
            assert(lower_seq(a@).len() != lower_seq(b@).len());
        }
        return false;
    }
    let mut i: usize = 0;
    while i < a.len()
        invariant
            a@.len() == b@.len(),
            i <= a@.len(),
            forall|j: int| 0 <= j < i ==> lower_byte(a@[j]) == lower_byte(b@[j]),
        decreases a@.len() - i,
    {
        let x = a[i];
        let y = b[i];
        let xl: u8 = if 65 <= x && x <= 90 {
            x + 32
        } else {
            x
        };
        let yl: u8 = if 65 <= y && y <= 90 {
            y + 32
        } else {
            y
        };
        if xl != yl {
            proof {
                assert(lower_seq(a@)[i as int] != lower_seq(b@)[i as int]);
            }
            return false;
        }
        i = i + 1;
    }
    proof {
        assert(lower_seq(a@) =~= lower_seq(b@));
    }
    true
}

/// Strips ASCII whitespace from both ends.
pub fn trim(v: &Vec<u8>) -> (r: Vec<u8>)
    ensures
        r@ == trim_seq(v@),
{
    let mut lo: usize = 0;
    while lo < v.len() && (v[lo as usize] == 32 || (9 <= v[lo as usize] && v[lo as usize] <= 13))
        invariant
            lo <= v@.len(),
            forall|i: int| 0 <= i < lo ==> is_ascii_space(#[trigger] v@[i]),
        decreases v@.len() - lo,
    {
        lo = lo + 1;
    }
    let mut hi: usize = v.len();
    while hi > lo && (v[hi - 1] == 32 || (9 <= v[hi - 1] && v[hi - 1] <= 13))
        invariant
            lo <= hi <= v@.len(),
            forall|i: int| 0 <= i < lo ==> is_ascii_space(#[trigger] v@[i]),
            forall|i: int| hi <= i < v@.len() ==> is_ascii_space(#[trigger] v@[i]),
        decreases hi,
    {
        hi = hi - 1;
    }
    let mut r: Vec<u8> = Vec::new();
    let mut i: usize = lo;
    while i < hi
        invariant
            lo <= i <= hi <= v@.len(),
            r@ =~= v@.subrange(lo as int, i as int),
        decreases hi - i,
    {
        r.push(v[i]);
        i = i + 1;
        proof {
            assert(v@.subrange(lo as int, i as int) =~= v@.subrange(lo as int, i - 1).push(
                v@[i - 1],
            ));
        }
    }
    proof {
        lemma_trim_front_at(v@, lo as int);
        let t = v@.subrange(lo as int, v@.len() as int);
        assert(forall|i: int| hi - lo <= i < t.len() ==> is_ascii_space(#[trigger] t[i]));
        lemma_trim_back_at(t, hi - lo);
        assert(t.subrange(0, hi - lo) =~= v@.subrange(lo as int, hi as int));
    }
    r
}

/// The bytes of `needle` stand at position `i` of `hay`.
pub(crate) fn match_at(hay: &Vec<u8>, needle: &Vec<u8>, i: usize) -> (r: bool)
    requires
        i + needle@.len() <= hay@.len(),
    ensures
        r == (hay@.subrange(i as int, i + needle@.len() as int) == needle@),
{
    let hlen: usize = hay.len();
    let mut k: usize = 0;
    while k < needle.len()
        invariant
            hlen == hay@.len(),
            i + needle@.len() <= hay@.len(),
            k <= needle@.len(),
            forall|m: int| 0 <= m < k ==> hay@[i + m] == needle@[m],
        decreases needle@.len() - k,
    {
        if hay[i + k] != needle[k] {
            proof {
                assert(hay@.subrange(i as int, i + needle@.len() as int)[k as int] != needle@[
                    k as int
                ]);
            }
            return false;
        }
        k = k + 1;
    }
    proof {
        assert(hay@.subrange(i as int, i + needle@.len() as int) =~= needle@);
    }
    true
}

/// `needle` occurs contiguously somewhere in `hay`.
pub fn contains_subslice(hay: &Vec<u8>, needle: &Vec<u8>) -> (r: bool)
    ensures
        r == has_subslice(hay@, needle@),
{
    if needle.len() > hay.len() {
        return false;
    }
    if needle.len() == 0 {
        proof {
            assert(hay@.subrange(0, 0 + needle@.len() as int) =~= needle@);
        }
        return true;
    }
    let mut i: usize = 0;
    loop
        invariant
            1 <= needle@.len() <= hay@.len(),
            0 <= i <= hay@.len() - needle@.len() + 1,
            forall|j: int|
                0 <= j < i ==> #[trigger] hay@.subrange(j, j + needle@.len() as int) != needle@,
        decreases hay@.len() - needle@.len() + 1 - i,
    {
        if i > hay.len() - needle.len() {
            proof {
                assert(forall|j: int|
                    0 <= j && j + needle@.len() <= hay@.len() ==> #[trigger] hay@.subrange(
                        j,
                        j + needle@.len() as int,
                    ) != needle@);
            }
            return false;
        }
        if match_at(hay, needle, i) {
            return true;
        }
        i = i + 1;
    }
}

/// `v` ends with `suffix`.
pub fn ends_with(v: &Vec<u8>, suffix: &Vec<u8>) -> (r: bool)
    ensures
        r == (v@.len() >= suffix@.len() && v@.subrange(
            v@.len() - suffix@.len(),
            v@.len() as int,
        ) == suffix@),
{
    if suffix.len() > v.len() {
        return false;
    }
    let base: usize = v.len() - suffix.len();
    let r = match_at(v, suffix, base);
    proof {
        assert(v@.subrange(v@.len() - suffix@.len(), v@.len() as int) == v@.subrange(
            base as int,
            base + suffix@.len() as int,
        ));
    }
    r
}

/// Exact byte equality.
pub(crate) fn bytes_eq(a: &Vec<u8>, b: &Vec<u8>) -> (r: bool)
    ensures
        r == (a@ == b@),
{
    if a.len() != b.len() {
        return false;
    }
    let r = match_at(a, b, 0);
    proof {
        assert(a@.subrange(0, 0 + b@.len() as int) =~= a@);
    }
    r
}

/// Appends all of `v` to `out`.
pub fn push_all(out: &mut Vec<u8>, v: &Vec<u8>)
    ensures
        final(out)@ == old(out)@ + v@,
{
    let mut i: usize = 0;
    while i < v.len()
        invariant
            i <= v@.len(),
            out@ =~= old(out)@ + v@.subrange(0, i as int),
        decreases v@.len() - i,
    {
        out.push(v[i]);
        i = i + 1;
        proof {
            assert(old(out)@ + v@.subrange(0, i as int) =~= (old(out)@ + v@.subrange(0, i - 1)).push(
                v@[i - 1],
            ));
        }
    }
    proof {
        assert(old(out)@ + v@.subrange(0, v@.len() as int) =~= old(out)@ + v@);
    }
}

} // verus!
