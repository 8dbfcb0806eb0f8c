//! Decimal rendering and parsing of integers, with round-trip lemmas.
//!
//! The persisted record formats and the CSV export render numbers with
//! these functions, and the record parsers read them back; the round-trip
//! lemmas here carry the round-trip guarantees of the whole codec.

use vstd::prelude::*;

verus! {

/// Decimal digit bytes of `n`, most significant first, no leading zeros
/// (the single digit `0` for zero).
pub open spec fn dec_digits(n: nat) -> Seq<u8>
    decreases n,
{
    if n < 10 {
        seq![(48 + n) as u8]
    } else {
        dec_digits(n / 10) + seq![(48 + n % 10) as u8]
    }
}

/// Decimal rendering of a signed value: a leading `-` for negatives.
pub open spec fn dec_digits_i64(n: int) -> Seq<u8> {
    if n < 0 {
        seq![45u8] + dec_digits((-n) as nat)
    } else {
        dec_digits(n as nat)
    }
}

pub open spec fn is_digit(b: u8) -> bool {
    48 <= b <= 57
}

pub open spec fn all_digits(s: Seq<u8>) -> bool {
    forall|i: int| 0 <= i < s.len() ==> is_digit(#[trigger] s[i])
}

/// Value of a string of decimal digits, most significant first.
pub open spec fn dec_val(s: Seq<u8>) -> nat
    decreases s.len(),
{
    if s.len() == 0 {
        0
    } else {
        dec_val(s.drop_last()) * 10 + (if s.last() >= 48 { (s.last() - 48) as nat } else { 0 })
    }
}

/// The digits of `n` form a digit string that evaluates back to `n`.
pub proof fn lemma_dec_digits_val(n: nat)
    ensures
        dec_digits(n).len() >= 1,
        all_digits(dec_digits(n)),
        dec_val(dec_digits(n)) == n,
    decreases n,
{
    if n < 10 {
        let s = dec_digits(n);
        assert(s.drop_last() =~= Seq::<u8>::empty());
        assert(dec_val(s.drop_last()) == 0);
        assert(s.last() == (48 + n) as u8);
        assert(dec_val(s) == n);
    } else {
        lemma_dec_digits_val(n / 10);
        let whole = dec_digits(n);
        let prefix = dec_digits(n / 10);
        assert(whole.drop_last() =~= prefix);
        assert(whole.last() == (48 + n % 10) as u8);
        assert(dec_val(whole) == dec_val(prefix) * 10 + n % 10);
    }
}

/// A digit string is worth no more than any extension of it by digits.
pub proof fn lemma_dec_val_prefix_le(s: Seq<u8>, i: int)
    requires
        0 <= i <= s.len(),
    ensures
        dec_val(s.subrange(0, i)) <= dec_val(s),
    decreases s.len() - i,
{
    if i == s.len() {
        assert(s.subrange(0, i) =~= s);
    } else {
        lemma_dec_val_prefix_le(s, i + 1);
        let shorter = s.subrange(0, i);
        let longer = s.subrange(0, i + 1);
        assert(longer.drop_last() =~= shorter);
        assert(dec_val(longer) == dec_val(shorter) * 10 + (if longer.last() >= 48 {
            (longer.last() - 48) as nat
        } else {
            0
        }));
    }
}

/// Renders `n` in decimal.
pub fn format_u64(n: u64) -> (r: Vec<u8>)
    ensures
        r@ == dec_digits(n as nat),
{
    let mut rev: Vec<u8> = Vec::new();
    let mut m: u64 = n;
    while m >= 10
        invariant
            dec_digits(n as nat) =~= dec_digits(m as nat) + rev@.reverse(),
        decreases m,
    {
        let d: u8 = (m % 10) as u8;
        rev.push(48 + d);
        proof {
            assert(rev@.reverse() =~= seq![(48 + m % 10) as u8] + rev@.drop_last().reverse());
            assert(dec_digits(m as nat) =~= dec_digits((m as nat) / 10) + seq![(48 + m % 10) as u8]);
        }
        m = m / 10;
    }
    let mut r: Vec<u8> = Vec::new();
    r.push(48 + m as u8);
    let mut j: usize = rev.len();
    while j > 0
        invariant
            j <= rev.len(),
            r@ =~= dec_digits(m as nat) + rev@.subrange(j as int, rev@.len() as int).reverse(),
            dec_digits(n as nat) =~= dec_digits(m as nat) + rev@.reverse(),
            m < 10,
        decreases j,
    {
        j = j - 1;
        r.push(rev[j]);
        proof {
            let tail = rev@.subrange(j as int, rev@.len() as int);
            assert(tail.reverse() =~= rev@.subrange(j + 1, rev@.len() as int).reverse().push(
                rev@[j as int],
            ));
        }
    }
    proof {
        assert(rev@.subrange(0, rev@.len() as int) =~= rev@);
    }
    r
}

/// Renders `n` in decimal, with a leading `-` for negatives.
pub fn format_i64(n: i64) -> (r: Vec<u8>)
    ensures
        r@ == dec_digits_i64(n as int),
{
    if n >= 0 {
        format_u64(n as u64)
    } else {
        let mag: u64 = if n == i64::MIN {
            9223372036854775808u64
        } else {
            (-n) as u64
        };
        let digits = format_u64(mag);
        let mut r: Vec<u8> = Vec::new();
        r.push(45);
        let mut i: usize = 0;
        while i < digits.len()
            invariant
                i <= digits.len(),
                r@ =~= seq![45u8] + digits@.subrange(0, i as int),
            decreases digits.len() - i,
        {
            r.push(digits[i]);
            i = i + 1;
            proof {
                assert(digits@.subrange(0, i as int) =~= digits@.subrange(0, i - 1).push(
                    digits@[i - 1],
                ));
            }
        }
        proof {
            assert(digits@.subrange(0, digits@.len() as int) =~= digits@);
        }
        r
    }
}

/// Reads a run of decimal digits starting at `start`.
///
/// On success returns the value and the position just past the run.
/// Fails when no digit stands at `start` or the full run does not fit
/// in a `u64`.
pub fn parse_u64_at(s: &Vec<u8>, start: usize) -> (r: Option<(u64, usize)>)
    ensures
        match r {
            Some((v, end)) => {
                &&& start < end <= s@.len()
                &&& all_digits(s@.subrange(start as int, end as int))
                &&& (end == s@.len() || !is_digit(s@[end as int]))
                &&& v as nat == dec_val(s@.subrange(start as int, end as int))
            },
            None => start >= s@.len() || !is_digit(s@[start as int]) || exists|j: int|
                start < j <= s@.len() && all_digits(
                    #[trigger] s@.subrange(start as int, j),
                ) && dec_val(s@.subrange(start as int, j)) > u64::MAX,
        },
{
    if start >= s.len() {
        return None;
    }
    if !(48 <= s[start] && s[start] <= 57) {
        return None;
    }
    let mut acc: u64 = 0;
    let mut k: usize = start;
    while k < s.len() && 48 <= s[k] && s[k] <= 57
        invariant
            start <= k <= s@.len(),
            all_digits(s@.subrange(start as int, k as int)),
            acc as nat == dec_val(s@.subrange(start as int, k as int)),
        decreases s@.len() - k,
    {
        let d: u64 = (s[k] - 48) as u64;
        if acc > (u64::MAX - d) / 10 {
            proof {
                let run = s@.subrange(start as int, k + 1);
                assert(run.drop_last() =~= s@.subrange(start as int, k as int));
                assert(dec_val(run) == acc * 10 + d);
                assert(acc * 10 + d > u64::MAX) by (nonlinear_arith)
                    requires
                        acc > (u64::MAX - d) / 10,
                        d < 10,
                        acc <= u64::MAX,
                ;
            }
            return None;
        }
        proof {
            assert(acc * 10 + d <= u64::MAX) by (nonlinear_arith)
                requires
                    acc <= (u64::MAX - d) / 10,
                    d < 10,
            ;
            let run = s@.subrange(start as int, k + 1);
            assert(run.drop_last() =~= s@.subrange(start as int, k as int));
            assert(run.last() == s@[k as int]);
        }
        acc = acc * 10 + d;
        k = k + 1;
    }
    Some((acc, k))
}

/// Position just past the run of decimal digits starting at `j`.
pub open spec fn digit_run_end(s: Seq<u8>, j: int) -> int
    decreases s.len() - j,
{
    if 0 <= j && j < s.len() && is_digit(s[j]) {
        digit_run_end(s, j + 1)
    } else {
        j
    }
}

pub proof fn lemma_digit_run_end_props(s: Seq<u8>, j: int)
    requires
        0 <= j <= s.len(),
    ensures
        j <= digit_run_end(s, j) <= s.len(),
        all_digits(s.subrange(j, digit_run_end(s, j))),
        digit_run_end(s, j) == s.len() || !is_digit(s[digit_run_end(s, j)]),
    decreases s.len() - j,
{
    if j < s.len() && is_digit(s[j]) {
        lemma_digit_run_end_props(s, j + 1);
        let e = digit_run_end(s, j);
        assert forall|i: int| 0 <= i < e - j implies is_digit(
            #[trigger] s.subrange(j, e)[i],
        ) by {
            if i == 0 {
            } else {
                assert(s.subrange(j + 1, e)[i - 1] == s.subrange(j, e)[i]);
            }
        }
    } else {
        assert(s.subrange(j, j) =~= Seq::<u8>::empty());
    }
}

/// The digit run ending conditions pin the run's end down.
pub proof fn lemma_digit_run_end_unique(s: Seq<u8>, j: int, e: int)
    requires
        0 <= j <= e <= s.len(),
        all_digits(s.subrange(j, e)),
        e == s.len() || !is_digit(s[e]),
    ensures
        digit_run_end(s, j) == e,
    decreases e - j,
{
    if j == e {
    } else {
        assert(is_digit(s[j])) by {
            assert(s.subrange(j, e)[0] == s[j]);
        }
        assert forall|i: int| 0 <= i < e - (j + 1) implies is_digit(
            #[trigger] s.subrange(j + 1, e)[i],
        ) by {
            assert(s.subrange(j, e)[i + 1] == s.subrange(j + 1, e)[i]);
        }
        lemma_digit_run_end_unique(s, j + 1, e);
    }
}

/// What a successful `u64` read from position `i` must return: the value
/// of the maximal digit run, provided it starts with a digit and fits.
pub open spec fn spec_parse_u64(s: Seq<u8>, i: int) -> Option<(u64, int)> {
    if !(0 <= i < s.len()) || !is_digit(s[i]) {
        None
    } else {
        let e = digit_run_end(s, i);
        let v = dec_val(s.subrange(i, e));
        if v > u64::MAX {
            None
        } else {
            Some((v as u64, e))
        }
    }
}

/// `parse_u64_at`, with its result pinned to `spec_parse_u64`.
pub fn parse_u64_spec(s: &Vec<u8>, start: usize) -> (r: Option<(u64, usize)>)
    ensures
        match r {
            Some((v, e)) => e <= s@.len() && spec_parse_u64(s@, start as int) == Some(
                (v, e as int),
            ),
            None => spec_parse_u64(s@, start as int) is None,
        },
{
    let r = parse_u64_at(s, start);
    proof {
        lemma_digit_run_end_props(s@, if start as int <= s@.len() {
            start as int
        } else {
            s@.len() as int
        });
        match r {
            Some((v, e)) => {
                lemma_digit_run_end_unique(s@, start as int, e as int);
            },
            None => {
                if start < s@.len() && is_digit(s@[start as int]) {
                    let j = choose|j: int|
                        start < j <= s@.len() && all_digits(
                            #[trigger] s@.subrange(start as int, j),
                        ) && dec_val(s@.subrange(start as int, j)) > u64::MAX;
                    let e = digit_run_end(s@, start as int);
                    if j > e {
                        assert(is_digit(s@[e])) by {
                            assert(s@.subrange(start as int, j)[e - start] == s@[e]);
                        }
                        assert(false);
                    }
                    assert(s@.subrange(start as int, j) =~= s@.subrange(start as int, e).subrange(
                        0,
                        j - start,
                    ));
                    lemma_dec_val_prefix_le(s@.subrange(start as int, e), j - start);
                }
            },
        }
    }
    r
}

/// What a signed read from position `i` must return: a leading `-` turns
/// the digit run's value negative; the value must fit in an `i64`.
pub open spec fn spec_parse_i64(s: Seq<u8>, i: int) -> Option<(i64, int)> {
    if 0 <= i < s.len() && s[i] == 45 {
        match spec_parse_u64(s, i + 1) {
            None => None,
            Some((m, e)) => if m <= 0x8000000000000000u64 {
                Some(((-(m as int)) as i64, e))
            } else {
                None
            },
        }
    } else {
        match spec_parse_u64(s, i) {
            None => None,
            Some((v, e)) => if v <= i64::MAX as u64 {
                Some((v as i64, e))
            } else {
                None
            },
        }
    }
}

/// Reads an optionally-signed decimal value.
pub fn parse_i64_at(s: &Vec<u8>, start: usize) -> (r: Option<(i64, usize)>)
    ensures
        match r {
            Some((v, e)) => e <= s@.len() && spec_parse_i64(s@, start as int) == Some(
                (v, e as int),
            ),
            None => spec_parse_i64(s@, start as int) is None,
        },
{
    if start < s.len() && s[start] == 45 {
        match parse_u64_spec(s, start + 1) {
            None => None,
            Some((m, e)) => {
                if m <= 9223372036854775808u64 {
                    let v: i64 = if m == 9223372036854775808u64 {
                        i64::MIN
                    } else {
                        -(m as i64)
                    };
                    Some((v, e))
                } else {
                    None
                }
            },
        }
    } else {
        match parse_u64_spec(s, start) {
            None => None,
            Some((v, e)) => {
                if v <= 9223372036854775807u64 {
                    Some((v as i64, e))
                } else {
                    None
                }
            },
        }
    }
}

/// The parsers read back exactly what the decimal renderer wrote: an
/// unsigned value.
pub proof fn lemma_spec_parse_u64_of_format(s: Seq<u8>, start: int, end: int, n: u64)
    requires
        0 <= start <= end <= s.len(),
        s.subrange(start, end) == dec_digits(n as nat),
        end == s.len() || !is_digit(s[end]),
    ensures
        spec_parse_u64(s, start) == Some((n, end)),
{
    lemma_dec_digits_val(n as nat);
    assert(is_digit(s[start])) by {
        assert(s.subrange(start, end)[0] == s[start]);
    }
    assert(all_digits(s.subrange(start, end)));
    lemma_digit_run_end_unique(s, start, end);
}

/// The parsers read back exactly what the decimal renderer wrote: a
/// signed value.
pub proof fn lemma_spec_parse_i64_of_format(s: Seq<u8>, start: int, end: int, n: i64)
    requires
        0 <= start <= end <= s.len(),
        s.subrange(start, end) == dec_digits_i64(n as int),
        end == s.len() || !is_digit(s[end]),
    ensures
        spec_parse_i64(s, start) == Some((n, end)),
{
    if n >= 0 {
        lemma_dec_digits_val(n as nat);
        lemma_spec_parse_u64_of_format(s, start, end, n as u64);
        assert(s[start] != 45) by {
            assert(s.subrange(start, end)[0] == s[start]);
            assert(is_digit(dec_digits(n as nat)[0])) by {
                lemma_dec_digits_val(n as nat);
            }
        }
    } else {
        let mag = (-(n as int)) as nat;
        lemma_dec_digits_val(mag);
        assert(dec_digits_i64(n as int) =~= seq![45u8] + dec_digits(mag));
        assert(end - start >= 2);
        assert(s[start] == 45) by {
            assert(s.subrange(start, end)[0] == s[start]);
            assert((seq![45u8] + dec_digits(mag))[0] == 45u8);
        }
        assert(s.subrange(start + 1, end) =~= dec_digits(mag)) by {
            assert forall|i: int| 0 <= i < end - start - 1 implies s.subrange(start + 1, end)[i]
                == dec_digits(mag)[i] by {
                assert(s.subrange(start, end)[i + 1] == s.subrange(start + 1, end)[i]);
            }
        }
        lemma_spec_parse_u64_of_format(s, start + 1, end, mag as u64);
    }
}

} // verus!
