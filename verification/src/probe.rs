//! Process detection: does any process name look like the monitored
//! application?
//!
//! The caller hands over the reported name and executable file name of
//! each process as plain byte strings; the match is a case-insensitive
//! substring test against a fixed set of tokens.

use vstd::prelude::*;

use crate::text::{contains_subslice, has_subslice, lower_seq, to_lower};

verus! {

/// Token `starcitizen`.
pub open spec fn token_starcitizen() -> Seq<u8> {
    seq![
        's' as u8, 't' as u8, 'a' as u8, 'r' as u8, 'c' as u8, 'i' as u8, 't' as u8, 'i' as u8,
        'z' as u8, 'e' as u8, 'n' as u8,
    ]
}

/// Token `star citizen`.
pub open spec fn token_star_citizen() -> Seq<u8> {
    seq![
        's' as u8, 't' as u8, 'a' as u8, 'r' as u8, ' ' as u8, 'c' as u8, 'i' as u8, 't' as u8,
        'i' as u8, 'z' as u8, 'e' as u8, 'n' as u8,
    ]
}

/// Token `starcitizen64`.
pub open spec fn token_starcitizen64() -> Seq<u8> {
    seq![
        's' as u8, 't' as u8, 'a' as u8, 'r' as u8, 'c' as u8, 'i' as u8, 't' as u8, 'i' as u8,
        'z' as u8, 'e' as u8, 'n' as u8, '6' as u8, '4' as u8,
    ]
}

/// Token `robertsspaceindustries`.
pub open spec fn token_rsi() -> Seq<u8> {
    seq![
        'r' as u8, 'o' as u8, 'b' as u8, 'e' as u8, 'r' as u8, 't' as u8, 's' as u8, 's' as u8,
        'p' as u8, 'a' as u8, 'c' as u8, 'e' as u8, 'i' as u8, 'n' as u8, 'd' as u8, 'u' as u8,
        's' as u8, 't' as u8, 'r' as u8, 'i' as u8, 'e' as u8, 's' as u8,
    ]
}

/// The fixed name tokens the probe looks for.
pub open spec fn probe_tokens() -> Seq<Seq<u8>> {
    seq![token_starcitizen(), token_star_citizen(), token_starcitizen64(), token_rsi()]
}

/// One reported name looks like the monitored application: lower-cased,
/// it contains some token.
pub open spec fn name_matches(name: Seq<u8>) -> bool {
    exists|t: int|
        0 <= t < probe_tokens().len() && has_subslice(lower_seq(name), #[trigger] probe_tokens()[t])
}

/// Some reported name matches.
pub open spec fn any_name_matches(names: Seq<Seq<u8>>) -> bool {
    exists|i: int| 0 <= i < names.len() && name_matches(#[trigger] names[i])
}

fn push_token_starcitizen(out: &mut Vec<Vec<u8>>)
    ensures
        final(out)@.len() == old(out)@.len() + 1,
        final(out)@ == old(out)@.push(final(out)@.last()),
        final(out)@.last()@ == token_starcitizen(),
{
    let mut t: Vec<u8> = Vec::new();
    t.push('s' as u8);
    t.push('t' as u8);
    t.push('a' as u8);
    t.push('r' as u8);
    t.push('c' as u8);
    t.push('i' as u8);
    t.push('t' as u8);
    t.push('i' as u8);
    t.push('z' as u8);
    t.push('e' as u8);
    t.push('n' as u8);
    proof {
        assert(t@ =~= token_starcitizen());
    }
    out.push(t);
}

fn push_token_star_citizen(out: &mut Vec<Vec<u8>>)
    ensures
        final(out)@.len() == old(out)@.len() + 1,
        final(out)@ == old(out)@.push(final(out)@.last()),
        final(out)@.last()@ == token_star_citizen(),
{
    let mut t: Vec<u8> = Vec::new();
    t.push('s' as u8);
    t.push('t' as u8);
    t.push('a' as u8);
    t.push('r' as u8);
    t.push(' ' as u8);
    t.push('c' as u8);
    t.push('i' as u8);
    t.push('t' as u8);
    t.push('i' as u8);
    t.push('z' as u8);
    t.push('e' as u8);
    t.push('n' as u8);
    proof {
        assert(t@ =~= token_star_citizen());
    }
    out.push(t);
}

fn push_token_starcitizen64(out: &mut Vec<Vec<u8>>)
    ensures
        final(out)@.len() == old(out)@.len() + 1,
        final(out)@ == old(out)@.push(final(out)@.last()),
        final(out)@.last()@ == token_starcitizen64(),
{
    let mut t: Vec<u8> = Vec::new();
    t.push('s' as u8);
    t.push('t' as u8);
    t.push('a' as u8);
    t.push('r' as u8);
    t.push('c' as u8);
    t.push('i' as u8);
    t.push('t' as u8);
    t.push('i' as u8);
    t.push('z' as u8);
    t.push('e' as u8);
    t.push('n' as u8);
    t.push('6' as u8);
    t.push('4' as u8);
    proof {
        assert(t@ =~= token_starcitizen64());
    }
    out.push(t);
}

fn push_token_rsi(out: &mut Vec<Vec<u8>>)
    ensures
        final(out)@.len() == old(out)@.len() + 1,
        final(out)@ == old(out)@.push(final(out)@.last()),
        final(out)@.last()@ == token_rsi(),
{
    let mut t: Vec<u8> = Vec::new();
    t.push('r' as u8);
    t.push('o' as u8);
    t.push('b' as u8);
    t.push('e' as u8);
    t.push('r' as u8);
    t.push('t' as u8);
    t.push('s' as u8);
    t.push('s' as u8);
    t.push('p' as u8);
    t.push('a' as u8);
    t.push('c' as u8);
    t.push('e' as u8);
    t.push('i' as u8);
    t.push('n' as u8);
    t.push('d' as u8);
    t.push('u' as u8);
    t.push('s' as u8);
    t.push('t' as u8);
    t.push('r' as u8);
    t.push('i' as u8);
    t.push('e' as u8);
    t.push('s' as u8);
    proof {
        assert(t@ =~= token_rsi());
    }
    out.push(t);
}

/// The fixed tokens, as runtime values.
pub fn process_tokens() -> (r: Vec<Vec<u8>>)
    ensures
        r@.len() == probe_tokens().len(),
        forall|t: int| 0 <= t < r@.len() ==> (#[trigger] r@[t])@ == probe_tokens()[t],
{
    let mut r: Vec<Vec<u8>> = Vec::new();
    push_token_starcitizen(&mut r);
    push_token_star_citizen(&mut r);
    push_token_starcitizen64(&mut r);
    push_token_rsi(&mut r);
    proof {
        assert(r@[0]@ == probe_tokens()[0]);
        assert(r@[1]@ == probe_tokens()[1]);
        assert(r@[2]@ == probe_tokens()[2]);
        assert(r@[3]@ == probe_tokens()[3]);
    }
    r
}

/// Whether any reported process name looks like the monitored
/// application: a case-insensitive substring match of the fixed tokens.
pub fn is_target_running(names: &Vec<Vec<u8>>) -> (r: bool)
    ensures
        r == any_name_matches(names@.map_values(|v: Vec<u8>| v@)),
{
    let tokens = process_tokens();
    let ghost nv = names@.map_values(|v: Vec<u8>| v@);
    let mut i: usize = 0;
    while i < names.len()
        invariant
            i <= names@.len(),
            nv == names@.map_values(|v: Vec<u8>| v@),
            tokens@.len() == probe_tokens().len(),
            forall|t: int| 0 <= t < tokens@.len() ==> (#[trigger] tokens@[t])@ == probe_tokens()[t],
            forall|j: int| 0 <= j < i ==> !name_matches(#[trigger] nv[j]),
        decreases names@.len() - i,
    {
        let lowered = to_lower(&names[i]);
        let mut t: usize = 0;
        while t < tokens.len()
            invariant
                i < names@.len(),
                nv == names@.map_values(|v: Vec<u8>| v@),
                t <= tokens@.len(),
                tokens@.len() == probe_tokens().len(),
                forall|k: int|
                    0 <= k < tokens@.len() ==> (#[trigger] tokens@[k])@ == probe_tokens()[k],
                lowered@ == lower_seq(names@[i as int]@),
                forall|k: int|
                    0 <= k < t ==> !has_subslice(lower_seq(nv[i as int]), #[trigger] probe_tokens()[
                        k
                    ]),
            decreases tokens@.len() - t,
        {
            if contains_subslice(&lowered, &tokens[t]) {
                proof {
                    assert(nv[i as int] == names@[i as int]@);
                    assert(has_subslice(lower_seq(nv[i as int]), probe_tokens()[t as int]));
                }
                return true;
            }
            t = t + 1;
        }
        proof {
            assert(nv[i as int] == names@[i as int]@);
            assert(!name_matches(nv[i as int]));
        }
        i = i + 1;
    }
    false
}

} // verus!
