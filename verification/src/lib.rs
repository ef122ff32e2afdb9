//! A deterministic three-valued noise pattern over the natural numbers,
//! built from number theory alone.
//!
//! Every natural number `v` gets an alignment count: how many of the
//! `base` least-significant digits of its base-`base` representation
//! match the identity pattern `0, 1, ..., base - 1` (read from the most
//! significant position down). Counting how many immediate successors of
//! `v` share its alignment count gives a run length, and classifying
//! run lengths into three symbols over one full period `[0, base^base)`
//! yields the signature of the base: a reproducible, bounded noise
//! sequence.

use vstd::prelude::*;

pub mod model;

use crate::model::{
    aligned_spec, lemma_aligned_le, lemma_period_bound, lemma_run_len_range, lemma_sig_ends_zero,
    period, run_len, sig_from, steps_to_bump, tri_spec,
};
use vstd::arithmetic::power::{lemma_pow0, lemma_pow_increases, lemma_pow_positive, pow};

verus! {

/// Counts the number of aligned positions to the identity map.
///
/// The maximum number of aligned positions is equal to the base.
///
/// For example, `012` in base `3` is the identity map, so its value `5`
/// has `3` aligned positions.
pub fn aligned(v: u64, base: u8) -> (r: u8)
    requires
        base >= 2,
    ensures
        r as nat == aligned_spec(v as nat, base as nat),
        r <= base,
{
    let b: u64 = base as u64;
    let mut w: u64 = v;
    let mut sum: u8 = 0;
    let mut k: u8 = 0;
    proof {
        lemma_aligned_le(v as nat, base as nat);
    }
    while k < base
        invariant
            base >= 2,
            b == base as u64,
            k <= base,
            sum <= k,
            sum as nat + model::count_aligned(w as nat, base as nat, k as nat)
                == aligned_spec(v as nat, base as nat),
            aligned_spec(v as nat, base as nat) <= base,
        decreases base - k,
    {
        if w % b == (base - 1 - k) as u64 {
            sum = sum + 1;
        }
        w = w / b;
        k = k + 1;
    }
    sum
}

/// Returns the number of successors that share the number of aligned
/// positions.
///
/// This number can also be used to advance a cursor past the whole run.
pub fn next(v: u64, base: u8) -> (r: u8)
    requires
        base >= 2,
        v + base <= u64::MAX,
    ensures
        r as nat == run_len(v as nat, base as nat),
        r < base,
{
    let mut w: u64 = v;
    let mut sum: u8 = 0;
    let mut a: u8 = aligned(w, base);
    proof {
        lemma_run_len_range(v as nat, base as nat);
    }
    loop
        invariant_except_break
            base >= 2,
            v + base <= u64::MAX,
            w as nat == v as nat + sum as nat,
            a as nat == aligned_spec(w as nat, base as nat),
            sum as nat + run_len(w as nat, base as nat) == run_len(v as nat, base as nat),
            run_len(v as nat, base as nat) < base,
        ensures
            sum as nat == run_len(v as nat, base as nat),
            sum < base,
        decreases steps_to_bump(w as nat, base as nat),
    {
        let b: u8 = aligned(w + 1, base);
        if a == b {
            proof {
                model::lemma_run_step(w as nat, base as nat);
            }
            sum = sum + 1;
            w = w + 1;
        } else {
            break;
        }
        a = b;
    }
    sum
}

/// The largest base whose period `base^base` fits in a `u64`.
pub const MAX_BASE: u8 = 15;

/// Maps `0 => 0, base - 2 => 1, base - 1 => 2`.
pub fn tri(c: u8, base: u8) -> (r: u8)
    requires
        base >= 2,
    ensures
        r == tri_spec(c as nat, base as nat),
{
    if c == 0 {
        0
    } else if c == base - 2 {
        1
    } else {
        2
    }
}

/// Computes the period `base^base` of the noise pattern.
fn period_of(base: u8) -> (r: u64)
    requires
        2 <= base <= MAX_BASE,
    ensures
        r as nat == period(base as nat),
{
    let b: u64 = base as u64;
    let mut acc: u64 = 1;
    let mut i: u8 = 0;
    proof {
        lemma_period_bound(base as nat);
        lemma_pow0(base as int);
    }
    while i < base
        invariant
            2 <= base <= MAX_BASE,
            b == base as u64,
            i <= base,
            acc as nat == pow(base as int, i as nat),
            period(base as nat) <= 437893890380859375,
        decreases base - i,
    {
        proof {
            let p: int = pow(base as int, i as nat);
            let p1: int = pow(base as int, (i + 1) as nat);
            lemma_pow_increases(base as nat, (i + 1) as nat, base as nat);
            lemma_pow_positive(base as int, base as nat);
            assert(p1 == base as int * p) by {
                reveal(pow);
            };
            assert(p1 <= period(base as nat));
            assert(acc as int * b as int == p1) by (nonlinear_arith)
                requires
                    acc as int == p,
                    b as int == base as int,
                    p1 == base as int * p,
            ;
        }
        acc = acc * b;
        i = i + 1;
    }
    acc
}

/// Calculates the signature of successors with shared aligned positions.
pub fn signature(base: u8) -> (r: Vec<u8>)
    requires
        2 <= base <= MAX_BASE,
    ensures
        r@ == sig_from(0, base as nat),
        r@.len() >= 1,
        r@.last() == 0u8,
{
    let end: u64 = period_of(base);
    let mut v: u64 = 0;
    let mut r: Vec<u8> = Vec::new();
    proof {
        lemma_period_bound(base as nat);
    }
    // Do not include the end, since counting successors there would wrap
    // past the digit window.
    while v + 1 < end
        invariant
            2 <= base <= MAX_BASE,
            end as nat == period(base as nat),
            end <= 437893890380859375,
            v <= end + base,
            sig_from(0, base as nat) == r@ + sig_from(v as nat, base as nat),
        decreases (if v < end {
            end - v
        } else {
            0
        }),
    {
        let n: u8 = next(v, base);
        let t: u8 = tri(n, base);
        proof {
            assert((r@ + seq![t]) + sig_from(v as nat + n as nat + 1, base as nat) =~= r@
                + sig_from(v as nat, base as nat));
        }
        v = v + n as u64 + 1;
        r.push(t);
    }
    // The end of the period always has no successors.
    r.push(0);
    proof {
        assert(r@ =~= sig_from(0, base as nat));
        lemma_sig_ends_zero(0, base as nat);
    }
    r
}

/// The two ways a base can lie outside the domain of the engine.
#[derive(Clone, Copy, Debug, PartialEq, Eq, Structural)]
pub enum SignatureError {
    /// The base is below two, where digit extraction is degenerate.
    BaseTooSmall,
    /// The period `base^base` does not fit in a `u64`.
    PeriodOverflow,
}

/// Checks the base before computing its signature: bases below two and
/// bases whose period overflows a `u64` are rejected instead of being
/// truncated or wrapped.
pub fn try_signature(base: u8) -> (r: Result<Vec<u8>, SignatureError>)
    ensures
        base < 2 ==> r == Err::<Vec<u8>, SignatureError>(SignatureError::BaseTooSmall),
        base > MAX_BASE ==> r == Err::<Vec<u8>, SignatureError>(SignatureError::PeriodOverflow),
        2 <= base <= MAX_BASE ==> (r matches Ok(s) && s@ == sig_from(0, base as nat)),
{
    if base < 2 {
        Err(SignatureError::BaseTooSmall)
    } else if base > MAX_BASE {
        Err(SignatureError::PeriodOverflow)
    } else {
        Ok(signature(base))
    }
}

} // verus!
