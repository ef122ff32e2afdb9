//! Mathematical model of the noise pattern: alignment counts, run
//! lengths, the three-symbol classification and the full signature,
//! together with the lemmas that tie them to the executable code.

use vstd::prelude::*;
use vstd::arithmetic::div_mod::{
    lemma_fundamental_div_mod, lemma_fundamental_div_mod_converse,
    lemma_mod_division_less_than_divisor, lemma_small_mod,
};
use vstd::arithmetic::power::{lemma_pow_increases, lemma_pow_positive, pow};

verus! {

/// Number of digit positions of `v`, from extraction step `k` up to
/// `base`, whose base-`base` digit equals the reference digit
/// `base - 1 - k`.
///
/// Digits are extracted least-significant first by repeated division,
/// exactly as the executable code does.
pub open spec fn count_aligned(v: nat, base: nat, k: nat) -> nat
    decreases base - k,
{
    if k >= base {
        0
    } else {
        (if v % base == base - 1 - k {
            1nat
        } else {
            0nat
        }) + count_aligned(v / base, base, k + 1)
    }
}

/// Alignment count of `v` in base `base`: how many of its `base`
/// least-significant digits match the reference pattern
/// `base - 1, base - 2, ..., 0` (least-significant digit first).
pub open spec fn aligned_spec(v: nat, base: nat) -> nat {
    count_aligned(v, base, 0)
}

proof fn lemma_count_aligned_le(v: nat, base: nat, k: nat)
    requires
        k <= base,
    ensures
        count_aligned(v, base, k) <= base - k,
    decreases base - k,
{
    if k < base {
        lemma_count_aligned_le(v / base, base, k + 1);
    }
}

/// The alignment count never exceeds the base.
pub proof fn lemma_aligned_le(v: nat, base: nat)
    ensures
        aligned_spec(v, base) <= base,
{
    lemma_count_aligned_le(v, base, 0);
}

/// How adding one changes the least-significant digit of `v` and the
/// remaining digits.
proof fn lemma_succ_div_mod(v: nat, base: nat)
    requires
        base >= 1,
    ensures
        v % base < base,
        v % base == base - 1 ==> (v + 1) % base == 0 && (v + 1) / base == v / base + 1,
        v % base < base - 1 ==> (v + 1) % base == v % base + 1 && (v + 1) / base == v / base,
{
    lemma_mod_division_less_than_divisor(v as int, base as int);
    lemma_fundamental_div_mod(v as int, base as int);
    let q: int = v as int / base as int;
    if v % base == base - 1 {
        assert((v + 1) as int == (q + 1) * base + 0) by (nonlinear_arith)
            requires
                v as int == base * q + (base - 1),
        ;
        lemma_fundamental_div_mod_converse((v + 1) as int, base as int, q + 1, 0);
    } else {
        assert((v + 1) as int == q * base + (v % base + 1)) by (nonlinear_arith)
            requires
                v as int == base * q + v % base,
        ;
        lemma_fundamental_div_mod_converse(
            (v + 1) as int,
            base as int,
            q,
            v as int % base as int + 1,
        );
    }
}

/// Adding one to a value whose least-significant digit is `base - 2`
/// bumps that digit onto the reference digit `base - 1` and leaves all
/// other digits unchanged, so the alignment count rises by exactly one.
proof fn lemma_aligned_step(v: nat, base: nat)
    requires
        base >= 2,
        v % base == base - 2,
    ensures
        aligned_spec(v + 1, base) == aligned_spec(v, base) + 1,
{
    lemma_succ_div_mod(v, base);
    assert(count_aligned(v + 1, base, 0) == 1 + count_aligned((v + 1) / base, base, 1));
    assert(count_aligned(v, base, 0) == count_aligned(v / base, base, 1));
}

/// Distance from `v` to the next value whose least-significant digit is
/// `base - 2`; adding one there is guaranteed to change the alignment
/// count, so runs of equal alignment cannot outlast this distance.
pub open spec fn steps_to_bump(v: nat, base: nat) -> nat {
    if v % base <= base - 2 {
        (base - 2 - v % base) as nat
    } else {
        (2 * base - 2 - v % base) as nat
    }
}

/// While alignment stays equal from one value to the next, the distance
/// to the next guaranteed change strictly decreases.
pub proof fn lemma_run_step(v: nat, base: nat)
    requires
        base >= 2,
        aligned_spec(v + 1, base) == aligned_spec(v, base),
    ensures
        steps_to_bump(v + 1, base) < steps_to_bump(v, base),
{
    if v % base == base - 2 {
        lemma_aligned_step(v, base);
    }
    lemma_succ_div_mod(v, base);
}

/// Number of immediate successors of `v` that share its alignment count.
pub open spec fn run_len(v: nat, base: nat) -> nat
    decreases steps_to_bump(v, base),
        when base >= 2
{
    if aligned_spec(v + 1, base) == aligned_spec(v, base) {
        proof {
            lemma_run_step(v, base);
        }
        1 + run_len(v + 1, base)
    } else {
        0
    }
}

proof fn lemma_run_len_le(v: nat, base: nat)
    requires
        base >= 2,
    ensures
        run_len(v, base) <= steps_to_bump(v, base),
        steps_to_bump(v, base) <= base - 1,
    decreases steps_to_bump(v, base),
{
    lemma_succ_div_mod(v, base);
    if aligned_spec(v + 1, base) == aligned_spec(v, base) {
        lemma_run_step(v, base);
        lemma_run_len_le(v + 1, base);
    }
}

/// `run_len` is the maximal run: every successor within the run shares
/// the alignment count of `v`, and the first value past the run differs
/// from its own predecessor.
pub proof fn lemma_run_len_maximal(v: nat, base: nat)
    requires
        base >= 2,
    ensures
        forall|j: int|
            1 <= j <= run_len(v, base) ==> #[trigger] aligned_spec((v + j) as nat, base)
                == aligned_spec(v, base),
        aligned_spec((v + run_len(v, base) + 1) as nat, base) != aligned_spec(
            (v + run_len(v, base)) as nat,
            base,
        ),
    decreases steps_to_bump(v, base),
{
    if aligned_spec(v + 1, base) == aligned_spec(v, base) {
        lemma_run_step(v, base);
        lemma_run_len_maximal(v + 1, base);
        let r: nat = run_len(v, base);
        assert forall|j: int| 1 <= j <= r implies #[trigger] aligned_spec((v + j) as nat, base)
            == aligned_spec(v, base) by {
            if j > 1 {
                assert(aligned_spec(((v + 1) + (j - 1)) as nat, base) == aligned_spec(
                    v + 1,
                    base,
                ));
            }
        }
        assert((v + r + 1) as nat == ((v + 1) + run_len(v + 1, base) + 1) as nat);
        assert((v + r) as nat == ((v + 1) + run_len(v + 1, base)) as nat);
    }
}

/// Every run length lies in `[0, base - 1]`.
pub proof fn lemma_run_len_range(v: nat, base: nat)
    requires
        base >= 2,
    ensures
        run_len(v, base) < base,
{
    lemma_run_len_le(v, base);
}

/// Stepping a value whose least-significant digit lies below `base - 2`
/// never changes the alignment count: the digit misses the reference
/// digit `base - 1` both before and after, and no carry occurs.
proof fn lemma_aligned_flat(v: nat, base: nat)
    requires
        base >= 2,
        v % base < base - 2,
    ensures
        aligned_spec(v + 1, base) == aligned_spec(v, base),
{
    lemma_succ_div_mod(v, base);
    assert(count_aligned(v + 1, base, 0) == count_aligned((v + 1) / base, base, 1));
    assert(count_aligned(v, base, 0) == count_aligned(v / base, base, 1));
}

/// A run starting at most at the bump digit extends exactly to the
/// bump: the alignment count is flat up to the value whose digit is
/// `base - 2` and rises one step after it.
proof fn lemma_run_to_bump(v: nat, base: nat)
    requires
        base >= 2,
        v % base <= base - 2,
    ensures
        run_len(v, base) == base - 2 - v % base,
    decreases base - 2 - v % base,
{
    lemma_succ_div_mod(v, base);
    if v % base == base - 2 {
        lemma_aligned_step(v, base);
    } else {
        lemma_aligned_flat(v, base);
        lemma_run_to_bump(v + 1, base);
    }
}

/// A run starting where the least-significant digit is `base - 1` is
/// either broken at once by the carry, or survives it and then runs
/// through the whole next digit cycle up to its bump.
proof fn lemma_run_at_top(v: nat, base: nat)
    requires
        base >= 2,
        v % base == base - 1,
    ensures
        run_len(v, base) == 0 || run_len(v, base) == base - 1,
{
    lemma_succ_div_mod(v, base);
    if aligned_spec(v + 1, base) == aligned_spec(v, base) {
        lemma_run_to_bump(v + 1, base);
    }
}

/// The run lengths consumed while generating the signature from cursor
/// position `v`, one entry per run; the trailing symbol of the
/// signature classifies no run and has no entry here.
pub open spec fn runs_from(v: nat, base: nat) -> Seq<nat>
    decreases (if v < period(base) {
        period(base) - v
    } else {
        0
    }),
{
    if v + 1 < period(base) {
        seq![run_len(v, base)] + runs_from(v + run_len(v, base) + 1, base)
    } else {
        Seq::empty()
    }
}

proof fn lemma_runs_three_values(v: nat, base: nat)
    requires
        base >= 2,
        v % base == 0 || v % base == base - 1,
    ensures
        forall|i: int|
            0 <= i < runs_from(v, base).len() ==> (#[trigger] runs_from(v, base)[i] == 0
                || runs_from(v, base)[i] == base - 2 || runs_from(v, base)[i] == base - 1),
    decreases (if v < period(base) {
        period(base) - v
    } else {
        0
    }),
{
    if v + 1 < period(base) {
        let r: nat = run_len(v, base);
        let q: int = v as int / base as int;
        lemma_fundamental_div_mod(v as int, base as int);
        if v % base == 0 {
            lemma_run_to_bump(v, base);
            assert((v + r + 1) as int == q * base + (base - 1)) by (nonlinear_arith)
                requires
                    v as int == base * q,
                    r == base - 2,
            ;
            lemma_fundamental_div_mod_converse(
                (v + r + 1) as int,
                base as int,
                q,
                base as int - 1,
            );
        } else {
            lemma_run_at_top(v, base);
            if r == 0 {
                lemma_succ_div_mod(v, base);
            } else {
                assert((v + r + 1) as int == (q + 1) * base + (base - 1)) by (nonlinear_arith)
                    requires
                        v as int == base * q + (base - 1),
                        r == base - 1,
                ;
                lemma_fundamental_div_mod_converse(
                    (v + r + 1) as int,
                    base as int,
                    q + 1,
                    base as int - 1,
                );
            }
        }
        lemma_runs_three_values(v + r + 1, base);
        let tail: Seq<nat> = runs_from(v + r + 1, base);
        assert forall|i: int| 0 <= i < runs_from(v, base).len() implies (#[trigger] runs_from(
            v,
            base,
        )[i] == 0 || runs_from(v, base)[i] == base - 2 || runs_from(v, base)[i] == base - 1) by {
            if i > 0 {
                assert(tail[i - 1] == 0 || tail[i - 1] == base - 2 || tail[i - 1] == base - 1);
            }
        }
    }
}

/// Core correctness invariant of the engine: every run length consumed
/// while generating a signature is exactly `0`, `base - 2` or
/// `base - 1` — never any other value. The cursor starts on a value
/// whose least-significant digit is `0` and only ever stops on values
/// whose least-significant digit is `0` or `base - 1`, and runs from
/// there have exactly these three lengths.
pub proof fn lemma_signature_runs_three_values(base: nat)
    requires
        base >= 2,
    ensures
        forall|i: int|
            0 <= i < runs_from(0, base).len() ==> (#[trigger] runs_from(0, base)[i] == 0
                || runs_from(0, base)[i] == base - 2 || runs_from(0, base)[i] == base - 1),
{
    lemma_small_mod(0, base);
    lemma_runs_three_values(0, base);
}

/// The signature is exactly the classification of the consumed run
/// lengths, followed by the conventional trailing `0` for the last
/// value of the period.
pub proof fn lemma_sig_classifies_runs(v: nat, base: nat)
    ensures
        sig_from(v, base) =~= runs_from(v, base).map_values(
            |r: nat| tri_spec(r, base),
        ).push(0u8),
    decreases (if v < period(base) {
        period(base) - v
    } else {
        0
    }),
{
    if v + 1 < period(base) {
        lemma_sig_classifies_runs(v + run_len(v, base) + 1, base);
    }
}

/// The value whose digits, extracted least-significant first starting
/// at step `k`, follow the reference pattern `base - 1 - k` for the
/// remaining steps.
pub open spec fn identity_from(base: nat, k: nat) -> nat
    decreases base - k,
{
    if k >= base {
        0
    } else {
        (base - 1 - k) as nat + base * identity_from(base, k + 1)
    }
}

/// The canonical identity value of a base: the number whose digit
/// sequence equals the reference pattern, such as `012` in base `3`.
pub open spec fn identity_value(base: nat) -> nat {
    identity_from(base, 0)
}

proof fn lemma_identity_from_aligned(base: nat, k: nat)
    requires
        k <= base,
    ensures
        count_aligned(identity_from(base, k), base, k) == base - k,
    decreases base - k,
{
    if k < base {
        let d: nat = (base - 1 - k) as nat;
        let rest: nat = identity_from(base, k + 1);
        assert((base * rest + d) as int == rest as int * base as int + d as int)
            by (nonlinear_arith);
        lemma_fundamental_div_mod_converse(
            (base * rest + d) as int,
            base as int,
            rest as int,
            d as int,
        );
        lemma_identity_from_aligned(base, k + 1);
    }
}

/// Every digit of the identity value matches the reference pattern, so
/// its alignment count reaches the maximum: the base itself.
pub proof fn lemma_identity_aligned(base: nat)
    requires
        base >= 2,
    ensures
        aligned_spec(identity_value(base), base) == base,
{
    lemma_identity_from_aligned(base, 0);
}

/// The three-symbol classification of a run length: `0` maps to `0`,
/// `base - 2` to `1`, and anything else to `2`.
pub open spec fn tri_spec(c: nat, base: nat) -> u8 {
    if c == 0 {
        0u8
    } else if c == base - 2 {
        1u8
    } else {
        2u8
    }
}

/// The period of the noise pattern in base `base`: after `base^base`
/// values the digit window repeats.
pub open spec fn period(base: nat) -> nat {
    pow(base as int, base) as nat
}

/// The signature from cursor position `v` to the end of the period:
/// one classified run length per run, and a final `0` for the last
/// value of the period, which by convention has no successors.
pub open spec fn sig_from(v: nat, base: nat) -> Seq<u8>
    decreases (if v < period(base) {
        period(base) - v
    } else {
        0
    }),
{
    if v + 1 < period(base) {
        seq![tri_spec(run_len(v, base), base)] + sig_from(v + run_len(v, base) + 1, base)
    } else {
        seq![0u8]
    }
}

/// Every signature, from any cursor position, is non-empty and ends
/// with the symbol `0`.
pub proof fn lemma_sig_ends_zero(v: nat, base: nat)
    ensures
        sig_from(v, base).len() >= 1,
        sig_from(v, base).last() == 0u8,
    decreases (if v < period(base) {
        period(base) - v
    } else {
        0
    }),
{
    if v + 1 < period(base) {
        lemma_sig_ends_zero(v + run_len(v, base) + 1, base);
    }
}

/// The signature is a function of the base alone: any two sequences
/// that satisfy the contract of `signature` for the same base are
/// equal, so repeated calls return identical output.
pub proof fn lemma_signature_deterministic(base: nat, s1: Seq<u8>, s2: Seq<u8>)
    requires
        s1 == sig_from(0, base),
        s2 == sig_from(0, base),
    ensures
        s1 == s2,
{
}

/// Raising a smaller base to the same power gives a smaller result.
proof fn lemma_pow_le_base(a: nat, b: nat, e: nat)
    requires
        1 <= a <= b,
    ensures
        pow(a as int, e) <= pow(b as int, e),
    decreases e,
{
    reveal(pow);
    if e > 0 {
        lemma_pow_le_base(a, b, (e - 1) as nat);
        lemma_pow_positive(a as int, (e - 1) as nat);
        let pa: int = pow(a as int, (e - 1) as nat);
        let pb: int = pow(b as int, (e - 1) as nat);
        assert(pow(a as int, e) == a as int * pa);
        assert(pow(b as int, e) == b as int * pb);
        assert(a as int * pa <= b as int * pb) by (nonlinear_arith)
            requires
                1 <= a <= b,
                0 < pa <= pb,
        ;
    }
}

/// For bases up to fifteen, the period `base^base` fits in a `u64`;
/// sixteen is the first base whose period does not.
pub proof fn lemma_period_bound(base: nat)
    requires
        2 <= base <= 15,
    ensures
        period(base) <= 437893890380859375,
{
    lemma_pow_le_base(base, 15, base);
    lemma_pow_increases(15, base, 15);
    lemma_pow_positive(base as int, base);
    assert(pow(15, 15) == 437893890380859375) by {
        reveal_with_fuel(pow, 16);
    };
}

} // verus!
