//! The algebraic laws of the `BigNum` operations, stated over the
//! mathematical model that the operations' contracts use. Each law holds of
//! any values that meet the corresponding contracts, so it holds of every
//! call of the operations.

use vstd::prelude::*;
use vstd::arithmetic::power2::{pow2, lemma_pow2_pos, lemma2_to64_rest};
use vstd::arithmetic::mul::{lemma_mul_basics, lemma_mul_is_commutative};
use vstd::arithmetic::div_mod::{
    lemma_small_mod, lemma_div_by_multiple, lemma_fundamental_div_mod,
    lemma_mod_division_less_than_divisor,
};
use core::cmp::Ordering;
use crate::bignum::BigNum;
use crate::model::{
    bits_value, is_normal, normalize_spec, cmp_of, lemma_normalize_spec, lemma_normal_unique,
};

verus! {

/// The value of the canonical single-bit zero representation is zero.
pub proof fn lemma_zero_seq()
    ensures
        is_normal(seq![false]),
        bits_value(seq![false]) == 0,
{
    assert(seq![false].drop_last() =~= Seq::<bool>::empty());
    assert(bits_value(Seq::<bool>::empty()) == 0);
}

/// Round trip: a `BigNum` holding the value of a 64-bit integer reads back
/// as that integer under the truncating conversion, for every such integer.
pub proof fn lemma_u64_round_trip(b: BigNum, v: u64)
    requires
        b.value() == v as nat,
    ensures
        b.value() % pow2(64) == v as nat,
{
    lemma2_to64_rest();
    lemma_small_mod(v as nat, pow2(64));
}

/// Normalization is idempotent: normalizing an already-normalized sequence
/// leaves it identical, so normalizing twice is normalizing once; and any
/// non-empty sequence of value zero normalizes to the single-bit zero.
pub proof fn lemma_normalize_idempotent(s: Seq<bool>)
    ensures
        is_normal(s) ==> normalize_spec(s) == s,
        normalize_spec(normalize_spec(s)) == normalize_spec(s),
        (s.len() >= 1 && bits_value(s) == 0) ==> normalize_spec(s) == seq![false],
{
    lemma_normalize_spec(s);
    if s.len() >= 1 {
        lemma_normalize_spec(normalize_spec(s));
        if bits_value(s) == 0 {
            lemma_zero_seq();
            lemma_normal_unique(normalize_spec(s), seq![false]);
        }
    }
}

/// Addition identity: any sum, in normal form, of a normal `x` and a zero
/// value is `x` itself.
pub proof fn lemma_add_identity(x: BigNum, z: BigNum, s: BigNum)
    requires
        x.wf(),
        z.value() == 0,
        s.wf(),
        s.value() == x.value() + z.value(),
    ensures
        s@ == x@,
{
    lemma_normal_unique(s@, x@);
}

/// Addition commutativity: the sums of `x + y` and of `y + x`, both in
/// normal form, are identical.
pub proof fn lemma_add_commutes(x: BigNum, y: BigNum, s1: BigNum, s2: BigNum)
    requires
        s1.wf(),
        s2.wf(),
        s1.value() == x.value() + y.value(),
        s2.value() == y.value() + x.value(),
    ensures
        s1@ == s2@,
{
    lemma_normal_unique(s1@, s2@);
}

/// Subtraction inverse: for `x >= y`, adding `y` back onto the difference
/// `x - y` restores `x` exactly.
pub proof fn lemma_subtract_inverse(x: BigNum, y: BigNum, diff: BigNum, s: BigNum)
    requires
        x.wf(),
        y.value() <= x.value(),
        diff.value() == x.value() - y.value(),
        s.wf(),
        s.value() == diff.value() + y.value(),
    ensures
        s@ == x@,
{
    lemma_normal_unique(s@, x@);
}

/// Multiplication identity: any product, in normal form, of a normal `x`
/// and a one value is `x` itself.
pub proof fn lemma_multiply_identity(x: BigNum, one: BigNum, p: BigNum)
    requires
        x.wf(),
        one.value() == 1,
        p.wf(),
        p.value() == x.value() * one.value(),
    ensures
        p@ == x@,
{
    lemma_mul_basics(x.value() as int);
    lemma_normal_unique(p@, x@);
}

/// Multiplication by zero: any product, in normal form, with a zero factor
/// is the canonical zero.
pub proof fn lemma_multiply_zero(x: BigNum, z: BigNum, p: BigNum)
    requires
        z.value() == 0,
        p.wf(),
        p.value() == x.value() * z.value(),
    ensures
        p@ == seq![false],
{
    lemma_mul_basics(x.value() as int);
    lemma_zero_seq();
    lemma_normal_unique(p@, seq![false]);
}

/// Division-remainder identity: for a non-zero divisor `y`, the quotient
/// times `y` plus the remainder restores the dividend `x` exactly, and the
/// remainder is strictly below `y`.
pub proof fn lemma_division_identity(x: BigNum, y: BigNum, q: BigNum, m: BigNum, prod: BigNum,
    s: BigNum)
    requires
        x.wf(),
        y.value() > 0,
        q.value() == x.value() / y.value(),
        m.value() == x.value() % y.value(),
        prod.value() == q.value() * y.value(),
        s.wf(),
        s.value() == prod.value() + m.value(),
    ensures
        s@ == x@,
        m.value() < y.value(),
{
    lemma_fundamental_div_mod(x.value() as int, y.value() as int);
    lemma_mul_is_commutative(y.value() as int, q.value() as int);
    lemma_mod_division_less_than_divisor(x.value() as int, y.value() as int);
    lemma_normal_unique(s@, x@);
}

/// Shift inverse: shifting any normal `x` up by `n` and the result back
/// down by `n` restores `x` exactly, for every `n`.
pub proof fn lemma_shift_inverse(x: BigNum, n: nat, up: BigNum, down: BigNum)
    requires
        x.wf(),
        up.value() == x.value() * pow2(n),
        down.wf(),
        down.value() == up.value() / pow2(n),
    ensures
        down@ == x@,
{
    lemma_pow2_pos(n);
    lemma_div_by_multiple(x.value() as int, pow2(n) as int);
    lemma_normal_unique(down@, x@);
}

/// Comparison totality: for any two values the three-way comparison yields
/// exactly one of the three orderings, each exactly when the corresponding
/// value relation holds; and it agrees with the ordering of the truncated
/// 64-bit readings whenever both values fit in 64 bits.
pub proof fn lemma_compare_total(a: nat, b: nat)
    ensures
        cmp_of(a, b) == Ordering::Less <==> a < b,
        cmp_of(a, b) == Ordering::Equal <==> a == b,
        cmp_of(a, b) == Ordering::Greater <==> a > b,
        (a < pow2(64) && b < pow2(64)) ==> cmp_of(a % pow2(64), b % pow2(64)) == cmp_of(a, b),
{
    lemma2_to64_rest();
    if a < pow2(64) && b < pow2(64) {
        lemma_small_mod(a, pow2(64));
        lemma_small_mod(b, pow2(64));
    }
}

} // verus!
