//! The mathematical model of the bit-vector representation: the numeric value
//! of a little-endian bit sequence, the normal form, and the lemmas that the
//! arithmetic operations are proved against.

use vstd::prelude::*;
use vstd::arithmetic::power2::{pow2, lemma_pow2_adds, lemma_pow2_pos, lemma2_to64};
use vstd::arithmetic::mul::{lemma_mul_is_distributive_add, lemma_mul_is_associative};

verus! {

/// The non-negative integer denoted by a bit sequence, least-significant
/// bit first: bit `i` contributes `pow2(i)` when set.
pub open spec fn bits_value(s: Seq<bool>) -> nat
    decreases s.len(),
{
    if s.len() == 0 {
        0
    } else {
        bits_value(s.drop_last()) + if s.last() {
            pow2((s.len() - 1) as nat)
        } else {
            0
        }
    }
}

/// Normal form: at least one bit, and no superfluous high-order zero bit.
/// The single-bit sequence `[false]` is the normal representation of zero.
pub open spec fn is_normal(s: Seq<bool>) -> bool {
    s.len() >= 1 && (s.len() == 1 || s.last())
}

/// Stripping high-order zero bits down to a single remaining bit.
pub open spec fn normalize_spec(s: Seq<bool>) -> Seq<bool>
    decreases s.len(),
{
    if s.len() <= 1 || s.last() {
        s
    } else {
        normalize_spec(s.drop_last())
    }
}

/// The value of the prefix of `s` of length `i`, reading past the end as
/// zero bits; the value that a scan of the low `i` positions has consumed.
pub open spec fn prefix_value(s: Seq<bool>, i: int) -> nat
    recommends
        0 <= i,
{
    if i <= s.len() {
        bits_value(s.take(i))
    } else {
        bits_value(s)
    }
}

/// The binary digits of a bit sequence as characters, most significant
/// bit first.
pub open spec fn msb_chars(s: Seq<bool>) -> Seq<char> {
    Seq::new(s.len(), |j: int| if s[s.len() - 1 - j] {
        '1'
    } else {
        '0'
    })
}

/// Extending a padded prefix by one position adds the weight of that
/// position's bit, where positions past the end read as zero.
pub proof fn lemma_prefix_succ(s: Seq<bool>, i: int)
    requires
        0 <= i,
    ensures
        prefix_value(s, i + 1) == prefix_value(s, i) + if 0 <= i < s.len() && s[i] {
            pow2(i as nat)
        } else {
            0nat
        },
{
    if i < s.len() {
        lemma_value_take_succ(s, i);
    } else if i == s.len() {
        lemma_value_take_all(s);
    }
}

/// A padded prefix that reaches past the end carries the whole value.
pub proof fn lemma_prefix_all(s: Seq<bool>, i: int)
    requires
        i >= s.len(),
    ensures
        prefix_value(s, i) == bits_value(s),
{
    if i == s.len() {
        lemma_value_take_all(s);
    }
}

/// Extending a prefix by one position adds the weight of that position's bit.
pub proof fn lemma_value_take_succ(s: Seq<bool>, k: int)
    requires
        0 <= k < s.len(),
    ensures
        bits_value(s.take(k + 1)) == bits_value(s.take(k)) + if s[k] {
            pow2(k as nat)
        } else {
            0
        },
{
    assert(s.take(k + 1).drop_last() =~= s.take(k));
    assert(s.take(k + 1).last() == s[k]);
}

/// The full-length prefix carries the whole value.
pub proof fn lemma_value_take_all(s: Seq<bool>)
    ensures
        bits_value(s.take(s.len() as int)) == bits_value(s),
{
    assert(s.take(s.len() as int) =~= s);
}

/// A sequence of `n` bits denotes a value below `pow2(n)`.
pub proof fn lemma_value_bound(s: Seq<bool>)
    ensures
        bits_value(s) < pow2(s.len()),
    decreases s.len(),
{
    if s.len() == 0 {
        lemma2_to64();
    } else {
        lemma_value_bound(s.drop_last());
        lemma_pow2_adds((s.len() - 1) as nat, 1);
        lemma2_to64();
    }
}

/// A sequence whose top bit is set denotes at least that bit's weight.
pub proof fn lemma_value_msb(s: Seq<bool>)
    requires
        s.len() >= 1,
        s.last(),
    ensures
        bits_value(s) >= pow2((s.len() - 1) as nat),
{
}

/// The value is zero exactly when every bit is clear.
pub proof fn lemma_value_zero(s: Seq<bool>)
    ensures
        bits_value(s) == 0 <==> (forall|i: int| 0 <= i < s.len() ==> !s[i]),
    decreases s.len(),
{
    if s.len() == 0 {
    } else {
        lemma_value_zero(s.drop_last());
        lemma_pow2_pos((s.len() - 1) as nat);
        if bits_value(s) == 0 {
            assert(forall|i: int| 0 <= i < s.len() - 1 ==> !s.drop_last()[i]);
            assert(forall|i: int| 0 <= i < s.len() ==> !s[i]) by {
                assert(forall|i: int| 0 <= i < s.len() - 1 ==> s[i] == s.drop_last()[i]);
            }
        }
        if forall|i: int| 0 <= i < s.len() ==> !s[i] {
            assert(forall|i: int| 0 <= i < s.len() - 1 ==> !s.drop_last()[i]);
        }
    }
}

/// Reading a suffix one position further down doubles its value and adds
/// the bit at that position.
pub proof fn lemma_value_skip_succ(s: Seq<bool>, i: int)
    requires
        0 <= i < s.len(),
    ensures
        bits_value(s.skip(i)) == (if s[i] {
            1nat
        } else {
            0nat
        }) + 2 * bits_value(s.skip(i + 1)),
    decreases s.len(),
{
    if i == s.len() - 1 {
        assert(s.skip(i + 1) =~= Seq::<bool>::empty());
        assert(s.skip(i).drop_last() =~= Seq::<bool>::empty());
        assert(s.skip(i).last() == s[i]);
        lemma2_to64();
    } else {
        let d = s.drop_last();
        lemma_value_skip_succ(d, i);
        assert(s.skip(i).drop_last() =~= d.skip(i));
        assert(s.skip(i + 1).drop_last() =~= d.skip(i + 1));
        assert(s.skip(i).last() == s.last());
        assert(s.skip(i + 1).last() == s.last());
        lemma_pow2_adds((s.len() - i - 2) as nat, 1);
        lemma2_to64();
    }
}

/// The value splits at any position into the low prefix plus the weighted
/// high suffix.
pub proof fn lemma_value_split(s: Seq<bool>, k: int)
    requires
        0 <= k <= s.len(),
    ensures
        bits_value(s) == bits_value(s.take(k)) + pow2(k as nat) * bits_value(s.skip(k)),
    decreases s.len() - k,
{
    if k == s.len() {
        lemma_value_take_all(s);
        assert(s.skip(k) =~= Seq::<bool>::empty());
    } else {
        lemma_value_split(s, k + 1);
        lemma_value_take_succ(s, k);
        lemma_value_skip_succ(s, k);
        let b: nat = if s[k] { 1nat } else { 0nat };
        let x = bits_value(s.skip(k + 1));
        lemma_pow2_adds(k as nat, 1);
        lemma2_to64();
        assert(pow2(k as nat) * (b + 2 * x) == pow2(k as nat) * b + pow2(k as nat) * (2 * x))
            by {
            lemma_mul_is_distributive_add(pow2(k as nat) as int, b as int, 2 * (x as int));
        }
        assert(pow2(k as nat) * (2 * x) == (pow2(k as nat) * 2) * x) by {
            lemma_mul_is_associative(pow2(k as nat) as int, 2, x as int);
        }
        assert(pow2((k + 1) as nat) * x == (pow2(k as nat) * 2) * x);
    }
}

/// Normalization preserves the value, never lengthens the sequence, and
/// yields the normal form of any non-empty sequence; a sequence already in
/// normal form is left as it is.
pub proof fn lemma_normalize_spec(s: Seq<bool>)
    ensures
        bits_value(normalize_spec(s)) == bits_value(s),
        normalize_spec(s).len() <= s.len(),
        s.len() >= 1 ==> is_normal(normalize_spec(s)),
        is_normal(s) ==> normalize_spec(s) == s,
    decreases s.len(),
{
    if s.len() <= 1 || s.last() {
    } else {
        lemma_normalize_spec(s.drop_last());
    }
}

/// Sequences of equal length with equal values are equal bit for bit.
pub proof fn lemma_value_eq_bits(s: Seq<bool>, t: Seq<bool>)
    requires
        s.len() == t.len(),
        bits_value(s) == bits_value(t),
    ensures
        s == t,
    decreases s.len(),
{
    if s.len() == 0 {
        assert(s =~= t);
    } else {
        lemma_value_bound(s.drop_last());
        lemma_value_bound(t.drop_last());
        assert(s.last() == t.last());
        lemma_value_eq_bits(s.drop_last(), t.drop_last());
        assert(s =~= t) by {
            assert(forall|i: int|
                0 <= i < s.len() - 1 ==> s[i] == s.drop_last()[i] && t[i] == t.drop_last()[i]);
        }
    }
}

/// Of two normal sequences, the longer denotes the larger value.
pub proof fn lemma_longer_normal_greater(s: Seq<bool>, t: Seq<bool>)
    requires
        is_normal(s),
        is_normal(t),
        s.len() > t.len(),
    ensures
        bits_value(s) > bits_value(t),
{
    assert(s.len() >= 2);
    lemma_value_msb(s);
    lemma_value_bound(t);
    if t.len() < s.len() - 1 {
        vstd::arithmetic::power2::lemma_pow2_strictly_increases(t.len(), (s.len() - 1) as nat);
    }
}

/// The three-way ordering of two natural numbers.
pub open spec fn cmp_of(a: nat, b: nat) -> core::cmp::Ordering {
    if a < b {
        core::cmp::Ordering::Less
    } else if a == b {
        core::cmp::Ordering::Equal
    } else {
        core::cmp::Ordering::Greater
    }
}

/// A value has exactly one normal representation.
pub proof fn lemma_normal_unique(s: Seq<bool>, t: Seq<bool>)
    requires
        is_normal(s),
        is_normal(t),
        bits_value(s) == bits_value(t),
    ensures
        s == t,
{
    if s.len() < t.len() {
        assert(t.len() >= 2);
        lemma_value_msb(t);
        lemma_value_bound(s);
        if s.len() < t.len() - 1 {
            vstd::arithmetic::power2::lemma_pow2_strictly_increases(s.len(), (t.len() - 1) as nat);
        }
        assert(false);
    } else if t.len() < s.len() {
        assert(s.len() >= 2);
        lemma_value_msb(s);
        lemma_value_bound(t);
        if t.len() < s.len() - 1 {
            vstd::arithmetic::power2::lemma_pow2_strictly_increases(t.len(), (s.len() - 1) as nat);
        }
        assert(false);
    } else {
        lemma_value_eq_bits(s, t);
    }
}

} // verus!
