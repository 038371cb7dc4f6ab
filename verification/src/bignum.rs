//! The `BigNum` value type: an unbounded non-negative integer stored as a
//! vector of bits, least-significant bit first, together with its core
//! operations: construction, normalization, conversion, zero test, shifts
//! and three-way comparison.

use vstd::prelude::*;
use vstd::arithmetic::power2::{pow2, lemma_pow2_pos, lemma2_to64};
use core::cmp::Ordering;
use vstd::string::StringExecFns;
use crate::model::{
    bits_value, is_normal, normalize_spec, cmp_of, msb_chars, lemma_value_take_succ,
    lemma_value_take_all, lemma_value_bound, lemma_value_zero, lemma_value_split,
    lemma_value_skip_succ, lemma_normalize_spec, lemma_longer_normal_greater,
};

verus! {

/// A non-negative integer of unbounded magnitude, stored as its binary
/// digits with bit 0 (the ones place) first.
#[derive(Debug, Clone, PartialEq)]
pub struct BigNum {
    pub(crate) bits: Vec<bool>,
}

impl View for BigNum {
    type V = Seq<bool>;

    closed spec fn view(&self) -> Seq<bool> {
        self.bits@
    }
}

/// The abstract bit sequence of a `BigNum` is the sequence its vector holds.
pub(crate) broadcast proof fn lemma_view(b: &BigNum)
    ensures
        #[trigger] b@ == b.bits@,
{
}

impl BigNum {
    /// The integer this bit sequence denotes.
    pub open spec fn value(&self) -> nat {
        bits_value(self@)
    }

    /// Normal form: at least one bit and no high-order zero bit, except the
    /// single-bit representation of zero.
    pub open spec fn wf(&self) -> bool {
        is_normal(self@)
    }

    /// Create a `BigNum` from a `u64` value. The result is normalized.
    pub fn from_u64(v: u64) -> (r: BigNum)
        ensures
            r.wf(),
            r.value() == v as nat,
    {
        let mut value = v;
        let ghost v0 = value;
        let mut bits: Vec<bool> = Vec::new();

        if value == 0 {
            bits.push(false);
            proof {
                assert(bits@.drop_last() =~= Seq::<bool>::empty());
                assert(bits_value(Seq::<bool>::empty()) == 0);
                assert(bits_value(bits@) == 0);
            }
        } else {
            proof {
                lemma2_to64();
                vstd::arithmetic::mul::lemma_mul_basics(value as int);
                assert(bits@ =~= Seq::<bool>::empty());
            }
            while value > 0
                invariant
                    bits_value(bits@) + (value as nat) * pow2(bits@.len()) == v0 as nat,
                    value == 0 ==> (bits@.len() >= 1 && bits@.last()),
                    v0 != 0,
                decreases value,
            {
                let bit = value & 1 == 1;
                let ghost prev = value;
                let ghost prior = bits@;
                bits.push(bit);
                value = value >> 1;
                proof {
                    assert(prev == (prev & 1) + 2 * (prev >> 1)) by (bit_vector);
                    assert(prev & 1 == 1 || prev & 1 == 0) by (bit_vector);
                    assert((prev >> 1) < prev) by (bit_vector)
                        requires
                            prev > 0,
                    ;
                    assert(prev > 0 && (prev >> 1) == 0 ==> (prev & 1) == 1) by (bit_vector);
                    let len = prior.len();
                    assert(bits@.drop_last() =~= prior);
                    assert(bits@.last() == bit);
                    assert(bits_value(bits@) == bits_value(prior) + if bit {
                        pow2(len)
                    } else {
                        0nat
                    });
                    let p = pow2(len) as int;
                    let v1 = (prev >> 1) as int;
                    let b: int = if bit { 1int } else { 0int };
                    assert(prev as int == b + 2 * v1);
                    vstd::arithmetic::power2::lemma_pow2_adds(len, 1);
                    lemma2_to64();
                    assert(pow2((len + 1) as nat) as int == 2 * p);
                    assert((b + 2 * v1) * p == b * p + v1 * (2 * p)) by (nonlinear_arith);
                    assert(b * p == if bit { p } else { 0int }) by (nonlinear_arith)
                        requires
                            b == (if bit { 1int } else { 0int }),
                    ;
                }
            }
            proof {
                vstd::arithmetic::mul::lemma_mul_basics(pow2(bits@.len()) as int);
                assert((0nat) * pow2(bits@.len()) == 0);
                assert(bits_value(bits@) == v0 as nat);
            }
        }
        BigNum { bits }
    }

    /// Create a `BigNum` from a bit vector (least-significant bit first),
    /// stored as given, without normalizing. Callers that need a normalized
    /// value must normalize explicitly.
    pub fn from_bits(bits: Vec<bool>) -> (r: BigNum)
        ensures
            r@ == bits@,
    {
        BigNum { bits }
    }

    /// The number of stored bits.
    pub fn len(&self) -> (r: usize)
        ensures
            r == self@.len(),
    {
        self.bits.len()
    }

    /// Strip high-order zero bits down to a single remaining bit. Idempotent;
    /// never removes the last bit; never changes the value.
    pub fn normalize(&mut self)
        ensures
            final(self)@ == normalize_spec(old(self)@),
    {
        while self.bits.len() > 1 && !self.bits[self.bits.len() - 1]
            invariant
                normalize_spec(self.bits@) == normalize_spec(old(self)@),
            decreases self.bits@.len(),
        {
            proof {
                assert(self.bits@.last() == self.bits@[self.bits@.len() - 1]);
            }
            self.bits.pop();
        }
    }

    /// Convert to `u64`. This is a truncating, not a checked, conversion:
    /// bits at positions 64 and above are silently discarded, so the result
    /// is the value reduced modulo `pow2(64)`.
    pub fn to_u64(&self) -> (r: u64)
        ensures
            r as nat == self.value() % pow2(64),
            self.value() < pow2(64) ==> r as nat == self.value(),
    {
        let mut result: u64 = 0;
        let mut i: usize = 0;
        let n = self.bits.len();
        while i < n && i < 64
            invariant
                n == self@.len(),
                0 <= i <= n,
                i <= 64,
                result as nat == bits_value(self@.take(i as int)),
            decreases n - i,
        {
            proof {
                lemma_value_take_succ(self@, i as int);
                lemma_value_bound(self@.take(i as int));
                vstd::bits::lemma_u64_pow2_no_overflow(i as nat);
                vstd::bits::lemma_u64_shl_is_mul(1u64, i as u64);
                vstd::arithmetic::mul::lemma_mul_basics(pow2(i as nat) as int);
                vstd::arithmetic::power2::lemma_pow2_adds(i as nat, 1);
                lemma2_to64();
                vstd::arithmetic::power2::lemma2_to64_rest();
                if i + 1 < 64 {
                    vstd::arithmetic::power2::lemma_pow2_strictly_increases((i + 1) as nat, 64);
                }
            }
            if self.bits[i] {
                result = result + (1u64 << i);
            }
            i = i + 1;
        }
        proof {
            let k: int = if n < 64 { n as int } else { 64 };
            assert(i == k);
            crate::model::lemma_value_split(self@, k);
            lemma_value_bound(self@.take(k));
            lemma_pow2_pos(64);
            if n < 64 {
                lemma_value_take_all(self@);
                assert(self@.skip(k) =~= Seq::<bool>::empty());
                vstd::arithmetic::mul::lemma_mul_basics(pow2(k as nat) as int);
                vstd::arithmetic::power2::lemma_pow2_strictly_increases(n as nat, 64);
            } else {
                // value == take(64) + pow2(64) * skip(64); the prefix is the remainder
                vstd::arithmetic::mul::lemma_mul_is_commutative(
                    pow2(64) as int,
                    bits_value(self@.skip(64)) as int,
                );
                vstd::arithmetic::div_mod::lemma_fundamental_div_mod_converse_mod(
                    self.value() as int,
                    pow2(64) as int,
                    bits_value(self@.skip(64)) as int,
                    bits_value(self@.take(64)) as int,
                );
            }
            if self.value() < pow2(64) {
                vstd::arithmetic::div_mod::lemma_small_mod(self.value(), pow2(64));
            }
        }
        result
    }

    /// True exactly when every stored bit is clear, i.e. the value is zero.
    /// Valid regardless of normalization.
    pub fn is_zero(&self) -> (r: bool)
        ensures
            r <==> self.value() == 0,
    {
        let mut i: usize = 0;
        let n = self.bits.len();
        while i < n
            invariant
                n == self@.len(),
                0 <= i <= n,
                forall|j: int| 0 <= j < i ==> !self@[j],
            decreases n - i,
        {
            if self.bits[i] {
                proof {
                    lemma_value_zero(self@);
                }
                return false;
            }
            i = i + 1;
        }
        proof {
            lemma_value_zero(self@);
        }
        true
    }

    /// The stored bit sequence as a vector, least-significant bit first.
    pub fn to_bits(&self) -> (r: Vec<bool>)
        ensures
            r@ == self@,
    {
        let bits = self.bits.clone();
        proof {
            assert(bits@ =~= self.bits@);
        }
        bits
    }

    /// Render the normalized bit sequence as a binary literal, most
    /// significant bit first, prefixed with `0b`.
    pub fn to_binary_string(&self) -> (r: String)
        ensures
            r@ == seq!['0', 'b'] + msb_chars(normalize_spec(self@)),
    {
        let mut w = self.duplicate();
        proof {
            lemma_normalize_spec(w@);
        }
        w.normalize();

        let mut out = String::new();
        out.append("0b");
        proof {
            reveal_strlit("0b");
            assert(out@ =~= seq!['0', 'b']);
            assert(msb_chars(w@).take(0) =~= Seq::<char>::empty());
            assert(out@ =~= seq!['0', 'b'] + msb_chars(w@).take(0));
        }

        let n = w.bits.len();
        let mut i: usize = n;
        while i > 0
            invariant
                i <= n,
                n == w@.len(),
                out@ == seq!['0', 'b'] + msb_chars(w@).take((n - i) as int),
            decreases i,
        {
            i = i - 1;
            if w.bits[i] {
                out.append("1");
                proof {
                    reveal_strlit("1");
                    assert("1"@ =~= seq!['1']);
                }
            } else {
                out.append("0");
                proof {
                    reveal_strlit("0");
                    assert("0"@ =~= seq!['0']);
                }
            }
            proof {
                assert(msb_chars(w@).take((n - i) as int) =~= msb_chars(w@).take(
                    (n - i - 1) as int,
                ).push(msb_chars(w@)[(n - i - 1) as int]));
                assert(out@ =~= seq!['0', 'b'] + msb_chars(w@).take((n - i) as int));
            }
        }
        proof {
            assert(msb_chars(w@).take(n as int) =~= msb_chars(w@));
        }
        out
    }

    /// A fresh `BigNum` holding the same bit sequence.
    pub(crate) fn duplicate(&self) -> (r: BigNum)
        ensures
            r@ == self@,
    {
        let bits = self.bits.clone();
        proof {
            assert(bits@ =~= self.bits@);
        }
        BigNum { bits }
    }

    /// Left shift by `n` positions: multiply by `pow2(n)` by prepending `n`
    /// zero bits. Returns the input unchanged if it is zero or `n` is zero;
    /// otherwise the result is normalized.
    pub fn shl(&self, n: usize) -> (r: BigNum)
        ensures
            r.value() == self.value() * pow2(n as nat),
            self.wf() ==> r.wf(),
            (self.value() == 0 || n == 0) ==> r@ == self@,
    {
        if self.is_zero() || n == 0 {
            proof {
                vstd::arithmetic::mul::lemma_mul_basics(self.value() as int);
                vstd::arithmetic::mul::lemma_mul_basics(pow2(n as nat) as int);
                lemma2_to64();
            }
            return self.duplicate();
        }

        let mut result: Vec<bool> = Vec::new();
        let mut i: usize = 0;
        while i < n
            invariant
                i <= n,
                result@.len() == i,
                forall|j: int| 0 <= j < i ==> !result@[j],
            decreases n - i,
        {
            result.push(false);
            i = i + 1;
        }
        let mut j: usize = 0;
        let m = self.bits.len();
        while j < m
            invariant
                j <= m,
                m == self@.len(),
                result@.len() == n + j,
                forall|k: int| 0 <= k < n ==> !result@[k],
                forall|k: int| 0 <= k < j ==> result@[n + k] == self@[k],
            decreases m - j,
        {
            result.push(self.bits[j]);
            j = j + 1;
        }
        proof {
            assert(result@.skip(n as int) =~= self@);
            lemma_value_split(result@, n as int);
            lemma_value_zero(result@.take(n as int));
            assert(bits_value(result@.take(n as int)) == 0);
            vstd::arithmetic::mul::lemma_mul_is_commutative(
                pow2(n as nat) as int,
                self.value() as int,
            );
        }
        let mut bn = BigNum { bits: result };
        proof {
            lemma_normalize_spec(bn@);
        }
        bn.normalize();
        bn
    }

    /// Right shift by `n` positions: divide by `pow2(n)`, rounding toward
    /// zero, by dropping the `n` lowest bits. Returns the input unchanged if
    /// it is zero or `n` is zero, and zero if `n` reaches past the top bit;
    /// otherwise the result is normalized.
    pub fn shr(&self, n: usize) -> (r: BigNum)
        ensures
            r.value() == self.value() / pow2(n as nat),
            self.wf() ==> r.wf(),
            (self.value() == 0 || n == 0) ==> r@ == self@,
    {
        if self.is_zero() || n == 0 {
            proof {
                lemma_pow2_pos(n as nat);
                vstd::arithmetic::div_mod::lemma_div_basics(self.value() as int);
                vstd::arithmetic::div_mod::lemma_div_basics(pow2(n as nat) as int);
                lemma2_to64();
            }
            return self.duplicate();
        }

        if n >= self.bits.len() {
            proof {
                lemma_value_bound(self@);
                if self@.len() < n {
                    vstd::arithmetic::power2::lemma_pow2_strictly_increases(self@.len(), n as nat);
                }
                vstd::arithmetic::div_mod::lemma_basic_div(
                    self.value() as int,
                    pow2(n as nat) as int,
                );
            }
            return BigNum::from_u64(0);
        }

        let mut result: Vec<bool> = Vec::new();
        let m = self.bits.len();
        let mut j: usize = n;
        while j < m
            invariant
                n <= j <= m,
                m == self@.len(),
                result@.len() == j - n,
                forall|k: int| 0 <= k < j - n ==> result@[k] == self@[n + k],
            decreases m - j,
        {
            result.push(self.bits[j]);
            j = j + 1;
        }
        proof {
            assert(result@ =~= self@.skip(n as int));
            lemma_value_split(self@, n as int);
            lemma_value_bound(self@.take(n as int));
            lemma_pow2_pos(n as nat);
            vstd::arithmetic::mul::lemma_mul_is_commutative(
                pow2(n as nat) as int,
                bits_value(result@) as int,
            );
            vstd::arithmetic::div_mod::lemma_fundamental_div_mod_converse(
                self.value() as int,
                pow2(n as nat) as int,
                bits_value(result@) as int,
                bits_value(self@.take(n as int)) as int,
            );
        }
        let mut bn = BigNum { bits: result };
        proof {
            lemma_normalize_spec(bn@);
        }
        bn.normalize();
        bn
    }

    /// Three-way comparison of the values. Both operands are copied and
    /// normalized internally; the shorter normal form is the smaller value,
    /// and equal lengths are decided bit by bit from the most significant
    /// position down.
    pub fn cmp(&self, other: &BigNum) -> (r: Ordering)
        ensures
            r == cmp_of(self.value(), other.value()),
    {
        let mut a = self.duplicate();
        let mut b = other.duplicate();
        proof {
            lemma_normalize_spec(a@);
            lemma_normalize_spec(b@);
        }
        a.normalize();
        b.normalize();
        if a.bits.len() == 0 {
            proof {
                assert(a@ =~= Seq::<bool>::empty());
            }
            a.bits.push(false);
            proof {
                assert(a@.drop_last() =~= Seq::<bool>::empty());
                assert(bits_value(Seq::<bool>::empty()) == 0);
                assert(bits_value(a@) == 0);
            }
        }
        if b.bits.len() == 0 {
            proof {
                assert(b@ =~= Seq::<bool>::empty());
            }
            b.bits.push(false);
            proof {
                assert(b@.drop_last() =~= Seq::<bool>::empty());
                assert(bits_value(Seq::<bool>::empty()) == 0);
                assert(bits_value(b@) == 0);
            }
        }
        proof {
            assert(bits_value(a@) == self.value());
            assert(bits_value(b@) == other.value());
            assert(is_normal(a@));
            assert(is_normal(b@));
        }
        // here a and b are normal and carry the operands' values
        if a.bits.len() > b.bits.len() {
            proof {
                lemma_longer_normal_greater(a@, b@);
            }
            return Ordering::Greater;
        }
        if a.bits.len() < b.bits.len() {
            proof {
                lemma_longer_normal_greater(b@, a@);
            }
            return Ordering::Less;
        }

        let n = a.bits.len();
        let mut i: usize = n;
        while i > 0
            invariant
                i <= n,
                n == a@.len(),
                n == b@.len(),
                bits_value(a@) == self.value(),
                bits_value(b@) == other.value(),
                forall|j: int| i <= j < n ==> a@[j] == b@[j],
            decreases i,
        {
            i = i - 1;
            let abit = a.bits[i];
            let bbit = b.bits[i];
            if abit != bbit {
                proof {
                    lemma_value_split(a@, i as int);
                    lemma_value_split(b@, i as int);
                    lemma_value_skip_succ(a@, i as int);
                    lemma_value_skip_succ(b@, i as int);
                    assert(a@.skip(i + 1) =~= b@.skip(i + 1));
                    lemma_value_bound(a@.take(i as int));
                    lemma_value_bound(b@.take(i as int));
                    let p = pow2(i as nat) as int;
                    let x = bits_value(a@.skip(i + 1)) as int;
                    vstd::arithmetic::mul::lemma_mul_is_distributive_add(p, 1, 2 * x);
                    vstd::arithmetic::mul::lemma_mul_basics(p);
                }
                if abit {
                    return Ordering::Greater;
                } else {
                    return Ordering::Less;
                }
            }
        }
        proof {
            assert(a@ =~= b@);
        }
        Ordering::Equal
    }
}

} // verus!
