//! Multiplication: the grade-school shift-and-add algorithm, accumulating
//! each shifted copy of the multiplicand into a result buffer with full-adder
//! carry logic.

use vstd::prelude::*;
use vstd::arithmetic::power2::{pow2, lemma_pow2_adds, lemma_pow2_pos, lemma2_to64};
use vstd::arithmetic::mul::{
    lemma_mul_basics, lemma_mul_is_commutative, lemma_mul_is_distributive_add_other_way,
};
use crate::bignum::BigNum;
use crate::model::{
    bits_value, lemma_value_take_succ, lemma_value_take_all, lemma_value_bound, lemma_value_zero,
    lemma_value_split, lemma_normalize_spec,
};

verus! {

broadcast use crate::bignum::lemma_view;

/// Add `addend`, shifted up by `offset` positions, into `buf` in place,
/// rippling the carry through the higher positions. The buffer must be wide
/// enough that the carry is absorbed before its end.
fn add_shifted(buf: &mut Vec<bool>, addend: &Vec<bool>, offset: usize)
    requires
        offset + addend@.len() <= old(buf)@.len(),
        bits_value(old(buf)@) + bits_value(addend@) * pow2(offset as nat)
            < pow2(old(buf)@.len()),
    ensures
        final(buf)@.len() == old(buf)@.len(),
        bits_value(final(buf)@) == bits_value(old(buf)@) + bits_value(addend@) * pow2(
            offset as nat,
        ),
{
    let ghost len0 = old(buf)@.len();
    let ghost base = old(buf)@;
    let buf_n = buf.len();
    let mut carry = false;

    proof {
        lemma_mul_basics(pow2(offset as nat) as int);
        assert(addend@.take(0) =~= Seq::<bool>::empty());
        assert(bits_value(Seq::<bool>::empty()) == 0);
        lemma_mul_basics(0int);
        assert((0nat) * pow2(offset as nat) == 0) by {
            lemma_mul_basics(pow2(offset as nat) as int);
        }
    }
    let mut j: usize = 0;
    while j < addend.len()
        invariant
            j <= addend@.len(),
            offset + addend@.len() <= len0,
            buf@.len() == len0,
            base.len() == len0,
            buf_n == len0,
            bits_value(buf@.take((offset + j) as int)) + (if carry {
                pow2((offset + j) as nat)
            } else {
                0nat
            }) == bits_value(base.take((offset + j) as int)) + bits_value(
                addend@.take(j as int),
            ) * pow2(offset as nat),
            buf@.skip((offset + j) as int) == base.skip((offset + j) as int),
        decreases addend@.len() - j,
    {
        let pos = offset + j;
        let a = buf[pos];
        let b = addend[j];

        // Add with carry
        let sum = a ^ b ^ carry;
        let new_carry = (a && b) || (carry && (a ^ b));

        let ghost prior = buf@;
        buf[pos] = sum;
        proof {
            assert(buf@ == prior.update(pos as int, sum));
            assert(buf@.take(pos as int) =~= prior.take(pos as int));
            assert(buf@.skip(pos + 1) =~= base.skip(pos + 1)) by {
                assert(forall|k: int|
                    pos + 1 <= k < len0 ==> buf@[k] == prior[k] && prior[k] == prior.skip(
                        pos as int,
                    )[k - pos] && base[k] == base.skip(pos as int)[k - pos]);
            }
            assert(prior[pos as int] == base[pos as int]) by {
                assert(prior.skip(pos as int)[0] == base.skip(pos as int)[0]);
            }
            lemma_value_take_succ(buf@, pos as int);
            lemma_value_take_succ(base, pos as int);
            lemma_value_take_succ(addend@, j as int);
            // weight bookkeeping for the new column
            lemma_pow2_adds(pos as nat, 1);
            lemma_pow2_adds(j as nat, offset as nat);
            lemma2_to64();
            let p_off = pow2(offset as nat) as int;
            let x = bits_value(addend@.take(j as int)) as int;
            let c: int = if b { pow2(j as nat) as int } else { 0int };
            assert((x + c) * p_off == x * p_off + c * p_off) by {
                lemma_mul_is_distributive_add_other_way(p_off, x, c);
            }
            if b {
                assert(c * p_off == pow2((j + offset) as nat)) by {
                    lemma_pow2_adds(j as nat, offset as nat);
                }
            }
        }
        carry = new_carry;
        j = j + 1;
    }

    // Propagate the final carry through the remaining positions
    let mut pos: usize = offset + addend.len();
    proof {
        lemma_value_take_all(addend@);
        assert(addend@.take(addend@.len() as int) =~= addend@);
    }
    while carry && pos < buf.len()
        invariant
            offset + addend@.len() <= pos <= len0,
            buf@.len() == len0,
            base.len() == len0,
            buf_n == len0,
            bits_value(buf@.take(pos as int)) + (if carry {
                pow2(pos as nat)
            } else {
                0nat
            }) == bits_value(base.take(pos as int)) + bits_value(addend@) * pow2(offset as nat),
            buf@.skip(pos as int) == base.skip(pos as int),
        decreases len0 - pos,
    {
        let a = buf[pos];
        let sum = a ^ carry;
        let new_carry = a && carry;
        let ghost prior = buf@;
        buf[pos] = sum;
        proof {
            assert(buf@.take(pos as int) =~= prior.take(pos as int));
            assert(buf@.skip(pos + 1) =~= base.skip(pos + 1)) by {
                assert(forall|k: int|
                    pos + 1 <= k < len0 ==> buf@[k] == prior[k] && prior[k] == prior.skip(
                        pos as int,
                    )[k - pos] && base[k] == base.skip(pos as int)[k - pos]);
            }
            assert(prior[pos as int] == base[pos as int]) by {
                assert(prior.skip(pos as int)[0] == base.skip(pos as int)[0]);
            }
            lemma_value_take_succ(buf@, pos as int);
            lemma_value_take_succ(base, pos as int);
            lemma_pow2_adds(pos as nat, 1);
            lemma2_to64();
        }
        carry = new_carry;
        pos = pos + 1;
    }

    proof {
        if carry {
            assert(pos == len0);
            lemma_value_take_all(buf@);
            lemma_value_take_all(base);
            lemma_value_bound(buf@);
            assert(false);
        }
        lemma_value_split(buf@, pos as int);
        lemma_value_split(base, pos as int);
    }
}

impl BigNum {
    /// Multiply two `BigNum`s and return the product, normalized. A zero
    /// operand short-circuits to the canonical zero.
    pub fn multiply(&self, other: &BigNum) -> (r: BigNum)
        ensures
            r.value() == self.value() * other.value(),
            r.wf(),
    {
        // Handle zero cases
        if self.is_zero() || other.is_zero() {
            proof {
                lemma_mul_basics(self.value() as int);
                lemma_mul_basics(other.value() as int);
            }
            return BigNum::from_u64(0);
        }

        let la = self.bits.len();
        let lb = other.bits.len();
        proof {
            lemma_value_zero(self@);
            lemma_value_zero(other@);
        }

        // The zero-filled result buffer; it is widened by one position per
        // round, reaching the full `la + lb` product width
        let mut result: Vec<bool> = vec![false; lb];
        proof {
            lemma_value_zero(result@);
            assert(bits_value(result@) == 0);
            assert(self@.take(0) =~= Seq::<bool>::empty());
            assert(bits_value(Seq::<bool>::empty()) == 0);
            lemma_mul_basics(bits_value(other@) as int);
        }

        // Grade-school multiplication
        let mut i: usize = 0;
        while i < la
            invariant
                i <= la,
                la == self@.len(),
                lb == other@.len(),
                la >= 1,
                lb >= 1,
                result@.len() == i + lb,
                bits_value(result@) == bits_value(self@.take(i as int)) * bits_value(other@),
            decreases la - i,
        {
            let ghost vb = bits_value(other@) as int;
            let ghost vt = bits_value(self@.take(i as int)) as int;
            let ghost prior = result@;
            result.push(false);
            proof {
                assert(result@.drop_last() =~= prior);
                assert(bits_value(result@) == bits_value(prior));
                lemma_value_take_succ(self@, i as int);
                lemma_value_bound(self@.take(i + 1));
                lemma_value_bound(other@);
                lemma_pow2_adds((i + 1) as nat, lb as nat);
                lemma_pow2_pos((i + 1) as nat);
                lemma_pow2_pos(lb as nat);
                let t1 = bits_value(self@.take(i + 1)) as int;
                assert(t1 * vb < pow2(((i + 1) + lb) as nat)) by (nonlinear_arith)
                    requires
                        0 <= t1 < pow2((i + 1) as nat),
                        0 <= vb < pow2(lb as nat),
                        pow2(((i + 1) + lb) as nat) == pow2((i + 1) as nat) * pow2(lb as nat),
                        pow2((i + 1) as nat) > 0,
                        pow2(lb as nat) > 0,
                ;
                assert((vt + pow2(i as nat)) * vb == vt * vb + pow2(i as nat) * vb) by {
                    lemma_mul_is_distributive_add_other_way(vb, vt, pow2(i as nat) as int);
                }
                lemma_mul_is_commutative(pow2(i as nat) as int, vb);
            }
            if self.bits[i] {
                add_shifted(&mut result, &other.bits, i);
            }
            i = i + 1;
        }

        proof {
            lemma_value_take_all(self@);
        }
        let mut bn = BigNum { bits: result };
        proof {
            lemma_normalize_spec(bn@);
        }
        bn.normalize();
        bn
    }
}

} // verus!
