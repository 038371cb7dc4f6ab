//! Addition: a carry-propagating full adder scanned from bit 0 upward.

use vstd::prelude::*;
use vstd::arithmetic::power2::{pow2, lemma_pow2_adds, lemma2_to64};
use crate::bignum::BigNum;
use crate::model::{
    bits_value, prefix_value, lemma_prefix_succ, lemma_prefix_all, lemma_normalize_spec,
};

verus! {

broadcast use crate::bignum::lemma_view;

impl BigNum {
    /// Add two `BigNum`s and return the sum. Defined for all operands; the
    /// result is normalized whenever either operand holds at least one bit.
    pub fn add(&self, other: &BigNum) -> (r: BigNum)
        ensures
            r.value() == self.value() + other.value(),
            (self@.len() >= 1 || other@.len() >= 1) ==> r.wf(),
    {
        let la = self.bits.len();
        let lb = other.bits.len();
        let max_len = if la > lb { la } else { lb };
        let mut result: Vec<bool> = Vec::new();
        let mut carry = false;

        let mut i: usize = 0;
        while i < max_len
            invariant
                i <= max_len,
                la == self@.len(),
                lb == other@.len(),
                max_len == if la > lb { la } else { lb },
                result@.len() == i,
                bits_value(result@) + (if carry {
                    pow2(i as nat)
                } else {
                    0nat
                }) == prefix_value(self@, i as int) + prefix_value(other@, i as int),
            decreases max_len - i,
        {
            let a = if i < la { self.bits[i] } else { false };
            let b = if i < lb { other.bits[i] } else { false };

            // Full adder logic
            let sum = a ^ b ^ carry;
            let new_carry = (a && b) || (carry && (a ^ b));

            let ghost prior = result@;
            result.push(sum);
            proof {
                lemma_prefix_succ(self@, i as int);
                lemma_prefix_succ(other@, i as int);
                assert(result@.drop_last() =~= prior);
                lemma_pow2_adds(i as nat, 1);
                lemma2_to64();
            }
            carry = new_carry;
            i = i + 1;
        }

        proof {
            lemma_prefix_all(self@, max_len as int);
            lemma_prefix_all(other@, max_len as int);
        }
        // Add final carry if needed
        if carry {
            let ghost prior = result@;
            result.push(true);
            proof {
                assert(result@.drop_last() =~= prior);
            }
        }

        let mut bn = BigNum { bits: result };
        proof {
            lemma_normalize_spec(bn@);
        }
        bn.normalize();
        bn
    }
}

} // verus!
