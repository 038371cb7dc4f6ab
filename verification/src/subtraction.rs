//! Subtraction: a borrow-propagating full subtractor scanned from bit 0
//! upward. The caller owes the precondition that the minuend is at least
//! the subtrahend; under it, no borrow survives the scan.

use vstd::prelude::*;
use vstd::arithmetic::power2::{pow2, lemma_pow2_adds, lemma2_to64};
use crate::bignum::BigNum;
use crate::model::{
    bits_value, prefix_value, lemma_prefix_succ, lemma_prefix_all, lemma_normalize_spec,
    lemma_value_bound,
};

verus! {

broadcast use crate::bignum::lemma_view;

impl BigNum {
    /// Subtract `other` from `self`. The caller must ensure
    /// `self >= other`; the result is the exact difference, normalized
    /// whenever either operand holds at least one bit.
    pub fn subtract(&self, other: &BigNum) -> (r: BigNum)
        requires
            other.value() <= self.value(),
        ensures
            r.value() == self.value() - other.value(),
            (self@.len() >= 1 || other@.len() >= 1) ==> r.wf(),
    {
        let la = self.bits.len();
        let lb = other.bits.len();
        let max_len = if la > lb { la } else { lb };
        let mut result: Vec<bool> = Vec::new();
        let mut borrow = false;

        let mut i: usize = 0;
        while i < max_len
            invariant
                i <= max_len,
                la == self@.len(),
                lb == other@.len(),
                max_len == if la > lb { la } else { lb },
                result@.len() == i,
                bits_value(result@) as int == prefix_value(self@, i as int)
                    - prefix_value(other@, i as int) + (if borrow {
                    pow2(i as nat) as int
                } else {
                    0int
                }),
            decreases max_len - i,
        {
            let a = if i < la { self.bits[i] } else { false };
            let b = if i < lb { other.bits[i] } else { false };

            // Subtract with borrow: diff = a - b - borrow
            let diff: i8 = (if a { 1 } else { 0 }) - (if b { 1 } else { 0 }) - (if borrow {
                1
            } else {
                0
            });
            let ghost prior = result@;
            if diff >= 0 {
                result.push(diff != 0);
                borrow = false;
            } else {
                // a negative digit stands for diff + 2 with a borrow out
                result.push(diff == -1);
                borrow = true;
            }
            proof {
                lemma_prefix_succ(self@, i as int);
                lemma_prefix_succ(other@, i as int);
                assert(result@.drop_last() =~= prior);
                lemma_pow2_adds(i as nat, 1);
                lemma2_to64();
            }
            i = i + 1;
        }

        proof {
            lemma_prefix_all(self@, max_len as int);
            lemma_prefix_all(other@, max_len as int);
            // a surviving borrow would put the difference above the scanned
            // width, which the precondition rules out
            if borrow {
                lemma_value_bound(result@);
                assert(false);
            }
        }

        let mut bn = BigNum { bits: result };
        proof {
            lemma_normalize_spec(bn@);
        }
        bn.normalize();
        bn
    }
}

} // verus!
