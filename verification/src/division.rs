//! Division with remainder: binary long division built from shift, add,
//! subtract and comparison, scanning the dividend from the most significant
//! bit down while a running remainder is reduced against the divisor.

use vstd::prelude::*;
use vstd::arithmetic::div_mod::{
    lemma_div_basics, lemma_basic_div, lemma_small_mod, lemma_mod_self_0,
    lemma_fundamental_div_mod_converse, lemma_fundamental_div_mod_converse_mod,
};
use vstd::arithmetic::mul::{lemma_mul_basics, lemma_mul_is_commutative};
use vstd::arithmetic::power2::lemma2_to64;
use core::cmp::Ordering;
use crate::bignum::BigNum;
use crate::model::{bits_value, lemma_value_zero, lemma_value_skip_succ, lemma_normalize_spec};

verus! {

broadcast use crate::bignum::lemma_view;

/// The failure a `BigNum` operation can report: the divisor was the zero
/// value.
#[derive(Debug, Clone, Copy, PartialEq, Eq, Structural)]
pub enum BigNumError {
    DivisionByZero,
}

impl BigNum {
    /// Divide `self` by `other`, returning the quotient and the remainder,
    /// both normalized (the remainder keeps `self`'s own bits, hence its
    /// normality, when the divisor is larger). A zero divisor is reported as
    /// `DivisionByZero` rather than a partial result.
    pub fn divide(&self, other: &BigNum) -> (r: Result<(BigNum, BigNum), BigNumError>)
        ensures
            other.value() == 0 <==> r is Err,
            r matches Err(e) ==> e == BigNumError::DivisionByZero,
            r matches Ok(qr) ==> ({
                &&& qr.0.value() * other.value() + qr.1.value() == self.value()
                &&& qr.1.value() < other.value()
                &&& qr.0.value() == self.value() / other.value()
                &&& qr.1.value() == self.value() % other.value()
                &&& qr.0.wf()
                &&& self.wf() ==> qr.1.wf()
            }),
    {
        if other.is_zero() {
            return Err(BigNumError::DivisionByZero);
        }

        let ghost d = other.value() as int;
        let ghost va = self.value() as int;

        if self.is_zero() {
            proof {
                lemma_mul_basics(d);
                lemma_div_basics(d);
                lemma_small_mod(0, other.value());
            }
            return Ok((BigNum::from_u64(0), BigNum::from_u64(0)));
        }

        match self.cmp(other) {
            Ordering::Less => {
                // self < other: the quotient is zero and self is the remainder
                proof {
                    lemma_mul_basics(d);
                    lemma_basic_div(va, d);
                    lemma_small_mod(self.value(), other.value());
                }
                return Ok((BigNum::from_u64(0), self.duplicate()));
            },
            Ordering::Equal => {
                // self == other: the quotient is one and the remainder zero
                proof {
                    lemma_mul_basics(d);
                    lemma_div_basics(d);
                    lemma_mod_self_0(d);
                }
                return Ok((BigNum::from_u64(1), BigNum::from_u64(0)));
            },
            Ordering::Greater => {
                // proceed with long division
            },
        }

        // Long division, most significant dividend bit first
        let la = self.bits.len();
        let mut quotient_bits: Vec<bool> = vec![false; la];
        let mut remainder = BigNum::from_u64(0);
        proof {
            lemma_value_zero(self@);
            assert(self@.skip(la as int) =~= Seq::<bool>::empty());
            assert(quotient_bits@.skip(la as int) =~= Seq::<bool>::empty());
            assert(bits_value(Seq::<bool>::empty()) == 0);
            lemma_mul_basics(d);
        }

        let mut i: usize = la;
        while i > 0
            invariant
                i <= la,
                la == self@.len(),
                quotient_bits@.len() == la,
                other.value() > 0,
                remainder.wf(),
                remainder.value() < other.value(),
                forall|k: int| 0 <= k < i ==> !quotient_bits@[k],
                bits_value(self@.skip(i as int)) == bits_value(quotient_bits@.skip(i as int))
                    * other.value() + remainder.value(),
            decreases i,
        {
            i = i - 1;
            let ghost dv = other.value() as int;
            let ghost vq = bits_value(quotient_bits@.skip(i + 1)) as int;
            let ghost vr = remainder.value() as int;

            // Shift the remainder up and bring down the next dividend bit
            remainder = remainder.shl(1);
            proof {
                lemma2_to64();
            }
            if self.bits[i] {
                remainder = remainder.add(&BigNum::from_u64(1));
            }
            let ghost bit: int = if self@[i as int] { 1int } else { 0int };
            proof {
                lemma_value_skip_succ(self@, i as int);
                assert(bits_value(self@.skip(i + 1)) as int == vq * dv + vr);
                assert(bits_value(self@.skip(i as int)) as int == bit + 2 * bits_value(
                    self@.skip(i + 1),
                ));
                assert(bits_value(self@.skip(i as int)) as int == bit + 2 * (vq * dv + vr));
                assert(remainder.value() as int == 2 * vr + bit);
            }

            // If the remainder reaches the divisor, subtract and set the bit
            let reduce = match remainder.cmp(other) {
                Ordering::Less => false,
                _ => true,
            };
            if reduce {
                remainder = remainder.subtract(other);
                let ghost prior = quotient_bits@;
                quotient_bits[i] = true;
                proof {
                    assert(quotient_bits@.skip(i + 1) =~= prior.skip(i + 1));
                    lemma_value_skip_succ(quotient_bits@, i as int);
                    assert(bits_value(self@.skip(i as int)) as int == (1 + 2 * vq) * dv
                        + remainder.value()) by (nonlinear_arith)
                        requires
                            bits_value(self@.skip(i as int)) as int == bit + 2 * (vq * dv + vr),
                            remainder.value() as int == 2 * vr + bit - dv,
                    ;
                }
            } else {
                proof {
                    lemma_value_skip_succ(quotient_bits@, i as int);
                    assert(bits_value(self@.skip(i as int)) as int == (2 * vq) * dv
                        + remainder.value()) by (nonlinear_arith)
                        requires
                            bits_value(self@.skip(i as int)) as int == bit + 2 * (vq * dv + vr),
                            remainder.value() as int == 2 * vr + bit,
                    ;
                }
            }
        }

        proof {
            assert(self@.skip(0) =~= self@);
            assert(quotient_bits@.skip(0) =~= quotient_bits@);
        }
        let mut quotient = BigNum { bits: quotient_bits };
        proof {
            lemma_normalize_spec(quotient@);
            lemma_value_zero(self@);
        }
        quotient.normalize();
        proof {
            lemma_mul_is_commutative(quotient.value() as int, d);
            lemma_fundamental_div_mod_converse(va, d, quotient.value() as int,
                remainder.value() as int);
            lemma_fundamental_div_mod_converse_mod(va, d, quotient.value() as int,
                remainder.value() as int);
        }
        Ok((quotient, remainder))
    }

    /// Divide `self` by `other` and return the quotient alone; a zero
    /// divisor is reported as `DivisionByZero`.
    pub fn div(&self, other: &BigNum) -> (r: Result<BigNum, BigNumError>)
        ensures
            other.value() == 0 <==> r is Err,
            r matches Err(e) ==> e == BigNumError::DivisionByZero,
            r matches Ok(q) ==> q.value() == self.value() / other.value() && q.wf(),
    {
        match self.divide(other) {
            Ok(qr) => Ok(qr.0),
            Err(e) => Err(e),
        }
    }

    /// Divide `self` by `other` and return the remainder alone; a zero
    /// divisor is reported as `DivisionByZero`.
    pub fn modulo(&self, other: &BigNum) -> (r: Result<BigNum, BigNumError>)
        ensures
            other.value() == 0 <==> r is Err,
            r matches Err(e) ==> e == BigNumError::DivisionByZero,
            r matches Ok(m) ==> ({
                &&& m.value() == self.value() % other.value()
                &&& m.value() < other.value()
                &&& self.wf() ==> m.wf()
            }),
    {
        match self.divide(other) {
            Ok(qr) => Ok(qr.1),
            Err(e) => Err(e),
        }
    }
}

} // verus!
