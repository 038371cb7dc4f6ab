//! An arbitrary-precision unsigned integer built on an explicit bit-vector
//! representation (least-significant bit first), with verified addition,
//! subtraction, multiplication, division with remainder, bit shifts and
//! three-way comparison.

pub mod model;
pub mod bignum;
pub mod addition;
pub mod subtraction;
pub mod multiplication;
pub mod division;
pub mod laws;

pub use bignum::BigNum;
pub use division::BigNumError;
