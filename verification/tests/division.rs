use bignum::{BigNum, BigNumError};

#[test]
fn test_divide_simple() {
    let a = BigNum::from_u64(15);
    let b = BigNum::from_u64(3);
    let (quotient, remainder) = a.divide(&b).unwrap();
    assert_eq!(quotient.to_u64(), 5);
    assert_eq!(remainder.to_u64(), 0);
}

#[test]
fn test_divide_with_remainder() {
    let a = BigNum::from_u64(17);
    let b = BigNum::from_u64(5);
    let (quotient, remainder) = a.divide(&b).unwrap();
    assert_eq!(quotient.to_u64(), 3);
    assert_eq!(remainder.to_u64(), 2);
}

#[test]
fn test_divide_smaller_by_larger() {
    let a = BigNum::from_u64(3);
    let b = BigNum::from_u64(10);
    let (quotient, remainder) = a.divide(&b).unwrap();
    assert_eq!(quotient.to_u64(), 0);
    assert_eq!(remainder.to_u64(), 3);
}

#[test]
fn test_divide_equal_numbers() {
    let a = BigNum::from_u64(42);
    let b = BigNum::from_u64(42);
    let (quotient, remainder) = a.divide(&b).unwrap();
    assert_eq!(quotient.to_u64(), 1);
    assert_eq!(remainder.to_u64(), 0);
}

#[test]
fn test_divide_by_one() {
    let a = BigNum::from_u64(123);
    let b = BigNum::from_u64(1);
    let (quotient, remainder) = a.divide(&b).unwrap();
    assert_eq!(quotient.to_u64(), 123);
    assert_eq!(remainder.to_u64(), 0);
}

#[test]
fn test_div_and_modulo() {
    let a = BigNum::from_u64(25);
    let b = BigNum::from_u64(7);

    let quotient = a.div(&b).unwrap();
    let remainder = a.modulo(&b).unwrap();

    assert_eq!(quotient.to_u64(), 3);
    assert_eq!(remainder.to_u64(), 4);
}

#[test]
fn test_divide_by_zero() {
    let a = BigNum::from_u64(10);
    let b = BigNum::from_u64(0);
    assert!(matches!(a.divide(&b), Err(BigNumError::DivisionByZero)));
    assert!(matches!(a.div(&b), Err(BigNumError::DivisionByZero)));
    assert!(matches!(a.modulo(&b), Err(BigNumError::DivisionByZero)));
}

#[test]
fn test_division_identity() {
    // add(multiply(div(x, y), y), modulo(x, y)) == x, and modulo(x, y) < y
    for (x, y) in [(17u64, 5u64), (100, 7), (256, 16), (0, 3), (6, 9), (41, 41)] {
        let a = BigNum::from_u64(x);
        let b = BigNum::from_u64(y);
        let q = a.div(&b).unwrap();
        let m = a.modulo(&b).unwrap();
        let rebuilt = q.multiply(&b).add(&m);
        assert_eq!(rebuilt.to_bits(), a.to_bits());
        assert_eq!(m.cmp(&b), std::cmp::Ordering::Less);
    }
}
