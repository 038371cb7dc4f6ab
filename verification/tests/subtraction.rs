use bignum::BigNum;

#[test]
fn test_subtract() {
    let a = BigNum::from_u64(10);
    let b = BigNum::from_u64(3);
    let result = a.subtract(&b);
    assert_eq!(result.to_u64(), 7);
}

#[test]
fn test_subtract_borrow_chain() {
    // a clear minuend bit meets a set subtrahend bit with a borrow pending
    let a = BigNum::from_u64(4);
    let b = BigNum::from_u64(3);
    assert_eq!(a.subtract(&b).to_u64(), 1);
    let c = BigNum::from_u64(256);
    let d = BigNum::from_u64(1);
    assert_eq!(c.subtract(&d).to_u64(), 255);
}

#[test]
fn test_subtract_inverse() {
    // add(subtract(x, y), y) == x for x >= y
    for (x, y) in [(10u64, 3u64), (4, 3), (100, 37), (42, 42), (1 << 40, 12345), (5, 0)] {
        let a = BigNum::from_u64(x);
        let b = BigNum::from_u64(y);
        let rebuilt = a.subtract(&b).add(&b);
        assert_eq!(rebuilt.to_bits(), a.to_bits());
        assert_eq!(rebuilt.to_u64(), x);
    }
}

#[test]
fn test_subtract_to_zero() {
    let a = BigNum::from_u64(42);
    let result = a.subtract(&a);
    assert!(result.is_zero());
    assert_eq!(result.to_bits(), vec![false]);
}
