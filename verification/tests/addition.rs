use bignum::BigNum;

#[test]
fn test_add_simple() {
    let a = BigNum::from_u64(5); // 101
    let b = BigNum::from_u64(3); // 011
    let result = a.add(&b);
    assert_eq!(result.to_u64(), 8); // 1000
}

#[test]
fn test_add_with_carry() {
    let a = BigNum::from_u64(15); // 1111
    let b = BigNum::from_u64(1); // 0001
    let result = a.add(&b);
    assert_eq!(result.to_u64(), 16); // 10000
}

#[test]
fn test_add_different_lengths() {
    let a = BigNum::from_u64(255); // 11111111
    let b = BigNum::from_u64(1); // 00000001
    let result = a.add(&b);
    assert_eq!(result.to_u64(), 256); // 100000000
}

#[test]
fn test_add_zero_identity() {
    let x = BigNum::from_u64(42);
    let zero = BigNum::from_u64(0);
    let result = x.add(&zero);
    assert_eq!(result.to_bits(), x.to_bits());
}

#[test]
fn test_add_commutes() {
    let x = BigNum::from_u64(123456789);
    let y = BigNum::from_u64(987654321);
    let xy = x.add(&y);
    let yx = y.add(&x);
    assert_eq!(xy.to_bits(), yx.to_bits());
    assert_eq!(xy.to_u64(), 1111111110);
}
