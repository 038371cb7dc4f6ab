use bignum::BigNum;

#[test]
fn test_multiply_simple() {
    let a = BigNum::from_u64(5); // 101
    let b = BigNum::from_u64(3); // 011
    let result = a.multiply(&b);
    assert_eq!(result.to_u64(), 15); // 5 * 3 = 15
}

#[test]
fn test_multiply_by_zero() {
    let a = BigNum::from_u64(42);
    let b = BigNum::from_u64(0);
    let result = a.multiply(&b);
    assert_eq!(result.to_u64(), 0);
}

#[test]
fn test_multiply_by_one() {
    let a = BigNum::from_u64(42);
    let b = BigNum::from_u64(1);
    let result = a.multiply(&b);
    assert_eq!(result.to_u64(), 42);
}

#[test]
fn test_multiply_larger() {
    let a = BigNum::from_u64(12); // 1100
    let b = BigNum::from_u64(15); // 1111
    let result = a.multiply(&b);
    assert_eq!(result.to_u64(), 180); // 12 * 15 = 180
}

#[test]
fn test_multiply_powers_of_two() {
    let a = BigNum::from_u64(8); // 1000
    let b = BigNum::from_u64(16); // 10000
    let result = a.multiply(&b);
    assert_eq!(result.to_u64(), 128); // 8 * 16 = 128
}

#[test]
fn test_multiply_identity_bits() {
    let x = BigNum::from_u64(42);
    let one = BigNum::from_u64(1);
    assert_eq!(x.multiply(&one).to_bits(), x.to_bits());
    let zero = BigNum::from_u64(0);
    assert_eq!(x.multiply(&zero).to_bits(), vec![false]);
}

#[test]
fn test_multiply_wide() {
    // the product runs past 64 bits; check it through a shift back down
    let a = BigNum::from_u64(u64::MAX);
    let b = BigNum::from_u64(2);
    let product = a.multiply(&b);
    assert_eq!(product.len(), 65);
    assert_eq!(product.shr(1).to_u64(), u64::MAX);
    assert_eq!(product.to_u64(), u64::MAX - 1);
}
