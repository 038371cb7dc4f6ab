use bignum::BigNum;

#[test]
fn test_from_u64() {
    let bn = BigNum::from_u64(5);
    assert_eq!(bn.to_bits(), vec![true, false, true]); // 101 in binary (LSB first)
}

#[test]
fn test_is_zero() {
    let zero = BigNum::from_u64(0);
    let non_zero = BigNum::from_u64(1);
    assert!(zero.is_zero());
    assert!(!non_zero.is_zero());
}

#[test]
fn test_shl() {
    let a = BigNum::from_u64(5); // 101
    let result = a.shl(2); // Should be 10100 = 20
    assert_eq!(result.to_u64(), 20);
}

#[test]
fn test_shr() {
    let a = BigNum::from_u64(20); // 10100
    let result = a.shr(2); // Should be 101 = 5
    assert_eq!(result.to_u64(), 5);
}

#[test]
fn test_cmp() {
    let a = BigNum::from_u64(10);
    let b = BigNum::from_u64(5);
    let c = BigNum::from_u64(10);

    assert_eq!(a.cmp(&b), std::cmp::Ordering::Greater);
    assert_eq!(b.cmp(&a), std::cmp::Ordering::Less);
    assert_eq!(a.cmp(&c), std::cmp::Ordering::Equal);
}

#[test]
fn test_len() {
    assert_eq!(BigNum::from_u64(5).len(), 3);
    assert_eq!(BigNum::from_u64(0).len(), 1);
    assert_eq!(BigNum::from_bits(vec![true, false, false]).len(), 3);
}

#[test]
fn test_from_bits_stores_raw() {
    // the staging constructor keeps the sequence as given, unnormalized
    let raw = vec![true, false, true, false];
    let bn = BigNum::from_bits(raw.clone());
    assert_eq!(bn.to_bits(), raw);
    assert_eq!(bn.to_u64(), 5);
}

#[test]
fn test_normalize_idempotent() {
    let mut bn = BigNum::from_bits(vec![true, false, true, false, false]);
    bn.normalize();
    assert_eq!(bn.to_bits(), vec![true, false, true]);
    bn.normalize();
    assert_eq!(bn.to_bits(), vec![true, false, true]);
}

#[test]
fn test_normalize_zero() {
    let mut bn = BigNum::from_bits(vec![false, false, false, false]);
    bn.normalize();
    assert_eq!(bn.to_bits(), vec![false]);
}

#[test]
fn test_round_trip_u64() {
    for v in [0u64, 1, 2, 5, 255, 256, 1 << 32, u64::MAX - 1, u64::MAX] {
        assert_eq!(BigNum::from_u64(v).to_u64(), v);
    }
}

#[test]
fn test_to_u64_truncates() {
    // u64::MAX shifted up one bit: the low 64 bits read back as MAX - 1
    let big = BigNum::from_u64(u64::MAX).shl(1);
    assert_eq!(big.to_u64(), u64::MAX - 1);
    // shifted up 64 bits, every low bit is clear
    let bigger = BigNum::from_u64(u64::MAX).shl(64);
    assert_eq!(bigger.to_u64(), 0);
}

#[test]
fn test_shift_inverse() {
    let x = BigNum::from_u64(5);
    assert_eq!(x.shl(7).shr(7).to_u64(), 5);
    assert_eq!(x.shl(0).shr(0).to_u64(), 5);
    let y = BigNum::from_u64(u64::MAX);
    assert_eq!(y.shl(100).shr(100).to_u64(), u64::MAX);
}

#[test]
fn test_shr_past_length() {
    let a = BigNum::from_u64(5);
    let result = a.shr(10);
    assert!(result.is_zero());
    assert_eq!(result.to_bits(), vec![false]);
}

#[test]
fn test_cmp_unnormalized() {
    // comparison normalizes internally and never mutates the operands
    let a = BigNum::from_bits(vec![true, false, true, false, false]);
    let b = BigNum::from_u64(5);
    assert_eq!(a.cmp(&b), std::cmp::Ordering::Equal);
    assert_eq!(a.to_bits(), vec![true, false, true, false, false]);
}

#[test]
fn test_cmp_total() {
    let pairs = [(0u64, 0u64), (0, 1), (7, 7), (7, 8), (255, 254)];
    for (x, y) in pairs {
        let a = BigNum::from_u64(x);
        let b = BigNum::from_u64(y);
        let ord = a.cmp(&b);
        assert_eq!(ord, x.cmp(&y));
        let matches_less = ord == std::cmp::Ordering::Less;
        let matches_equal = ord == std::cmp::Ordering::Equal;
        let matches_greater = ord == std::cmp::Ordering::Greater;
        let count = [matches_less, matches_equal, matches_greater]
            .iter()
            .filter(|&&m| m)
            .count();
        assert_eq!(count, 1);
    }
}

#[test]
fn test_to_binary_string() {
    assert_eq!(BigNum::from_u64(5).to_binary_string(), "0b101");
    assert_eq!(BigNum::from_u64(0).to_binary_string(), "0b0");
    assert_eq!(BigNum::from_u64(16).to_binary_string(), "0b10000");
    // rendering normalizes first
    let raw = BigNum::from_bits(vec![true, false, true, false]);
    assert_eq!(raw.to_binary_string(), "0b101");
}
