use crypto_bigint::{ArithmeticError, U128, U256, U64};

#[test]
fn concrete_u128_scenario() {
    let hex = "AAAAAAAABBBBBBBBCCCCCCCCDDDDDDDD";
    let x = U128::from_be_hex(hex);
    assert_eq!(U128::from_be_bytes(x.to_be_bytes()), x);
    assert_eq!(U128::from_le_bytes(x.to_le_bytes()), x);
    assert_eq!(x.to_string(), hex);
    let y = U128::from_be_hex("0000000000000000000000000000000F");
    assert_eq!(U128::conditional_select(&x, &y, 0.into()), x);
    assert_eq!(U128::conditional_select(&x, &y, 1.into()), y);
}

#[test]
fn mul_wide_full_product() {
    let max = U128::max_value();
    let (lo, hi) = max.mul_wide(&max);
    // (2^128 - 1)^2 = 2^256 - 2^129 + 1
    assert_eq!(lo.to_words(), [1, 0]);
    assert_eq!(hi.to_words(), [u64::MAX - 1, u64::MAX]);
    let a = U128::from_words([3, 0]);
    let b = U128::from_words([5, 7]);
    let (lo, hi) = a.mul_wide(&b);
    assert_eq!(lo.to_words(), [15, 21]);
    assert_eq!(hi, U128::zero());
}

#[test]
fn wrapping_mul_truncates_and_one_is_identity() {
    let x = U128::from_be_hex("AAAAAAAABBBBBBBBCCCCCCCCDDDDDDDD");
    assert_eq!(x.wrapping_mul(&U128::one()), x);
    let two = U128::from_words([2, 0]);
    let top = U128::from_words([0, 1 << 63]);
    assert_eq!(top.wrapping_mul(&two), U128::zero());
}

#[test]
fn division_law_exact_values() {
    let a = U128::from_words([100, 0]);
    let b = U128::from_words([7, 0]);
    let (q, r) = a.div_rem(&b).unwrap();
    assert_eq!(q.to_words(), [14, 0]);
    assert_eq!(r.to_words(), [2, 0]);

    let a = U256::from_be_hex("0000000000000001000000000000000000000000000000000000000000000005");
    let b = U256::from_words([3, 0, 0, 0]);
    let (q, r) = a.div_rem(&b).unwrap();
    // 2^192 + 5 = 3 * q + r
    let back = q.wrapping_mul(&b).wrapping_add(&r);
    assert_eq!(back, a);
    assert_eq!(r.to_words(), [0, 0, 0, 0]);
}

#[test]
fn division_by_zero_is_reported() {
    let a = U128::from_words([1, 2]);
    assert_eq!(a.div_rem(&U128::zero()), Err(ArithmeticError::DivisionByZero));
}

#[test]
fn division_by_larger_divisor() {
    let a = U128::from_words([5, 0]);
    let b = U128::from_words([0, 1]);
    let (q, r) = a.div_rem(&b).unwrap();
    assert_eq!(q, U128::zero());
    assert_eq!(r, a);
}

#[test]
fn modular_add_sub_neg() {
    let m = U64::from_words([13]);
    let a = U64::from_words([9]);
    let b = U64::from_words([8]);
    assert_eq!(a.add_mod(&b, &m).to_words(), [4]);
    assert_eq!(b.sub_mod(&a, &m).to_words(), [12]);
    assert_eq!(a.sub_mod(&b, &m).to_words(), [1]);
    assert_eq!(a.neg_mod(&m).to_words(), [4]);
    assert_eq!(U64::zero().neg_mod(&m), U64::zero());
    assert_eq!(a.add_mod(&U64::zero(), &m), a);
}

#[test]
fn modular_add_near_the_top() {
    let m = U64::from_words([u64::MAX - 1]);
    let a = U64::from_words([u64::MAX - 2]);
    // (2^64 - 3) * 2 mod (2^64 - 2) = 2^64 - 4
    assert_eq!(a.add_mod(&a, &m).to_words(), [u64::MAX - 3]);
}

#[test]
fn modular_mul() {
    let m = U128::from_words([1_000_000_007, 0]);
    let a = U128::from_words([123_456_789, 0]);
    let b = U128::from_words([987_654_321, 0]);
    assert_eq!(a.mul_mod(&b, &m).to_words(), [259_106_859, 0]);
    let m = U64::from_words([u64::MAX]);
    let a = U64::from_words([u64::MAX - 1]);
    // (-1)^2 = 1 modulo 2^64 - 1
    assert_eq!(a.mul_mod(&a, &m).to_words(), [1]);
}

#[test]
fn bitwise_ops() {
    let a = U128::from_words([0b1100, u64::MAX]);
    let b = U128::from_words([0b1010, 0]);
    assert_eq!(a.bitand(&b).to_words(), [0b1000, 0]);
    assert_eq!(a.bitor(&b).to_words(), [0b1110, u64::MAX]);
    assert_eq!(a.bitxor(&b).to_words(), [0b0110, u64::MAX]);
    assert_eq!(a.not().to_words(), [!0b1100u64, 0]);
}

#[test]
fn resize_extends_and_truncates() {
    let a = U128::from_words([1, 2]);
    let wide: U256 = a.resize();
    assert_eq!(wide.to_words(), [1, 2, 0, 0]);
    let narrow: U64 = a.resize();
    assert_eq!(narrow.to_words(), [1]);
}

#[test]
fn concat_then_split() {
    let high = U128::from_words([3, 4]);
    let low = U128::from_words([1, 2]);
    let wide: U256 = U128::concat(&high, &low);
    assert_eq!(wide.to_words(), [1, 2, 3, 4]);
    let (h, l): (U128, U128) = wide.split();
    assert_eq!(h, high);
    assert_eq!(l, low);
}

#[test]
fn is_zero_checks_every_limb() {
    assert!(U256::zero().is_zero());
    assert!(!U256::from_words([0, 0, 0, 1]).is_zero());
}

#[test]
fn shifts_exact_and_invalid() {
    let x = U128::from_words([0x8000_0000_0000_0001, 0]);
    assert_eq!(x.shl(1).unwrap().to_words(), [2, 1]);
    assert_eq!(x.shl(64).unwrap().to_words(), [0, 0x8000_0000_0000_0001]);
    assert_eq!(x.shl(0).unwrap(), x);
    assert_eq!(x.shl(128), Err(ArithmeticError::InvalidShift));
    let y = U128::from_words([0, 0x10]);
    assert_eq!(y.shr(4).unwrap().to_words(), [0, 1]);
    assert_eq!(y.shr(68).unwrap().to_words(), [1, 0]);
    assert_eq!(y.shr(127).unwrap(), U128::zero());
    assert_eq!(y.shr(200), Err(ArithmeticError::InvalidShift));
}

#[test]
fn integer_square_root() {
    assert_eq!(U128::from_words([99, 0]).sqrt().to_words(), [9, 0]);
    assert_eq!(U128::from_words([100, 0]).sqrt().to_words(), [10, 0]);
    assert_eq!(U128::zero().sqrt(), U128::zero());
    assert_eq!(U128::max_value().sqrt().to_words(), [u64::MAX, 0]);
    assert_eq!(U64::from_words([2]).sqrt().to_words(), [1]);
}

#[test]
fn modular_inverse() {
    let m = U64::from_words([13]);
    let a = U64::from_words([5]);
    let inv = a.inv_mod(&m).unwrap();
    assert_eq!(inv.to_words(), [8]);
    assert_eq!(a.mul_mod(&inv, &m), U64::one());
    let m = U64::from_words([12]);
    assert_eq!(U64::from_words([8]).inv_mod(&m), Err(ArithmeticError::NotInvertible));
    assert_eq!(U64::zero().inv_mod(&m), Err(ArithmeticError::NotInvertible));
    assert_eq!(U64::zero().inv_mod(&U64::one()), Err(ArithmeticError::NotInvertible));
    assert_eq!(U64::one().inv_mod(&m), Ok(U64::one()));
}

#[test]
fn modular_inverse_wide() {
    let m = U256::from_be_hex("FFFFFFFFFFFFFFFFFFFFFFFFFFFFFFFFFFFFFFFFFFFFFFFFFFFFFFFEFFFFFC2F");
    let a = U256::from_be_hex("0123456789ABCDEF0123456789ABCDEF0123456789ABCDEF0123456789ABCDEF");
    let inv = a.inv_mod(&m).unwrap();
    assert_eq!(a.mul_mod(&inv, &m), U256::one());
}

#[test]
fn from_small_value_zero_extends() {
    assert_eq!(U128::from_u64(42).to_words(), [42, 0]);
    assert_eq!(U64::from_u64(u64::MAX), U64::max_value());
}

#[test]
fn constant_time_comparisons() {
    let a = U128::from_words([5, 1]);
    let b = U128::from_words([4, 2]);
    assert_eq!(a.ct_lt(&b).unwrap_u8(), 1);
    assert_eq!(b.ct_lt(&a).unwrap_u8(), 0);
    assert_eq!(a.ct_lt(&a).unwrap_u8(), 0);
    assert_eq!(a.ct_eq(&a).unwrap_u8(), 1);
    assert_eq!(a.ct_eq(&b).unwrap_u8(), 0);
}
