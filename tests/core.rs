use crypto_bigint::{Limb, U128, U256, U64};

#[test]
fn display() {
    let hex = "AAAAAAAABBBBBBBBCCCCCCCCDDDDDDDD";
    let n = U128::from_be_hex(hex);
    assert_eq!(hex, n.to_string());

    let hex = "AAAAAAAABBBBBBBB0000000000000000";
    let n = U128::from_be_hex(hex);
    assert_eq!(hex, n.to_string());

    let hex = "AAAAAAAABBBBBBBB00000000DDDDDDDD";
    let n = U128::from_be_hex(hex);
    assert_eq!(hex, n.to_string());

    let hex = "AAAAAAAABBBBBBBB0CCCCCCCDDDDDDDD";
    let n = U128::from_be_hex(hex);
    assert_eq!(hex, n.to_string());
}

#[test]
fn from_bytes() {
    let a = U128::from_be_hex("AAAAAAAABBBBBBBB0CCCCCCCDDDDDDDD");

    let be_bytes = a.to_be_bytes();
    let le_bytes = a.to_le_bytes();
    for i in 0..16 {
        assert_eq!(le_bytes[i], be_bytes[15 - i]);
    }

    let a_from_be = U128::from_be_bytes(be_bytes);
    let a_from_le = U128::from_le_bytes(le_bytes);
    assert_eq!(a_from_be, a_from_le);
    assert_eq!(a_from_be, a);
}

#[test]
fn conditional_select() {
    let a = U128::from_be_hex("00002222444466668888AAAACCCCEEEE");
    let b = U128::from_be_hex("11113333555577779999BBBBDDDDFFFF");

    let select_0 = U128::conditional_select(&a, &b, 0.into());
    assert_eq!(a, select_0);

    let select_1 = U128::conditional_select(&a, &b, 1.into());
    assert_eq!(b, select_1);
}

#[test]
fn words_round_trip() {
    let n = U128::from_words([0x0123_4567_89ab_cdef, 0xfedc_ba98_7654_3210]);
    assert_eq!(n.to_words(), [0x0123_4567_89ab_cdef, 0xfedc_ba98_7654_3210]);
    assert_eq!(n.to_string(), "FEDCBA98765432100123456789ABCDEF");
    assert_eq!(n.to_lower_hex(), "fedcba98765432100123456789abcdef");
    assert_eq!(n.as_limbs()[0], Limb(0x0123_4567_89ab_cdef));
    assert_eq!(n.to_limbs()[1], Limb(0xfedc_ba98_7654_3210));
    assert_eq!(U128::new(n.to_limbs()), n);
}

#[test]
fn limbs_mut_writes_through() {
    let mut n = U64::zero();
    n.as_limbs_mut()[0] = Limb(7);
    assert_eq!(n.to_words(), [7]);
}

#[test]
fn hex_accepts_lower_case() {
    let a = U128::from_be_hex("aaaaaaaabbbbbbbbccccccccdddddddd");
    assert_eq!(a.to_string(), "AAAAAAAABBBBBBBBCCCCCCCCDDDDDDDD");
}

#[test]
fn byte_encodings_exact() {
    let a = U128::from_be_hex("000102030405060708090A0B0C0D0E0F");
    let be: Vec<u8> = (0u8..16).collect();
    assert_eq!(a.to_be_bytes(), be);
    let le: Vec<u8> = (0u8..16).rev().collect();
    assert_eq!(a.to_le_bytes(), le);
}

#[test]
fn is_odd_follows_low_limb() {
    assert_eq!(U128::from_be_hex("00000000000000000000000000000003").is_odd().unwrap_u8(), 1);
    assert_eq!(U128::from_be_hex("00000000000000030000000000000002").is_odd().unwrap_u8(), 0);
}

#[test]
fn constants() {
    assert_eq!(U128::zero().to_words(), [0, 0]);
    assert_eq!(U128::one().to_words(), [1, 0]);
    assert_eq!(U128::max_value().to_words(), [u64::MAX, u64::MAX]);
    assert_eq!(U128::default(), U128::zero());
}

#[test]
fn add_carries_across_limbs() {
    let a = U128::from_words([u64::MAX, 0]);
    let one = U128::one();
    assert_eq!(a.wrapping_add(&one).to_words(), [0, 1]);
    assert_eq!(a.checked_add(&one).unwrap().to_words(), [0, 1]);
}

#[test]
fn add_overflow_wraps_and_checked_reports() {
    let max = U128::max_value();
    let two = U128::from_words([2, 0]);
    assert_eq!(max.wrapping_add(&two).to_words(), [1, 0]);
    assert!(max.checked_add(&two).is_none());
    let (sum, carry) = max.adc(&two, Limb(0));
    assert_eq!(sum.to_words(), [1, 0]);
    assert_eq!(carry, Limb(1));
}

#[test]
fn add_zero_is_identity() {
    let x = U256::from_be_hex("0123456789ABCDEF0123456789ABCDEF0123456789ABCDEF0123456789ABCDEF");
    assert_eq!(x.wrapping_add(&U256::zero()), x);
}

#[test]
fn sub_borrows_and_underflow() {
    let a = U128::from_words([0, 1]);
    let one = U128::one();
    assert_eq!(a.wrapping_sub(&one).to_words(), [u64::MAX, 0]);
    assert_eq!(U128::zero().wrapping_sub(&one), U128::max_value());
    assert!(U128::zero().checked_sub(&one).is_none());
    assert_eq!(a.checked_sub(&a).unwrap(), U128::zero());
    let (d, borrow) = one.sbb(&a, Limb(0));
    assert_eq!(d.to_words(), [1, u64::MAX]);
    assert_eq!(borrow, Limb(1));
}

#[test]
fn sub_self_is_zero() {
    let x = U128::from_be_hex("AAAAAAAABBBBBBBBCCCCCCCCDDDDDDDD");
    assert_eq!(x.wrapping_sub(&x), U128::zero());
}

#[test]
fn negation() {
    assert_eq!(U128::zero().wrapping_neg(), U128::zero());
    assert_eq!(U128::one().wrapping_neg(), U128::max_value());
    let x = U128::from_words([5, 9]);
    assert_eq!(x.wrapping_neg().to_words(), [u64::MAX - 4, u64::MAX - 9]);
}

#[test]
fn limb_primitives() {
    assert_eq!(Limb(u64::MAX).adc(Limb(1), Limb(1)), (Limb(1), Limb(1)));
    assert_eq!(Limb(0).sbb(Limb(1), Limb(0)), (Limb(u64::MAX), Limb(1)));
    assert_eq!(Limb(5).sbb(Limb(2), Limb(1)), (Limb(2), Limb(0)));
    assert_eq!(Limb(u64::MAX).mul_wide(Limb(u64::MAX)), (Limb(1), Limb(u64::MAX - 1)));
    assert_eq!(Limb(1).mac(Limb(2), Limb(3), Limb(4)), (Limb(11), Limb(0)));
}
