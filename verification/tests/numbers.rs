use btclib::u256::U256;

fn limbs(w3: u64, w2: u64, w1: u64, w0: u64) -> U256 {
    U256 { w3, w2, w1, w0 }
}

#[test]
fn order_goes_by_the_most_significant_limb() {
    let small = limbs(0, u64::MAX, u64::MAX, u64::MAX);
    let big = limbs(1, 0, 0, 0);
    assert!(small.lt(&big));
    assert!(small.le(&big));
    assert!(!big.lt(&small));
    assert!(!big.le(&small));
    assert!(big.le(&big));
    assert!(!big.lt(&big));
    assert!(limbs(0, 0, 0, 1).lt(&limbs(0, 0, 1, 0)));
    assert!(limbs(0, 0, 1, 0).lt(&limbs(0, 1, 0, 0)));
    assert!(small < big);
    assert_eq!(small.min(big), small);
    assert_eq!(big.min(small), small);
    assert!(U256::zero().le(&small));
    assert!(big.le(&U256::max_value()));
    assert_eq!(U256::from_u64(7), limbs(0, 0, 0, 7));
}

#[test]
fn product_by_a_small_number_carries_across_limbs() {
    assert_eq!(U256::from_u64(6).checked_mul_u64(7), Some(U256::from_u64(42)));
    assert_eq!(
        limbs(0, 0, 0, u64::MAX).checked_mul_u64(u64::MAX),
        Some(limbs(0, 0, u64::MAX - 1, 1))
    );
    assert_eq!(
        limbs(0, u64::MAX, u64::MAX, u64::MAX).checked_mul_u64(4),
        Some(limbs(3, u64::MAX, u64::MAX, u64::MAX - 3))
    );
    assert_eq!(U256::max_value().checked_mul_u64(1), Some(U256::max_value()));
    assert_eq!(U256::max_value().checked_mul_u64(0), Some(U256::zero()));
    assert_eq!(U256::max_value().checked_mul_u64(2), None);
    assert_eq!(limbs(1 << 63, 0, 0, 0).checked_mul_u64(2), None);
    assert_eq!(limbs(1 << 62, 0, 0, 0).checked_mul_u64(2), Some(limbs(1 << 63, 0, 0, 0)));
}

#[test]
fn quotient_by_a_small_number_is_rounded_down() {
    assert_eq!(U256::from_u64(43).div_u64(7), U256::from_u64(6));
    assert_eq!(limbs(1, 0, 0, 0).div_u64(2), limbs(0, 1 << 63, 0, 0));
    assert_eq!(limbs(1, 0, 0, 0).div_u64(3), limbs(0, u64::MAX / 3, u64::MAX / 3, u64::MAX / 3));
    assert_eq!(U256::max_value().div_u64(u64::MAX), limbs(1, 1, 1, 1));
    assert_eq!(U256::max_value().div_u64(1), U256::max_value());
    assert_eq!(btclib::min_target().div_u64(4), limbs(0x3F, u64::MAX, u64::MAX, u64::MAX));
    assert_eq!(U256::zero().div_u64(9), U256::zero());
}

#[test]
fn product_and_quotient_agree_with_big_integers() {
    use_bigint_check(limbs(0x0F, 0x1234_5678_9ABC_DEF0, 77, u64::MAX - 14), 1999, 500);
    use_bigint_check(limbs(0, 0, u64::MAX, u64::MAX), 0xFFFF_FFFF, 3);
    use_bigint_check(limbs(0xFF, u64::MAX, u64::MAX, u64::MAX), 2000, 499);
}

fn use_bigint_check(x: U256, m: u64, d: u64) {
    let big = bigdecimal::num_bigint::BigUint::from_bytes_be(&x.to_be_bytes());
    let product = x.checked_mul_u64(m).expect("the product fits");
    assert_eq!(
        bigdecimal::num_bigint::BigUint::from_bytes_be(&product.to_be_bytes()),
        &big * m
    );
    let quotient = product.div_u64(d);
    assert_eq!(
        bigdecimal::num_bigint::BigUint::from_bytes_be(&quotient.to_be_bytes()),
        &big * m / d
    );
}

#[test]
fn bytes_are_most_significant_first() {
    let x = limbs(0x0102_0304_0506_0708, 0x1112_1314_1516_1718, 0x2122_2324_2526_2728, 0x3132_3334_3536_3738);
    let bytes = x.to_be_bytes();
    assert_eq!(bytes.len(), 32);
    assert_eq!(&bytes[..8], &[1, 2, 3, 4, 5, 6, 7, 8]);
    assert_eq!(&bytes[24..], &[0x31, 0x32, 0x33, 0x34, 0x35, 0x36, 0x37, 0x38]);
    assert_eq!(U256::from_be_slice(&bytes, 0), x);
    let mut padded = vec![0xAA; 3];
    padded.extend_from_slice(&bytes);
    padded.push(0xBB);
    assert_eq!(U256::from_be_slice(&padded, 3), x);
    assert_eq!(U256::from_u64(1).to_be_bytes()[31], 1);
}

#[test]
fn small_numbers_are_read_and_written_most_significant_first() {
    let mut out = vec![9u8];
    btclib::u256::push_u64_be(&mut out, 0x0102_0304_0506_0708);
    assert_eq!(out, vec![9, 1, 2, 3, 4, 5, 6, 7, 8]);
    assert_eq!(btclib::u256::read_u64_be(&out, 1), 0x0102_0304_0506_0708);
    let mut out = vec![];
    btclib::u256::push_u128_be(&mut out, 0x0102_0304_0506_0708_090a_0b0c_0d0e_0f10);
    assert_eq!(out, vec![1, 2, 3, 4, 5, 6, 7, 8, 9, 10, 11, 12, 13, 14, 15, 16]);
    assert_eq!(btclib::u256::read_u128_be(&out, 0), 0x0102_0304_0506_0708_090a_0b0c_0d0e_0f10);
}

#[test]
fn decimal_digits_have_no_leading_zeros() {
    assert_eq!(U256::zero().to_decimal(), b"0".to_vec());
    assert_eq!(U256::from_u64(7).to_decimal(), b"7".to_vec());
    assert_eq!(U256::from_u64(1_000_000).to_decimal(), b"1000000".to_vec());
    assert_eq!(U256::from_u64(u64::MAX).to_decimal(), b"18446744073709551615".to_vec());
    assert_eq!(limbs(0, 0, 1, 0).to_decimal(), b"18446744073709551616".to_vec());
    assert_eq!(
        U256::max_value().to_decimal(),
        b"115792089237316195423570985008687907853269984665640564039457584007913129639935".to_vec()
    );
    assert_eq!(
        btclib::min_target().to_decimal(),
        b"1606938044258990275541962092341162602522202993782792835301375".to_vec()
    );
}

#[test]
fn decimal_digits_are_read_back() {
    assert_eq!(U256::from_decimal(b"0"), Some(U256::zero()));
    assert_eq!(U256::from_decimal(b"000012"), Some(U256::from_u64(12)));
    assert_eq!(U256::from_decimal(b"18446744073709551616"), Some(limbs(0, 0, 1, 0)));
    for x in [U256::max_value(), btclib::min_target(), limbs(5, 0, u64::MAX, 17)] {
        assert_eq!(U256::from_decimal(&x.to_decimal()), Some(x));
    }
}

#[test]
fn what_is_no_decimal_number_of_256_bits_is_not_read() {
    assert_eq!(U256::from_decimal(b""), None);
    assert_eq!(U256::from_decimal(b"12a"), None);
    assert_eq!(U256::from_decimal(b"-1"), None);
    assert_eq!(U256::from_decimal(b"1.5"), None);
    assert_eq!(U256::from_decimal(b" 1"), None);
    assert_eq!(
        U256::from_decimal(
            b"115792089237316195423570985008687907853269984665640564039457584007913129639936"
        ),
        None
    );
    assert_eq!(
        U256::from_decimal(
            b"1157920892373161954235709850086879078532699846656405640394575840079131296399350"
        ),
        None
    );
}

#[test]
fn sum_with_a_small_number_carries_across_limbs() {
    assert_eq!(U256::from_u64(1).checked_add_u64(2), Some(U256::from_u64(3)));
    assert_eq!(limbs(0, 0, u64::MAX, u64::MAX).checked_add_u64(1), Some(limbs(0, 1, 0, 0)));
    assert_eq!(U256::max_value().checked_add_u64(0), Some(U256::max_value()));
    assert_eq!(U256::max_value().checked_add_u64(1), None);
    assert_eq!(limbs(u64::MAX, u64::MAX, u64::MAX, 5).checked_add_u64(u64::MAX), None);
    assert_eq!(U256::from_u64(43).div_rem_u64(7), (U256::from_u64(6), 1));
    assert!(U256::zero().is_zero());
    assert!(!limbs(1, 0, 0, 0).is_zero());
}
