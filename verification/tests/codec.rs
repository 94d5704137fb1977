use storage::{decode, encode, Decimal, Error, U256};

fn digits_of(text: &str) -> Vec<u8> {
    text.bytes().map(|b| b - b'0').collect()
}

fn decimal(negative: bool, text: &str, scale: i64) -> Decimal {
    Decimal { negative, digits: digits_of(text), scale }
}

const MAX_TEXT: &str =
    "115792089237316195423570985008687907853269984665640564039457584007913129639935";
const TWO_POW_256_TEXT: &str =
    "115792089237316195423570985008687907853269984665640564039457584007913129639936";

#[test]
fn encode_zero_is_the_single_digit_zero() {
    let d = encode(U256::zero());
    assert_eq!(d, Decimal { negative: false, digits: vec![0], scale: 0 });
}

#[test]
fn encode_small_value_has_its_decimal_digits() {
    let d = encode(U256::from_u64(1234567890));
    assert_eq!(d, decimal(false, "1234567890", 0));
}

#[test]
fn encode_single_digit_has_no_leading_zero() {
    assert_eq!(encode(U256::from_u64(7)).digits, vec![7]);
    assert_eq!(encode(U256::from_u64(10)).digits, vec![1, 0]);
}

#[test]
fn encode_value_above_64_bits() {
    let v = U256::from_limbs([7, 10, 0, 0]);
    assert_eq!(encode(v), decimal(false, "184467440737095516167", 0));
}

#[test]
fn encode_four_limb_value() {
    let v = U256::from_limbs([
        0x8796a5b4c3d2e1f0,
        0x0f1e2d3c4b5a6978,
        0xfedcba9876543210,
        0x0123456789abcdef,
    ]);
    assert_eq!(
        encode(v),
        decimal(
            false,
            "514631507721405312519378913364952599457899916736173488040697764812573303280",
            0
        )
    );
}

#[test]
fn encode_greatest_value_has_78_digits() {
    let d = encode(U256::max_value());
    assert_eq!(d.digits.len(), 78);
    assert_eq!(d, decimal(false, MAX_TEXT, 0));
}

#[test]
fn decode_reads_back_what_encode_wrote() {
    let samples = [
        U256::zero(),
        U256::from_u64(1),
        U256::from_u64(9),
        U256::from_u64(10),
        U256::from_u64(100),
        U256::from_u64(u64::MAX),
        U256::from_limbs([0, 1, 0, 0]),
        U256::from_limbs([0, 0, 1, 0]),
        U256::from_limbs([0, 0, 0, 1]),
        U256::from_limbs([u64::MAX, 0, u64::MAX, 0]),
        U256::from_limbs([0x8796a5b4c3d2e1f0, 0x0f1e2d3c4b5a6978, 0xfedcba9876543210, 0x0123456789abcdef]),
        U256::max_value(),
    ];
    for v in samples {
        assert_eq!(decode(&encode(v)), Ok(v));
    }
}

#[test]
fn decode_plain_integer() {
    assert_eq!(decode(&decimal(false, "100", 0)), Ok(U256::from_u64(100)));
}

#[test]
fn decode_ignores_leading_zeros() {
    assert_eq!(decode(&decimal(false, "000042", 0)), Ok(U256::from_u64(42)));
}

#[test]
fn decode_empty_digits_is_zero() {
    assert_eq!(decode(&Decimal { negative: false, digits: vec![], scale: 0 }), Ok(U256::zero()));
}

#[test]
fn decode_rejects_negative() {
    assert_eq!(decode(&decimal(true, "5", 0)), Err(Error::ConversionError));
    assert_eq!(decode(&decimal(true, "100", -2)), Err(Error::ConversionError));
    assert_eq!(decode(&decimal(true, "500", 2)), Err(Error::ConversionError));
}

#[test]
fn decode_accepts_negative_zero() {
    assert_eq!(decode(&decimal(true, "0", 0)), Ok(U256::zero()));
    assert_eq!(decode(&decimal(true, "000", 2)), Ok(U256::zero()));
}

#[test]
fn decode_rejects_fraction() {
    assert_eq!(decode(&decimal(false, "15", 1)), Err(Error::ConversionError));
    assert_eq!(decode(&decimal(false, "1001", 3)), Err(Error::ConversionError));
}

#[test]
fn decode_accepts_fraction_of_zeros() {
    assert_eq!(decode(&decimal(false, "1500", 2)), Ok(U256::from_u64(15)));
    assert_eq!(decode(&decimal(false, "70", 1)), Ok(U256::from_u64(7)));
}

#[test]
fn decode_scale_beyond_the_digits() {
    assert_eq!(decode(&decimal(false, "00", 5)), Ok(U256::zero()));
    assert_eq!(decode(&decimal(false, "1", 5)), Err(Error::ConversionError));
    assert_eq!(decode(&decimal(false, "10", 2)), Err(Error::ConversionError));
    assert_eq!(decode(&decimal(false, "100", 3)), Err(Error::ConversionError));
    assert_eq!(decode(&decimal(false, "1", i64::MAX)), Err(Error::ConversionError));
    assert_eq!(decode(&decimal(false, "0", i64::MAX)), Ok(U256::zero()));
}

#[test]
fn decode_negative_scale_appends_zeros() {
    assert_eq!(decode(&decimal(false, "12", -3)), Ok(U256::from_u64(12000)));
    assert_eq!(
        decode(&decimal(false, "18446744073709551615", -20)),
        Ok(U256::from_limbs([0x9438a1d29cf00000, 0x6bc75e2d630ffffa, 0x5, 0]))
    );
}

#[test]
fn decode_greatest_power_of_ten() {
    assert_eq!(
        decode(&decimal(false, "1", -77)),
        Ok(U256::from_limbs([0, 0xaa987b6e6fd2a000, 0x49ef0eb713f39ebe, 0xdd15fe86affad912]))
    );
    assert_eq!(decode(&decimal(false, "1", -78)), Err(Error::ConversionError));
}

#[test]
fn decode_extreme_negative_scale() {
    assert_eq!(decode(&decimal(false, "0", i64::MIN)), Ok(U256::zero()));
    assert_eq!(decode(&decimal(false, "1", i64::MIN)), Err(Error::ConversionError));
}

#[test]
fn decode_rejects_what_exceeds_256_bits() {
    assert_eq!(decode(&decimal(false, MAX_TEXT, 0)), Ok(U256::max_value()));
    assert_eq!(decode(&decimal(false, TWO_POW_256_TEXT, 0)), Err(Error::ConversionError));
    let mut longer = String::from(MAX_TEXT);
    longer.push('0');
    assert_eq!(decode(&decimal(false, &longer, 0)), Err(Error::ConversionError));
    assert_eq!(decode(&decimal(false, &longer, 1)), Ok(U256::max_value()));
}

#[test]
fn decode_rejects_malformed_digit() {
    assert_eq!(
        decode(&Decimal { negative: false, digits: vec![1, 10], scale: 0 }),
        Err(Error::ConversionError)
    );
    assert_eq!(
        decode(&Decimal { negative: false, digits: vec![255], scale: 3 }),
        Err(Error::ConversionError)
    );
}

#[test]
fn div_rem_10_and_mul_10_add_are_inverse() {
    let v = U256::from_limbs([3, 2, 1, 0]);
    let (q, r) = v.div_rem_10();
    assert_eq!(q.mul_10_add(r), Some(v));
    assert_eq!(U256::max_value().mul_10_add(0), None);
    assert_eq!(U256::from_u64(25).div_rem_10(), (U256::from_u64(2), 5));
    assert_eq!(U256::from_u64(2).mul_10_add(5), Some(U256::from_u64(25)));
}

#[test]
fn u256_comparisons() {
    assert!(U256::zero().is_zero());
    assert!(!U256::from_limbs([0, 0, 0, 1]).is_zero());
    assert!(U256::from_u64(5).same(&U256::from_limbs([5, 0, 0, 0])));
    assert!(!U256::from_u64(5).same(&U256::from_limbs([5, 1, 0, 0])));
    assert_eq!(U256::max_value().limbs, [u64::MAX; 4]);
}

#[test]
fn error_retry_classification() {
    assert!(Error::StoreUnavailable.is_retryable());
    assert!(!Error::ConversionError.is_retryable());
    assert!(!Error::ConstraintViolation.is_retryable());
}
