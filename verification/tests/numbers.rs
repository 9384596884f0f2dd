use bencodex::digits::{try_parse_small_integer, try_parse_small_positive};
use bencodex::{BencodexValue, BigInt, Decode};

#[test]
fn test_try_parse_small_positive() {
    assert_eq!(try_parse_small_positive(b"0"), Some(0));
    assert_eq!(try_parse_small_positive(b"1"), Some(1));
    assert_eq!(try_parse_small_positive(b"123"), Some(123));
    assert_eq!(
        try_parse_small_positive(b"999999999999999999"),
        Some(999999999999999999)
    );
    // u64::MAX = 18446744073709551615
    assert_eq!(
        try_parse_small_positive(b"18446744073709551615"),
        Some(u64::MAX)
    );

    // Too large (u64::MAX + 1 overflows)
    assert_eq!(try_parse_small_positive(b"18446744073709551616"), None);
    // Way too large (21 digits)
    assert_eq!(try_parse_small_positive(b"999999999999999999999"), None);

    // Negative
    assert_eq!(try_parse_small_positive(b"-1"), None);

    // Empty
    assert_eq!(try_parse_small_positive(b""), None);

    // Non-digit
    assert_eq!(try_parse_small_positive(b"12a3"), None);
}

#[test]
fn test_try_parse_small_integer() {
    assert_eq!(try_parse_small_integer(b"0"), Some(0));
    assert_eq!(try_parse_small_integer(b"123"), Some(123));
    assert_eq!(try_parse_small_integer(b"-123"), Some(-123));
    assert_eq!(
        try_parse_small_integer(b"9223372036854775807"),
        Some(i64::MAX)
    );
    assert_eq!(
        try_parse_small_integer(b"-9223372036854775808"),
        Some(i64::MIN)
    );

    // Too large
    assert_eq!(try_parse_small_integer(b"9223372036854775808"), None);
    assert_eq!(try_parse_small_integer(b"-9223372036854775809"), None);
}

#[test]
fn test_bigint_construction() {
    assert_eq!(BigInt::from_i64(0), BigInt::from_u64(0));
    assert_eq!(BigInt::from_i64(42), BigInt::from_u64(42));
    assert_ne!(BigInt::from_i64(-42), BigInt::from_i64(42));
    assert_eq!(
        BigInt::from_decimal(b"0042".to_vec(), false),
        BigInt::from_i64(42)
    );
    // a zero magnitude discards the sign
    assert_eq!(BigInt::from_decimal(b"000".to_vec(), true), BigInt::from_i64(0));
    assert_eq!(
        BigInt::from_decimal(b"9223372036854775808".to_vec(), true),
        BigInt::from_i64(i64::MIN)
    );
}

#[test]
fn test_bigint_decimal_bytes() {
    assert_eq!(BigInt::from_i64(0).decimal_bytes(), b"0".to_vec());
    assert_eq!(BigInt::from_i64(42).decimal_bytes(), b"42".to_vec());
    assert_eq!(BigInt::from_i64(-42).decimal_bytes(), b"-42".to_vec());
    assert_eq!(
        BigInt::from_u64(u64::MAX).decimal_bytes(),
        b"18446744073709551615".to_vec()
    );
}

#[test]
fn test_decode_arbitrary_precision() {
    // a number far beyond 64 bits decodes exactly, digit for digit
    let encoded = b"i123456789012345678901234567890123456789e".to_vec();
    let decoded = encoded.decode().unwrap();
    assert_eq!(
        decoded,
        BencodexValue::Number(BigInt::from_decimal(
            b"123456789012345678901234567890123456789".to_vec(),
            false
        ))
    );
}

#[test]
fn test_decode_number_leading_zeros() {
    // the decoder normalizes digits, so these agree with their plain forms
    assert_eq!(
        b"i007e".to_vec().decode().unwrap(),
        BencodexValue::Number(BigInt::from_i64(7))
    );
    assert_eq!(
        b"i-0e".to_vec().decode().unwrap(),
        BencodexValue::Number(BigInt::from_i64(0))
    );
}

#[test]
fn test_bigint_to_u64() {
    assert_eq!(BigInt::from_u64(0).to_u64(), Some(0));
    assert_eq!(BigInt::from_u64(u64::MAX).to_u64(), Some(u64::MAX));
    assert_eq!(BigInt::from_i64(-1).to_u64(), None);
    assert_eq!(
        BigInt::from_decimal(b"18446744073709551616".to_vec(), false).to_u64(),
        None
    );
}

#[test]
fn test_bigint_to_i64() {
    assert_eq!(BigInt::from_i64(-42).to_i64(), Some(-42));
    assert_eq!(BigInt::from_i64(i64::MIN).to_i64(), Some(i64::MIN));
    assert_eq!(BigInt::from_i64(i64::MAX).to_i64(), Some(i64::MAX));
    assert_eq!(
        BigInt::from_decimal(b"9223372036854775808".to_vec(), false).to_i64(),
        None
    );
    assert_eq!(
        BigInt::from_decimal(b"9223372036854775809".to_vec(), true).to_i64(),
        None
    );
}
