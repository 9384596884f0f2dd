use bencodex::dict::{compare_vector, key_cmp};
use bencodex::encode::encode_key;
use bencodex::utf8::validate_utf8;
use bencodex::{
    BencodexKey, BencodexValue, BigInt, Decode, DecodeError, DecodeErrorReason, Encode,
    BENCODEX_NULL,
};
use std::cmp::Ordering;

fn encode_to_vec(value: &BencodexValue) -> Vec<u8> {
    let mut buf: Vec<u8> = vec![];
    value.encode(&mut buf).unwrap();
    buf
}

#[test]
fn null() {
    let value: BencodexValue = BencodexValue::Null;
    assert_eq!(value, BencodexValue::Null);
    assert_eq!(BENCODEX_NULL, BencodexValue::Null);
}

#[test]
fn decode_null() {
    assert_eq!(b"n".to_vec().decode().unwrap(), BencodexValue::Null);
}

#[test]
fn decode_boolean() {
    assert_eq!(b"t".to_vec().decode().unwrap(), BencodexValue::Boolean(true));
    assert_eq!(b"f".to_vec().decode().unwrap(), BencodexValue::Boolean(false));
}

#[test]
fn decode_number() {
    assert_eq!(
        b"i42e".to_vec().decode().unwrap(),
        BencodexValue::Number(BigInt::from_i64(42))
    );
    assert_eq!(
        b"i-1e".to_vec().decode().unwrap(),
        BencodexValue::Number(BigInt::from_i64(-1))
    );
}

#[test]
fn decode_strings() {
    assert_eq!(
        b"5:hello".to_vec().decode().unwrap(),
        BencodexValue::Binary(b"hello".to_vec())
    );
    assert_eq!(
        b"u5:hello".to_vec().decode().unwrap(),
        BencodexValue::Text(b"hello".to_vec())
    );
}

#[test]
fn decode_list() {
    assert_eq!(
        b"li1ei2ei3ee".to_vec().decode().unwrap(),
        BencodexValue::List(vec![
            BencodexValue::Number(BigInt::from_i64(1)),
            BencodexValue::Number(BigInt::from_i64(2)),
            BencodexValue::Number(BigInt::from_i64(3)),
        ])
    );
}

#[test]
fn decode_empty_dictionary() {
    assert_eq!(
        b"de".to_vec().decode().unwrap(),
        BencodexValue::Dictionary(vec![])
    );
}

#[test]
fn decode_number_missing_digits_error() {
    // the byte after the number marker must open the digits
    let err = b"i:e".to_vec().decode().unwrap_err();
    assert_eq!(
        err.reason,
        DecodeErrorReason::UnexpectedToken { token: b':', point: 1 }
    );
}

#[test]
fn decode_truncated_inputs_error() {
    for input in [
        b"".to_vec(),
        b"i42".to_vec(),
        b"5:hi".to_vec(),
        b"u3:hi".to_vec(),
        b"l".to_vec(),
        b"li1e".to_vec(),
        b"d".to_vec(),
        b"du1:a".to_vec(),
        b"i".to_vec(),
        b"u".to_vec(),
        b"12".to_vec(),
    ] {
        let err = input.decode().unwrap_err();
        assert_eq!(err.reason, DecodeErrorReason::InvalidBencodexValue);
    }
}

#[test]
fn decode_unexpected_byte_errors() {
    let err = b"x".to_vec().decode().unwrap_err();
    assert_eq!(
        err.reason,
        DecodeErrorReason::UnexpectedToken { token: b'x', point: 0 }
    );
    // missing colon after a byte-string length
    let err = b"5xhello".to_vec().decode().unwrap_err();
    assert_eq!(
        err.reason,
        DecodeErrorReason::UnexpectedToken { token: b'x', point: 1 }
    );
    // missing end marker after number digits
    let err = b"i12fe".to_vec().decode().unwrap_err();
    assert_eq!(
        err.reason,
        DecodeErrorReason::UnexpectedToken { token: b'f', point: 3 }
    );
}

#[test]
fn decode_invalid_utf8_error() {
    let err = vec![b'u', b'2', b':', 0xFF, 0xFE].decode().unwrap_err();
    assert_eq!(err.reason, DecodeErrorReason::InvalidBencodexValue);
}

#[test]
fn decode_negative_length_error() {
    // a signed text length is a malformed length, not a negative length
    let err = b"u-5:hello".to_vec().decode().unwrap_err();
    assert_eq!(err.reason, DecodeErrorReason::InvalidBencodexValue);
}

#[test]
fn decode_non_string_key_error() {
    let err = b"di1eni2ene".to_vec().decode().unwrap_err();
    assert_eq!(err.reason, DecodeErrorReason::InvalidBencodexValue);
}

#[test]
fn decode_duplicate_key_takes_last() {
    // the later value under a repeated key wins
    assert_eq!(
        b"du1:ai1eu1:ai2ee".to_vec().decode().unwrap(),
        BencodexValue::Dictionary(vec![(
            BencodexKey::Text(b"a".to_vec()),
            BencodexValue::Number(BigInt::from_i64(2))
        )])
    );
}

#[test]
fn encode_scalars() {
    assert_eq!(encode_to_vec(&BencodexValue::Null), b"n".to_vec());
    assert_eq!(encode_to_vec(&BencodexValue::Boolean(true)), b"t".to_vec());
    assert_eq!(encode_to_vec(&BencodexValue::Boolean(false)), b"f".to_vec());
    assert_eq!(
        encode_to_vec(&BencodexValue::Number(BigInt::from_i64(42))),
        b"i42e".to_vec()
    );
    assert_eq!(
        encode_to_vec(&BencodexValue::Number(BigInt::from_i64(-1))),
        b"i-1e".to_vec()
    );
    assert_eq!(
        encode_to_vec(&BencodexValue::Binary(b"hello".to_vec())),
        b"5:hello".to_vec()
    );
    assert_eq!(
        encode_to_vec(&BencodexValue::Text(b"hello".to_vec())),
        b"u5:hello".to_vec()
    );
}

#[test]
fn encode_containers() {
    assert_eq!(encode_to_vec(&BencodexValue::List(vec![])), b"le".to_vec());
    assert_eq!(
        encode_to_vec(&BencodexValue::List(vec![
            BencodexValue::Number(BigInt::from_i64(1)),
            BencodexValue::Text(b"foo".to_vec()),
        ])),
        b"li1eu3:fooe".to_vec()
    );
    assert_eq!(
        encode_to_vec(&BencodexValue::Dictionary(vec![])),
        b"de".to_vec()
    );
}

#[test]
fn encode_key_order_scenario() {
    // a binary key sorts before text keys, and text keys sort by bytes
    let mut entries = bencodex::BencodexDictionary::new();
    bencodex::dict::dict_insert(
        &mut entries,
        BencodexKey::Text(b"b".to_vec()),
        BencodexValue::Null,
    );
    bencodex::dict::dict_insert(
        &mut entries,
        BencodexKey::Binary(vec![0x61]),
        BencodexValue::Null,
    );
    bencodex::dict::dict_insert(
        &mut entries,
        BencodexKey::Text(b"a".to_vec()),
        BencodexValue::Null,
    );
    assert_eq!(
        encode_to_vec(&BencodexValue::Dictionary(entries)),
        b"d1:anu1:anu1:bne".to_vec()
    );
}

#[test]
fn encode_normalizes_numbers() {
    // whatever shape a number was read in, it is written canonically
    let zero = BigInt::from_decimal(b"000".to_vec(), true);
    assert_eq!(
        encode_to_vec(&BencodexValue::Number(zero)),
        b"i0e".to_vec()
    );
}

#[test]
fn encode_error_type() {
    // a sink error value can be built and compared
    assert_eq!(bencodex::Error::new(), bencodex::Error::new());
}

#[test]
fn decode_ignores_trailing_bytes() {
    let r: Result<BencodexValue, DecodeError> = b"nxyz".to_vec().decode();
    assert_eq!(r.unwrap(), BencodexValue::Null);
}

#[test]
fn test_no_std_encode_decode() {
    // Test basic encoding
    let value = BencodexValue::Number(BigInt::from_i64(42));
    let mut buf = Vec::new();
    value.encode(&mut buf).unwrap();

    // Test decoding
    let decoded = buf.decode().unwrap();
    assert_eq!(value, decoded);
}

#[test]
fn into_owned_keeps_values() {
    let key = BencodexKey::Text(b"k".to_vec()).into_owned();
    assert_eq!(key, BencodexKey::Text(b"k".to_vec()));
    let value = BencodexValue::Binary(vec![1, 2, 3]).into_owned();
    assert_eq!(value, BencodexValue::Binary(vec![1, 2, 3]));
}

#[test]
fn key_comparison_order() {
    // byte-wise lexicographic order; a strict prefix sorts first
    assert_eq!(compare_vector(&b"a".to_vec(), &b"ab".to_vec()), Ordering::Less);
    assert_eq!(compare_vector(&b"ab".to_vec(), &b"ab".to_vec()), Ordering::Equal);
    assert_eq!(compare_vector(&b"b".to_vec(), &b"ab".to_vec()), Ordering::Greater);
    // every binary key sorts before every text key
    assert_eq!(
        key_cmp(
            &BencodexKey::Binary(b"z".to_vec()),
            &BencodexKey::Text(b"a".to_vec())
        ),
        Ordering::Less
    );
    assert_eq!(
        key_cmp(
            &BencodexKey::Text(b"a".to_vec()),
            &BencodexKey::Text(b"b".to_vec())
        ),
        Ordering::Less
    );
}

#[test]
fn encode_key_images() {
    assert_eq!(encode_key(&BencodexKey::Binary(b"ab".to_vec())), b"2:ab".to_vec());
    assert_eq!(encode_key(&BencodexKey::Text(b"ab".to_vec())), b"u2:ab".to_vec());
}

#[test]
fn utf8_validation_boundaries() {
    assert!(validate_utf8(b""));
    assert!(validate_utf8(b"plain ascii"));
    assert!(validate_utf8("héllo κόσμε 你好 🦀".as_bytes()));
    // overlong form of '/'
    assert!(!validate_utf8(&[0xC0, 0xAF]));
    // lone continuation byte
    assert!(!validate_utf8(&[0x80]));
    // surrogate half
    assert!(!validate_utf8(&[0xED, 0xA0, 0x80]));
    // beyond U+10FFFF
    assert!(!validate_utf8(&[0xF4, 0x90, 0x80, 0x80]));
    // truncated sequence
    assert!(!validate_utf8(&[0xE2, 0x82]));
}
