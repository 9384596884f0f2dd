use bencodex::structural::build_structural_index;
use bencodex::{decode_simd, BencodexKey, BencodexValue, BigInt, DecodeError, SimdParser};

fn parse(input: &[u8]) -> Result<BencodexValue, DecodeError> {
    let index = build_structural_index(input);
    let mut parser = SimdParser::new(input, &index);
    parser.parse()
}

#[test]
fn test_decode_simd_null() {
    assert_eq!(decode_simd(b"n").unwrap(), BencodexValue::Null);
}

#[test]
fn test_decode_simd_boolean() {
    assert_eq!(decode_simd(b"t").unwrap(), BencodexValue::Boolean(true));
    assert_eq!(decode_simd(b"f").unwrap(), BencodexValue::Boolean(false));
}

#[test]
fn test_decode_simd_integer() {
    assert_eq!(
        decode_simd(b"i0e").unwrap(),
        BencodexValue::Number(BigInt::from_i64(0))
    );
    assert_eq!(
        decode_simd(b"i42e").unwrap(),
        BencodexValue::Number(BigInt::from_i64(42))
    );
    assert_eq!(
        decode_simd(b"i-42e").unwrap(),
        BencodexValue::Number(BigInt::from_i64(-42))
    );
}

#[test]
fn test_decode_simd_binary() {
    assert_eq!(
        decode_simd(b"0:").unwrap(),
        BencodexValue::Binary(Vec::new())
    );
    assert_eq!(
        decode_simd(b"5:hello").unwrap(),
        BencodexValue::Binary(b"hello".to_vec())
    );
}

#[test]
fn test_decode_simd_text() {
    assert_eq!(decode_simd(b"u0:").unwrap(), BencodexValue::Text(Vec::new()));
    assert_eq!(
        decode_simd(b"u5:hello").unwrap(),
        BencodexValue::Text(b"hello".to_vec())
    );
}

#[test]
fn test_decode_simd_list() {
    assert_eq!(decode_simd(b"le").unwrap(), BencodexValue::List(Vec::new()));
    assert_eq!(
        decode_simd(b"li1ei2ei3ee").unwrap(),
        BencodexValue::List(vec![
            BencodexValue::Number(BigInt::from_i64(1)),
            BencodexValue::Number(BigInt::from_i64(2)),
            BencodexValue::Number(BigInt::from_i64(3)),
        ])
    );
}

#[test]
fn test_decode_simd_dict() {
    assert_eq!(
        decode_simd(b"de").unwrap(),
        BencodexValue::Dictionary(Vec::new())
    );

    let result = decode_simd(b"du1:ai42ee").unwrap();
    assert_eq!(
        result,
        BencodexValue::Dictionary(vec![(
            BencodexKey::Text(b"a".to_vec()),
            BencodexValue::Number(BigInt::from_i64(42))
        )])
    );
}

#[test]
fn test_decode_simd_error() {
    assert!(decode_simd(b"").is_err());
    assert!(decode_simd(b"x").is_err());
    assert!(decode_simd(b"i42").is_err()); // Missing 'e'
}

#[test]
fn test_parse_null() {
    assert_eq!(parse(b"n").unwrap(), BencodexValue::Null);
}

#[test]
fn test_parse_true() {
    assert_eq!(parse(b"t").unwrap(), BencodexValue::Boolean(true));
}

#[test]
fn test_parse_false() {
    assert_eq!(parse(b"f").unwrap(), BencodexValue::Boolean(false));
}

#[test]
fn test_parse_integer() {
    assert_eq!(
        parse(b"i42e").unwrap(),
        BencodexValue::Number(BigInt::from_i64(42))
    );
    assert_eq!(
        parse(b"i-123e").unwrap(),
        BencodexValue::Number(BigInt::from_i64(-123))
    );
    assert_eq!(
        parse(b"i0e").unwrap(),
        BencodexValue::Number(BigInt::from_i64(0))
    );
}

#[test]
fn test_parse_byte_string() {
    assert_eq!(
        parse(b"5:hello").unwrap(),
        BencodexValue::Binary(b"hello".to_vec())
    );
    assert_eq!(parse(b"0:").unwrap(), BencodexValue::Binary(Vec::new()));
}

#[test]
fn test_parse_unicode_string() {
    assert_eq!(
        parse(b"u5:hello").unwrap(),
        BencodexValue::Text(b"hello".to_vec())
    );
    assert_eq!(parse(b"u0:").unwrap(), BencodexValue::Text(Vec::new()));
}

#[test]
fn test_parse_list() {
    assert_eq!(parse(b"le").unwrap(), BencodexValue::List(Vec::new()));

    let result = parse(b"li42eu5:helloe").unwrap();
    if let BencodexValue::List(items) = result {
        assert_eq!(items.len(), 2);
        assert_eq!(items[0], BencodexValue::Number(BigInt::from_i64(42)));
        assert_eq!(items[1], BencodexValue::Text(b"hello".to_vec()));
    } else {
        panic!("Expected list");
    }
}

#[test]
fn test_parse_dict() {
    assert_eq!(parse(b"de").unwrap(), BencodexValue::Dictionary(Vec::new()));

    let result = parse(b"du1:ai42ee").unwrap();
    if let BencodexValue::Dictionary(map) = result {
        assert_eq!(map.len(), 1);
        assert_eq!(
            map[0],
            (
                BencodexKey::Text(b"a".to_vec()),
                BencodexValue::Number(BigInt::from_i64(42))
            )
        );
    } else {
        panic!("Expected dictionary");
    }
}

#[test]
fn test_parse_nested() {
    // Nested list: [[1, 2], [3]]
    let result = parse(b"lli1ei2eeli3eee").unwrap();
    if let BencodexValue::List(outer) = result {
        assert_eq!(outer.len(), 2);
        if let BencodexValue::List(inner1) = &outer[0] {
            assert_eq!(inner1.len(), 2);
        } else {
            panic!("Expected inner list");
        }
    } else {
        panic!("Expected outer list");
    }
}

#[test]
fn test_binary_payload_with_structural_bytes() {
    // structural-looking bytes inside a binary payload are plain data
    let input = b"8:eil:d5:ue";
    assert_eq!(
        parse(input).unwrap(),
        BencodexValue::Binary(b"eil:d5:u".to_vec())
    );
}
