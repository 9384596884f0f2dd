use bencodex::dict::dict_insert;
use bencodex::{decode, decode_simd, BencodexKey, BencodexValue, BigInt, Decode, Encode};

fn encode_to_vec(value: &BencodexValue) -> Vec<u8> {
    let mut buf: Vec<u8> = vec![];
    value.encode(&mut buf).unwrap();
    buf
}

fn sample_value() -> BencodexValue {
    let mut entries = Vec::new();
    dict_insert(
        &mut entries,
        BencodexKey::Text(b"numbers".to_vec()),
        BencodexValue::List(vec![
            BencodexValue::Number(BigInt::from_i64(-7)),
            BencodexValue::Number(BigInt::from_i64(0)),
            BencodexValue::Number(BigInt::from_u64(u64::MAX)),
        ]),
    );
    dict_insert(
        &mut entries,
        BencodexKey::Binary(vec![0x00, 0xFF]),
        BencodexValue::Boolean(true),
    );
    dict_insert(
        &mut entries,
        BencodexKey::Text(b"empty".to_vec()),
        BencodexValue::Dictionary(vec![]),
    );
    BencodexValue::List(vec![
        BencodexValue::Null,
        BencodexValue::Text(b"caf\xc3\xa9".to_vec()),
        BencodexValue::Binary(b"i1e".to_vec()),
        BencodexValue::Dictionary(entries),
    ])
}

#[test]
fn round_trip_sample() {
    let value = sample_value();
    let encoded = encode_to_vec(&value);
    assert_eq!(encoded.clone().decode().unwrap(), value);
    assert_eq!(decode_simd(&encoded).unwrap(), value);
}

#[test]
fn round_trip_scalars() {
    for value in [
        BencodexValue::Null,
        BencodexValue::Boolean(false),
        BencodexValue::Number(BigInt::from_i64(i64::MIN)),
        BencodexValue::Binary(vec![]),
        BencodexValue::Text(vec![]),
        BencodexValue::List(vec![]),
        BencodexValue::Dictionary(vec![]),
    ] {
        let encoded = encode_to_vec(&value);
        assert_eq!(encoded.decode().unwrap(), value);
    }
}

#[test]
fn canonical_order_any_insertion_order() {
    // the same semantic dictionary, built in two insertion orders,
    // encodes to byte-identical output
    let mut forward = Vec::new();
    for (k, v) in pair_list() {
        dict_insert(&mut forward, k, v);
    }
    let mut backward = Vec::new();
    for (k, v) in pair_list().into_iter().rev() {
        dict_insert(&mut backward, k, v);
    }
    let a = encode_to_vec(&BencodexValue::Dictionary(forward));
    let b = encode_to_vec(&BencodexValue::Dictionary(backward));
    assert_eq!(a, b);
}

#[test]
fn encode_is_deterministic() {
    let value = sample_value();
    assert_eq!(encode_to_vec(&value), encode_to_vec(&value));
}

#[test]
fn scalar_and_simd_agree_on_malformed_inputs() {
    let cases: Vec<Vec<u8>> = vec![
        b"".to_vec(),
        b"x".to_vec(),
        b"i".to_vec(),
        b"ie".to_vec(),
        b"i-e".to_vec(),
        b"i:e".to_vec(),
        b"i12".to_vec(),
        b"i12f".to_vec(),
        b"i12fe".to_vec(),
        b"5".to_vec(),
        b"5x".to_vec(),
        b"5:abc".to_vec(),
        b"99999999999999999999999:abc".to_vec(),
        b"u".to_vec(),
        b"u:".to_vec(),
        b"u-1:a".to_vec(),
        b"u2:a".to_vec(),
        vec![b'u', b'1', b':', 0xC0],
        b"l".to_vec(),
        b"li1e".to_vec(),
        b"lx".to_vec(),
        b"d".to_vec(),
        b"dn".to_vec(),
        b"di1ene".to_vec(),
        b"du1:a".to_vec(),
        vec![0xFF, 0x00, b'e'],
    ];
    for input in cases {
        let scalar = decode(&input);
        let simd = decode_simd(&input);
        assert_eq!(scalar, simd, "input {:?}", input);
    }
}

#[test]
fn scalar_and_simd_agree_on_adversarial_payloads() {
    // binary payloads stuffed with structural bytes, at lane-boundary sizes
    for n in [1usize, 15, 16, 17, 31, 32, 33, 100] {
        let payload: Vec<u8> = (0..n)
            .map(|i| [b'e', b':', b'i', b'l', b'd', b'9'][i % 6])
            .collect();
        let mut input = format!("{}:", n).into_bytes();
        input.extend_from_slice(&payload);
        let scalar = decode(&input).unwrap();
        let simd = decode_simd(&input).unwrap();
        assert_eq!(scalar, BencodexValue::Binary(payload));
        assert_eq!(scalar, simd);
    }
}

#[test]
fn decoders_never_panic_on_byte_soup() {
    // a deterministic pseudo-random byte soup; both decoders must return
    let mut state: u64 = 0x243F6A8885A308D3;
    for len in 0..200usize {
        let mut input = Vec::with_capacity(len);
        for _ in 0..len {
            state = state.wrapping_mul(6364136223846793005).wrapping_add(1442695040888963407);
            input.push((state >> 33) as u8);
        }
        let scalar = decode(&input);
        let simd = decode_simd(&input);
        assert_eq!(scalar, simd);
    }
}

fn pair_list() -> Vec<(BencodexKey, BencodexValue)> {
    vec![
        (BencodexKey::Text(b"b".to_vec()), BencodexValue::Null),
        (
            BencodexKey::Binary(vec![0x61]),
            BencodexValue::Number(BigInt::from_i64(1)),
        ),
        (
            BencodexKey::Text(b"a".to_vec()),
            BencodexValue::Boolean(true),
        ),
        (BencodexKey::Binary(vec![]), BencodexValue::Text(vec![])),
    ]
}
