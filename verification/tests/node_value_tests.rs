use dm_cache::{EncodeError, NodeValue};

#[test]
fn scalars_round_trip() {
    let cases = vec![
        NodeValue::Null,
        NodeValue::Bool(false),
        NodeValue::Bool(true),
        NodeValue::Number(1.5_f64.to_bits()),
        NodeValue::NumberI(-42),
        NodeValue::NumberU(u64::MAX),
        NodeValue::String(b"hello".to_vec()),
        NodeValue::Array,
        NodeValue::Object,
    ];
    for v in cases {
        let encoded = v.encode();
        let decoded = NodeValue::decode(&encoded).unwrap();
        assert_eq!(decoded, v);
    }
}

#[test]
fn float_payload_is_big_endian_bits() {
    let v = NodeValue::Number(1.5_f64.to_bits());
    let encoded = v.encode();
    assert_eq!(encoded[0], 2);
    assert_eq!(&encoded[1..], &1.5_f64.to_bits().to_be_bytes());
    match NodeValue::decode(&encoded).unwrap() {
        NodeValue::Number(bits) => assert_eq!(f64::from_bits(bits), 1.5),
        _ => panic!("expected a float payload"),
    }
}

#[test]
fn integer_payload_is_big_endian() {
    let v = NodeValue::NumberI(-2);
    let encoded = v.encode();
    assert_eq!(encoded[0], 3);
    assert_eq!(&encoded[1..], &(-2_i64).to_be_bytes());

    let v = NodeValue::NumberU(300);
    let encoded = v.encode();
    assert_eq!(encoded[0], 4);
    assert_eq!(&encoded[1..], &300_u64.to_be_bytes());
}

#[test]
fn markers_are_single_bytes() {
    assert_eq!(NodeValue::Array.encode(), vec![6]);
    assert_eq!(NodeValue::Object.encode(), vec![7]);
    assert!(NodeValue::Array.is_array());
    assert!(!NodeValue::Array.is_object());
    assert!(NodeValue::Object.is_object());
}

#[test]
fn decode_rejects_bad_input() {
    assert!(matches!(NodeValue::decode(&[]), Err(EncodeError::InvalidLength)));
    // Bool payload missing.
    assert!(matches!(NodeValue::decode(&[1]), Err(EncodeError::InvalidLength)));
    // Numeric payloads shorter than eight bytes.
    assert!(matches!(NodeValue::decode(&[2, 0, 0]), Err(EncodeError::InvalidLength)));
    assert!(matches!(NodeValue::decode(&[3, 0, 0]), Err(EncodeError::InvalidLength)));
    assert!(matches!(NodeValue::decode(&[4, 0, 0]), Err(EncodeError::InvalidLength)));
    // Unknown discriminant.
    assert!(matches!(NodeValue::decode(&[8]), Err(EncodeError::InvalidType)));
}
