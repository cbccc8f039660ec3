use dm_cache::{read_variable_sized_id, EncodeError, VariableSizedId};

#[test]
fn test_new_small_value() {
    // 0x7F is the largest single-byte value; no continuation bit needed.
    let vid = VariableSizedId::new(127);
    assert_eq!(vid.value, vec![0x7F]);
    assert_eq!(vid.bytes_len(), 1);
}

#[test]
fn test_new_large_value() {
    // 128 (0x80) needs two bytes: low seven bits all zero with the high bit
    // set, then the remainder.
    let vid = VariableSizedId::new(128);
    assert_eq!(vid.value, vec![0x80, 0x01]);
    assert_eq!(vid.bytes_len(), 2);
}

#[test]
fn test_encode_decode() {
    let vid = VariableSizedId::new(300);
    let encoded = vid.encode();
    // encoded = [length, vid.value...]; 300 => [0xAC, 0x02].
    assert_eq!(encoded.len(), 3);
    assert_eq!(encoded[0], 2);
    assert_eq!(&encoded[1..], &[0xAC, 0x02]);

    let decoded = VariableSizedId::decode(&encoded).unwrap();
    assert_eq!(decoded.value, vid.value);
}

#[test]
fn test_decode_invalid_length() {
    // Length prefix says two bytes but only one follows.
    let encoded = [2, 0xAC];
    let result = VariableSizedId::decode(&encoded);
    assert_eq!(result, Err(EncodeError::InvalidLength));

    let result = VariableSizedId::decode(&[]);
    assert_eq!(result, Err(EncodeError::InvalidLength));
}

#[test]
fn test_to_u64() {
    let vid = VariableSizedId::new(0x1234_5678);
    let val = vid.to_u64().unwrap();
    assert_eq!(val, 0x1234_5678);

    let vid127 = VariableSizedId::new(127);
    assert_eq!(vid127.to_u64().unwrap(), 127);

    let vid128 = VariableSizedId::new(128);
    assert_eq!(vid128.to_u64().unwrap(), 128);
}

#[test]
fn test_to_u64_overflow() {
    // Eleven continuation bytes can never fit in 64 bits.
    let vid = VariableSizedId { value: vec![0xFF; 11] };
    let result = vid.to_u64();
    assert_eq!(result, Err(EncodeError::Overflow));
}

#[test]
fn test_checked_add_no_overflow() {
    let vid = VariableSizedId::new(100);
    let vid_added = vid.checked_plus(27).unwrap();
    assert_eq!(vid_added.to_u64().unwrap(), 127);
}

#[test]
fn test_checked_add_overflow() {
    let vid = VariableSizedId::new(u64::MAX);
    let result = vid.checked_plus(1);
    assert_eq!(result, Err(EncodeError::Overflow));
}

#[test]
fn test_checked_add_large_values() {
    let vid = VariableSizedId::new(u64::MAX - 10);
    let vid_added = vid.checked_plus(10).unwrap();
    assert_eq!(vid_added.to_u64().unwrap(), u64::MAX);

    let result = vid_added.checked_plus(1);
    assert_eq!(result, Err(EncodeError::Overflow));
}

#[test]
fn read_round_trips_every_boundary() {
    // Round trip through the raw stream reader at the length boundaries.
    for x in [0u64, 1, 127, 128, 300, 16383, 16384, u64::MAX - 1, u64::MAX] {
        let vid = VariableSizedId::new(x);
        let (read, consumed) = read_variable_sized_id(&vid.value).unwrap();
        assert_eq!(read.value, vid.value);
        assert_eq!(consumed, vid.value.len());
        assert_eq!(read.to_u64().unwrap(), x);
        assert!(vid.value.len() >= 1 && vid.value.len() <= 10);
    }
}

#[test]
fn read_rejects_unterminated_stream() {
    assert_eq!(
        read_variable_sized_id(&[0x81]),
        Err(EncodeError::InvalidLength)
    );
    assert_eq!(read_variable_sized_id(&[]), Err(EncodeError::InvalidLength));
    // Ten continuation bytes and more input left: too long for 64 bits.
    let long = [0xFF_u8; 12];
    assert_eq!(read_variable_sized_id(&long), Err(EncodeError::Overflow));
}

#[test]
fn positive_ids_encode_without_zero_bytes() {
    for x in [1u64, 127, 128, 129, 256, 16384, u64::MAX] {
        let vid = VariableSizedId::new(x);
        assert!(vid.value.iter().all(|&b| b != 0));
    }
}
