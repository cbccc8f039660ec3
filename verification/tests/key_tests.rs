use dm_cache::{EncodeError, Key, KeyIndex, VariableSizedId};

#[test]
fn test_encode_decode_no_ids() {
    let k = Key { ids: vec![], field_key: KeyIndex::Field(b"hello".to_vec()) };
    let encoded = k.encode();
    let decoded = Key::decode(&encoded).unwrap();
    assert_eq!(decoded.ids.len(), 0);
    assert_eq!(decoded.field_key, KeyIndex::Field(b"hello".to_vec()));
}

#[test]
fn test_encode_decode_multiple_ids() {
    let id1 = VariableSizedId::new(127);
    let id2 = VariableSizedId::new(300);
    let id3 = VariableSizedId::new(9999);

    let k = Key {
        ids: vec![id1.clone(), id2.clone(), id3.clone()],
        field_key: KeyIndex::Field(b"rust".to_vec()),
    };

    let encoded = k.encode();
    let decoded = Key::decode(&encoded).unwrap();
    assert_eq!(decoded.ids, vec![id1, id2, id3]);
    assert_eq!(decoded.field_key, KeyIndex::Field(b"rust".to_vec()));
}

#[test]
fn test_decode_key_invalid_length() {
    // One varint byte with the continuation bit set and nothing after it.
    let buf = [0x81_u8];
    let decoded = Key::decode(&buf);
    match decoded {
        Err(EncodeError::InvalidLength) => {}
        _ => assert!(false),
    }
}

#[test]
fn root_key_round_trips() {
    let k = Key { ids: vec![VariableSizedId::new(0)], field_key: KeyIndex::Root };
    let encoded = k.encode();
    // id 0 is stored biased by one, then the separator, then the root tag.
    assert_eq!(encoded, vec![0x01, 0x00, 0x03]);
    let decoded = Key::decode(&encoded).unwrap();
    assert_eq!(decoded.ids.len(), 1);
    assert_eq!(decoded.ids[0].to_u64().unwrap(), 0);
    assert_eq!(decoded.field_key, KeyIndex::Root);
}

#[test]
fn id_terminal_round_trips() {
    let k = Key {
        ids: vec![VariableSizedId::new(7), VariableSizedId::new(300)],
        field_key: KeyIndex::Id(VariableSizedId::new(2)),
    };
    let encoded = k.encode();
    let decoded = Key::decode(&encoded).unwrap();
    assert_eq!(decoded.ids, k.ids);
    assert_eq!(decoded.field_key, KeyIndex::Id(VariableSizedId::new(2)));
}

#[test]
fn separator_is_first_zero_byte() {
    let k = Key {
        ids: vec![VariableSizedId::new(127), VariableSizedId::new(128)],
        field_key: KeyIndex::Field(b"f".to_vec()),
    };
    let encoded = k.encode();
    let sep = encoded.iter().position(|&b| b == 0).unwrap();
    // Everything before the first zero byte is the biased id block.
    let prefix: Vec<u8> = encoded[..sep].to_vec();
    let mut expected = VariableSizedId::new(128).value.clone();
    expected.extend_from_slice(&VariableSizedId::new(129).value);
    assert_eq!(prefix, expected);
}

#[test]
fn super_prefix_opens_parent_key() {
    let parent = Key {
        ids: vec![VariableSizedId::new(5), VariableSizedId::new(9)],
        field_key: KeyIndex::Field(b"c".to_vec()),
    };
    let child = parent.sub_key(VariableSizedId::new(10), KeyIndex::Id(VariableSizedId::new(0)));
    let child_prefix = child.super_id_prefix();
    let parent_encoded = parent.encode();
    // The child's super-prefix is a byte prefix of the parent's key.
    assert!(parent_encoded.starts_with(&child_prefix));
    // And it is not a prefix of the child's own key.
    let child_encoded = child.encode();
    assert!(!child_encoded.starts_with(&child_prefix));
}

#[test]
fn key_decode_rejects_unknown_tag() {
    // Separator then an unknown terminal tag.
    let buf = [0x00_u8, 0x09];
    assert!(matches!(Key::decode(&buf), Err(EncodeError::InvalidType)));
}

#[test]
fn key_decode_rejects_missing_terminal() {
    // A complete varint and then the buffer ends before any separator.
    let buf = [0x05_u8];
    assert!(matches!(Key::decode(&buf), Err(EncodeError::InvalidLength)));
}
