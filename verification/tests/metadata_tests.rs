use dm_cache::{EncodeError, Metadata};

#[test]
fn fresh_record_is_empty() {
    let m = Metadata::new();
    assert_eq!(m.version, 0);
    assert_eq!(m.last_id, 0);
    assert_eq!(m.last_timestamp, 0);
    assert!(m.roots.is_empty());
}

#[test]
fn metadata_round_trips() {
    let m = Metadata {
        version: 1,
        last_id: 42,
        last_timestamp: 7,
        roots: vec![vec![0x01, 0x00, 0x03], vec![], vec![0xFF; 255]],
    };
    let encoded = m.encode();
    let decoded = Metadata::decode(&encoded).unwrap();
    assert_eq!(decoded.version, 1);
    assert_eq!(decoded.last_id, 42);
    assert_eq!(decoded.last_timestamp, 7);
    assert_eq!(decoded.roots, m.roots);
}

#[test]
fn header_is_24_big_endian_bytes() {
    let m = Metadata { version: 2, last_id: 300, last_timestamp: 1, roots: vec![] };
    let encoded = m.encode();
    assert_eq!(encoded.len(), 24);
    assert_eq!(&encoded[0..8], &2_u64.to_be_bytes());
    assert_eq!(&encoded[8..16], &300_u64.to_be_bytes());
    assert_eq!(&encoded[16..24], &1_u64.to_be_bytes());
}

#[test]
fn decode_rejects_short_buffer() {
    assert!(matches!(Metadata::decode(&[0; 23]), Err(EncodeError::InvalidLength)));
    assert!(Metadata::decode(&[0; 24]).is_ok());
}

#[test]
fn decode_rejects_truncated_root_entry() {
    let mut buf = vec![0_u8; 24];
    // A root entry claiming five bytes with only two present.
    buf.push(5);
    buf.push(1);
    buf.push(2);
    assert!(matches!(Metadata::decode(&buf), Err(EncodeError::Overflow)));
}
