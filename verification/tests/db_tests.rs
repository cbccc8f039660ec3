use dm_cache::{insert_json, DBError, Database, Key, KeyIndex, NodeValue, VariableSizedId};

use std::time::{SystemTime, UNIX_EPOCH};

/// A database directory of this test run's own, outside the crate tree.
fn fresh_path(tag: &str) -> String {
    let nanos = SystemTime::now().duration_since(UNIX_EPOCH).unwrap().as_nanos();
    format!("/tmp/dm_cache_{}_{}", tag, nanos)
}

const METADATA_KEY: &[u8] = b"~~METADATA~~";

fn root_key(id: u64) -> Key {
    Key { ids: vec![VariableSizedId::new(id)], field_key: KeyIndex::Root }
}

#[test]
fn empty_root_insert() {
    let path = fresh_path("empty_root");
    let mut db = Database::new(&path).unwrap();
    let kb = root_key(0).encode();
    let mut value = br#"{"a":1}"#.to_vec();
    insert_json(&mut db, &kb, &mut value).unwrap();

    assert!(db.metadata.last_id >= 1);
    assert_eq!(db.metadata.roots.len(), 1);
    assert_eq!(db.metadata.roots[0], kb);
    drop(db);

    let tree = sled::open(&path).unwrap();
    let mut path_records = 0;
    let mut object_markers = 0;
    let mut uint_ones = 0;
    for entry in tree.iter() {
        let (k, v) = entry.unwrap();
        if k.as_ref() == METADATA_KEY {
            continue;
        }
        path_records += 1;
        if k.as_ref() == kb.as_slice() {
            assert_eq!(v.as_ref(), &[7_u8]);
            object_markers += 1;
        } else {
            assert_eq!(v.as_ref(), &[4, 0, 0, 0, 0, 0, 0, 0, 1]);
            uint_ones += 1;
        }
    }
    assert_eq!(path_records, 2);
    assert_eq!(object_markers, 1);
    assert_eq!(uint_ones, 1);
}

#[test]
fn test_duplicate_root_key() {
    let path = fresh_path("duplicate");
    let mut db = Database::new(&path).unwrap();

    let mut value1 = br#"{"x": 1, "y": 2}"#.to_vec();
    let mut value2 = br#"{"z": 3, "w": 4}"#.to_vec();

    let root_key_raw = root_key(100).encode();

    let result1 = insert_json(&mut db, &root_key_raw, &mut value1);
    assert!(result1.is_ok(), "First insertion should succeed");

    assert_eq!(
        db.metadata.roots.len(),
        1,
        "After first insertion, metadata.roots should contain exactly 1 root key"
    );
    assert!(
        db.metadata.roots.contains(&root_key_raw),
        "metadata.roots should contain the inserted root key"
    );

    let result2 = insert_json(&mut db, &root_key_raw, &mut value2);
    assert!(result2.is_err(), "Second insertion should fail");

    match result2.unwrap_err() {
        DBError::DuplicateRootKey => {}
        e => panic!("Expected DuplicateRootKey error, but got: {:?}", e),
    }
}

#[test]
fn test_insert_json() {
    // The mixed-container document: one record per node plus the metadata
    // record.
    let path = fresh_path("mixed");
    let mut db = Database::new(&path).unwrap();
    let kb = root_key(0).encode();
    let mut value = br#"{"a": 1, "b": 2, "c": [1, 2, 3], "d": {"e": 1, "f": 2}}"#.to_vec();
    insert_json(&mut db, &kb, &mut value).unwrap();
    assert!(db.metadata.last_id >= 9);
    drop(db);

    let tree = sled::open(&path).unwrap();
    let mut object_markers = 0;
    let mut array_markers = 0;
    let mut int_leaves = 0;
    let mut records = 0;
    for entry in tree.iter() {
        let (k, v) = entry.unwrap();
        if k.as_ref() == METADATA_KEY {
            continue;
        }
        records += 1;
        match v.as_ref()[0] {
            4 => int_leaves += 1,
            6 => array_markers += 1,
            7 => object_markers += 1,
            t => panic!("unexpected node tag {}", t),
        }
    }
    // Nodes: the root object, the two integer fields, the array marker with
    // three integer elements, and the inner object marker with two integer
    // fields.
    assert_eq!(records, 10);
    assert_eq!(object_markers, 2);
    assert_eq!(array_markers, 1);
    assert_eq!(int_leaves, 7);
}

#[test]
fn parent_type_mismatch() {
    let path = fresh_path("mismatch");
    let mut db = Database::new(&path).unwrap();
    let kb = root_key(0).encode();
    let mut value = br#"{"c": [1]}"#.to_vec();
    insert_json(&mut db, &kb, &mut value).unwrap();
    drop(db);

    // Find the committed array marker's key.
    let tree = sled::open(&path).unwrap();
    let mut array_key: Option<Vec<u8>> = None;
    for entry in tree.iter() {
        let (k, v) = entry.unwrap();
        if k.as_ref() != METADATA_KEY && v.as_ref() == [6_u8] {
            array_key = Some(k.to_vec());
        }
    }
    drop(tree);
    let array_key = array_key.expect("an array marker must be stored");
    let parent = Key::decode(&array_key).unwrap();

    // A field child under an array parent is rejected.
    let child = parent.sub_key(VariableSizedId::new(999), KeyIndex::Field(b"x".to_vec()));
    let child_raw = child.encode();
    let mut db = Database::new(&path).unwrap();
    let mut value = br#"1"#.to_vec();
    match insert_json(&mut db, &child_raw, &mut value) {
        Err(DBError::InvalidSuperNodeType) => {}
        r => panic!("expected InvalidSuperNodeType, got {:?}", r),
    }

    // A position child under the array parent is accepted.
    let child = parent.sub_key(VariableSizedId::new(999), KeyIndex::Id(VariableSizedId::new(1)));
    let child_raw = child.encode();
    let mut value = br#"5"#.to_vec();
    insert_json(&mut db, &child_raw, &mut value).unwrap();
}

#[test]
fn no_super_node() {
    let path = fresh_path("nosuper");
    let mut db = Database::new(&path).unwrap();
    let last_before = db.metadata.last_id;

    // A non-root terminal with fewer than two ancestor ids.
    let k = Key {
        ids: vec![VariableSizedId::new(5)],
        field_key: KeyIndex::Field(b"x".to_vec()),
    };
    let kb = k.encode();
    let mut value = br#"{"a":1}"#.to_vec();
    match insert_json(&mut db, &kb, &mut value) {
        Err(DBError::NoSuperNode) => {}
        r => panic!("expected NoSuperNode, got {:?}", r),
    }
    assert_eq!(db.metadata.last_id, last_before);
    assert!(db.metadata.roots.is_empty());

    // A well-formed chain whose parent was never committed.
    let k = Key {
        ids: vec![VariableSizedId::new(70), VariableSizedId::new(71)],
        field_key: KeyIndex::Field(b"x".to_vec()),
    };
    let kb = k.encode();
    let mut value = br#"{"a":1}"#.to_vec();
    match insert_json(&mut db, &kb, &mut value) {
        Err(DBError::NoSuperNode) => {}
        r => panic!("expected NoSuperNode, got {:?}", r),
    }
}

#[test]
fn monotone_last_id() {
    let path = fresh_path("monotone");
    let mut db = Database::new(&path).unwrap();
    let mut previous = db.metadata.last_id;
    for (i, doc) in
        [br#"{"a":1}"#.as_slice(), br#"[1,2,3]"#.as_slice(), br#""leaf""#.as_slice()]
            .iter()
            .enumerate()
    {
        let kb = root_key(i as u64 * 1000).encode();
        let mut value = doc.to_vec();
        insert_json(&mut db, &kb, &mut value).unwrap();
        assert!(db.metadata.last_id >= previous);
        previous = db.metadata.last_id;
    }
}

#[test]
fn bad_key_bytes_are_rejected() {
    let path = fresh_path("badkey");
    let mut db = Database::new(&path).unwrap();
    let mut value = br#"{"a":1}"#.to_vec();
    match insert_json(&mut db, &[0x81], &mut value) {
        Err(DBError::KVError(dm_cache::EncodeError::InvalidLength)) => {}
        r => panic!("expected KVError(InvalidLength), got {:?}", r),
    }
    assert!(db.metadata.roots.is_empty());
}

#[test]
fn bad_json_is_rejected() {
    let path = fresh_path("badjson");
    let mut db = Database::new(&path).unwrap();
    let kb = root_key(0).encode();
    let mut value = br#"{"a":"#.to_vec();
    match insert_json(&mut db, &kb, &mut value) {
        Err(DBError::DatabaseJsonError) => {}
        r => panic!("expected DatabaseJsonError, got {:?}", r),
    }
    assert!(db.metadata.roots.is_empty());
    assert_eq!(db.metadata.last_id, 0);
}

#[test]
fn oversized_root_key_is_rejected() {
    let path = fresh_path("bigroot");
    let mut db = Database::new(&path).unwrap();
    // A root key longer than 255 bytes cannot enter the journal.
    let ids: Vec<VariableSizedId> = (0..200).map(|_| VariableSizedId::new(u64::MAX - 1)).collect();
    let k = Key { ids, field_key: KeyIndex::Root };
    let kb = k.encode();
    assert!(kb.len() > 255);
    let mut value = br#"{"a":1}"#.to_vec();
    match insert_json(&mut db, &kb, &mut value) {
        Err(DBError::KVError(dm_cache::EncodeError::InvalidLength)) => {}
        r => panic!("expected KVError(InvalidLength), got {:?}", r),
    }
    assert!(db.metadata.roots.is_empty());
}

#[test]
fn scalar_and_float_values_round_trip_to_disk() {
    let path = fresh_path("scalars");
    let mut db = Database::new(&path).unwrap();
    let kb = root_key(0).encode();
    let mut value =
        br#"{"n":null,"t":true,"f":false,"pi":1.5,"neg":-7,"big":18446744073709551615,"s":"hi"}"#
            .to_vec();
    insert_json(&mut db, &kb, &mut value).unwrap();
    drop(db);

    let tree = sled::open(&path).unwrap();
    let mut seen_null = false;
    let mut seen_true = false;
    let mut seen_false = false;
    let mut seen_float = false;
    let mut seen_neg = false;
    let mut seen_big = false;
    let mut seen_str = false;
    for entry in tree.iter() {
        let (k, v) = entry.unwrap();
        if k.as_ref() == METADATA_KEY {
            continue;
        }
        match v.as_ref()[0] {
            0 => seen_null = true,
            1 => {
                if v.as_ref()[1] == 1 {
                    seen_true = true;
                } else {
                    seen_false = true;
                }
            }
            2 => {
                assert_eq!(&v.as_ref()[1..], &1.5_f64.to_bits().to_be_bytes());
                seen_float = true;
            }
            3 => {
                assert_eq!(&v.as_ref()[1..], &(-7_i64).to_be_bytes());
                seen_neg = true;
            }
            4 => {
                assert_eq!(&v.as_ref()[1..], &u64::MAX.to_be_bytes());
                seen_big = true;
            }
            5 => {
                assert_eq!(&v.as_ref()[1..], b"hi");
                seen_str = true;
            }
            7 => {}
            t => panic!("unexpected node tag {}", t),
        }
    }
    assert!(seen_null && seen_true && seen_false && seen_float && seen_neg && seen_big && seen_str);
}

#[test]
fn metadata_survives_reopen() {
    let path = fresh_path("reopen");
    let mut db = Database::new(&path).unwrap();
    let kb = root_key(3).encode();
    let mut value = br#"{"a":1}"#.to_vec();
    insert_json(&mut db, &kb, &mut value).unwrap();
    let last_id = db.metadata.last_id;
    drop(db);

    let db = Database::new(&path).unwrap();
    assert_eq!(db.metadata.last_id, last_id);
    assert_eq!(db.metadata.roots, vec![kb]);
}

#[test]
fn store_get_and_set_round_trip() {
    let path = fresh_path("getset");
    let mut db = Database::new(&path).unwrap();
    let kb = root_key(0).encode();
    let mut value = br#"{"a":1}"#.to_vec();
    insert_json(&mut db, &kb, &mut value).unwrap();
    match db.store.get(&kb).unwrap() {
        Some(NodeValue::Object) => {}
        v => panic!("expected the object marker, got {:?}", v),
    }
    let other = root_key(7).encode();
    assert!(db.store.get(&other).unwrap().is_none());
    db.store.set(&other, &NodeValue::Bool(true)).unwrap();
    match db.store.get(&other).unwrap() {
        Some(NodeValue::Bool(true)) => {}
        v => panic!("expected the stored boolean, got {:?}", v),
    }
}
