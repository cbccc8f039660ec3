//! The insertion controller: decodes the caller-supplied key, validates its
//! placement against the metadata and the stored parent record, shreds the
//! document, and commits every produced record together with the rewritten
//! metadata record in one atomic batch.

use vstd::pervasive::unreached;
use vstd::prelude::*;
use vstd::slice::slice_to_vec;

use crate::bytes::bytes_eq;
use crate::error::EncodeError;
use crate::json_value::{admissible_dom, json_parses, parse_json, JsonValue};
use crate::key::{key_decode_v, Key, KeyV};
use crate::metadata::{metadata_decode_v, metadata_encode_v, Metadata, MetadataV};
use crate::node_value::{node_value_decode_v, NodeValue, NodeValueV};
use crate::shred::{lemma_shred_value_mono, pairs_view, shred_into, shred_value};
use crate::store::{
    batch_insert, batch_new, batch_view, lemma_lex_le_antisymmetric, lex_le, tree_view, Store,
    StoreError,
};
use crate::varint::{lemma_vi_wf_to_u64, vi_encode};

verus! {

/// An error raised by the store.
#[derive(Debug, Clone)]
pub enum DBError {
    /// The process has not configured a database path yet.
    PathNotSet,
    /// The process already configured a database path.
    PathAlreadySet,
    /// A codec failed while reading or writing keys, values or metadata.
    KVError(EncodeError),
    /// The key-value engine failed while opening the database.
    DatabaseInitError(sled::Error),
    /// The storage layer failed during a lookup or a commit.
    DatabaseStoreError(StoreError),
    /// The document bytes are not valid JSON.
    DatabaseJsonError,
    /// The root key is already present.
    DuplicateRootKey,
    /// A non-root key names no committed parent node.
    NoSuperNode,
    /// The parent's container kind does not admit the key's terminal
    /// locator.
    InvalidSuperNodeType,
}

/// The reserved key of the metadata record.  It contains no `0x00` byte,
/// and every path key contains one, so no path key collides with it.
pub open spec fn metadata_key_v() -> Seq<u8> {
    seq![
        0x7eu8,
        0x7eu8,
        0x4du8,
        0x45u8,
        0x54u8,
        0x41u8,
        0x44u8,
        0x41u8,
        0x54u8,
        0x41u8,
        0x7eu8,
        0x7eu8,
    ]
}

/// The reserved metadata key never equals an encoded path key: the path key
/// holds a `0x00` separator and the reserved key holds no zero byte.
pub proof fn lemma_metadata_key_disjoint(kv: KeyV)
    ensures
        crate::key::key_encode_v(kv) != metadata_key_v(),
{
    crate::key::lemma_key_separator_first_zero(kv);
    let enc = crate::key::key_encode_v(kv);
    let sep = crate::key::key_ids_bytes(kv.ids).len() as int;
    assert(enc[sep] == 0);
    assert(forall|j: int| 0 <= j < metadata_key_v().len() ==> metadata_key_v()[j] != 0);
    if enc == metadata_key_v() {
        assert(metadata_key_v()[sep] == 0);
    }
}

/// Builds the reserved metadata key.
pub fn metadata_key() -> (r: Vec<u8>)
    ensures
        r@ == metadata_key_v(),
{
    let mut v: Vec<u8> = Vec::new();
    v.push(0x7e);
    v.push(0x7e);
    v.push(0x4d);
    v.push(0x45);
    v.push(0x54);
    v.push(0x41);
    v.push(0x44);
    v.push(0x41);
    v.push(0x54);
    v.push(0x41);
    v.push(0x7e);
    v.push(0x7e);
    proof {
        assert(v@ =~= metadata_key_v());
    }
    v
}

/// The identifier counter after raising it over the ancestor ids of the
/// caller-supplied key, so that freshly issued ids stay above every id the
/// key already names.
pub open spec fn raised_counter(last: nat, ids: Seq<nat>) -> nat
    decreases ids.len(),
{
    if ids.len() == 0 {
        last
    } else {
        let m = raised_counter(last, ids.drop_last());
        if ids.last() > m {
            ids.last()
        } else {
            m
        }
    }
}

/// Raising the counter never lowers it.
pub proof fn lemma_raised_counter_ge(last: nat, ids: Seq<nat>)
    ensures
        raised_counter(last, ids) >= last,
    decreases ids.len(),
{
    if ids.len() > 0 {
        lemma_raised_counter_ge(last, ids.drop_last());
    }
}

/// The map written by a batch of encoded entries, in order, the last write
/// to a key winning.
pub open spec fn pairs_map(s: Seq<(Seq<u8>, Seq<u8>)>) -> Map<Seq<u8>, Seq<u8>>
    decreases s.len(),
{
    if s.len() == 0 {
        Map::empty()
    } else {
        pairs_map(s.drop_last()).insert(s.last().0, s.last().1)
    }
}

/// The metadata record after a successful insert: the new last issued id,
/// and the root set grown by the new root key if one was inserted.
pub open spec fn updated_metadata(m: MetadataV, key: Seq<u8>, is_root: bool, cf: nat) -> MetadataV {
    MetadataV {
        version: m.version,
        last_id: cf as u64,
        last_timestamp: m.last_timestamp,
        roots: if is_root {
            m.roots.push(key)
        } else {
            m.roots
        },
    }
}

/// A record committed in `contents` whose decoded key is exactly the
/// parent of `kv` (its ancestor chain without the last id) and whose
/// container kind admits `kv`'s terminal locator.
pub open spec fn committed_parent_admits(contents: Map<Seq<u8>, Seq<u8>>, kv: KeyV) -> bool {
    exists|kb: Seq<u8>|
        {
            &&& #[trigger] contents.contains_key(kb)
            &&& key_decode_v(kb) is Ok
            &&& node_value_decode_v(contents[kb]) is Ok
            &&& (key_decode_v(kb)->Ok_0).ids == kv.ids.take(kv.ids.len() - 1)
            &&& (kv.idx is Field ==> node_value_decode_v(contents[kb])->Ok_0 is Object)
            &&& (kv.idx is Id ==> node_value_decode_v(contents[kb])->Ok_0 is Array)
        }
}

/// The byte prefix that opens the parent's range of `kv`: the ancestor
/// chain without its last id, biased, followed by the separator.
pub open spec fn super_prefix_v(kv: KeyV) -> Seq<u8> {
    crate::key::key_ids_bytes(kv.ids.take(kv.ids.len() - 1)) + seq![0u8]
}

/// The least committed record at or after `kv`'s super-prefix decodes to
/// the path key `pk` with stored value `pv`.
pub open spec fn parent_scan_shows(
    contents: Map<Seq<u8>, Seq<u8>>,
    kv: KeyV,
    pk: KeyV,
    pv: NodeValueV,
) -> bool {
    exists|kb: Seq<u8>|
        {
            &&& #[trigger] contents.contains_key(kb)
            &&& lex_le(super_prefix_v(kv), kb)
            &&& (forall|k2: Seq<u8>|
                #[trigger] contents.contains_key(k2) && lex_le(super_prefix_v(kv), k2) ==> lex_le(
                    kb,
                    k2,
                ))
            &&& key_decode_v(kb) == Ok::<KeyV, EncodeError>(pk)
            &&& node_value_decode_v(contents[kb]) == Ok::<NodeValueV, EncodeError>(pv)
        }
}

/// The least committed record at or after `kv`'s super-prefix carries a
/// path key, but its stored value fails to decode with `e`.
pub open spec fn scan_value_undecodable(
    contents: Map<Seq<u8>, Seq<u8>>,
    kv: KeyV,
    e: EncodeError,
) -> bool {
    exists|kb: Seq<u8>|
        {
            &&& #[trigger] contents.contains_key(kb)
            &&& lex_le(super_prefix_v(kv), kb)
            &&& (forall|k2: Seq<u8>|
                #[trigger] contents.contains_key(k2) && lex_le(super_prefix_v(kv), k2) ==> lex_le(
                    kb,
                    k2,
                ))
            &&& key_decode_v(kb) is Ok
            &&& node_value_decode_v(contents[kb]) == Err::<NodeValueV, EncodeError>(e)
        }
}

/// No committed record lies at or after `kv`'s super-prefix.
pub open spec fn no_record_at_prefix(contents: Map<Seq<u8>, Seq<u8>>, kv: KeyV) -> bool {
    forall|k2: Seq<u8>| #[trigger] contents.contains_key(k2) ==> !lex_le(super_prefix_v(kv), k2)
}

/// The database: the key-value engine handle and the in-memory mirror of
/// the metadata record.
pub struct Database {
    pub store: Store,
    pub metadata: Metadata,
}

impl Database {
    /// The in-memory metadata can always be re-serialized.
    pub open spec fn wf(self) -> bool {
        self.metadata.wf()
    }

    /// Opens the database at `path` and loads the metadata record, writing
    /// a fresh one if none is stored yet.
    pub fn new(path: &str) -> (r: Result<Database, DBError>)
        ensures
            match r {
                Ok(db) => db.wf() && tree_view(db.store.tree).contains_key(metadata_key_v())
                    && metadata_decode_v(tree_view(db.store.tree)[metadata_key_v()]) == Ok::<
                    MetadataV,
                    EncodeError,
                >(db.metadata@),
                Err(e) => match e {
                    DBError::DatabaseInitError(_) => true,
                    DBError::KVError(e2) => exists|t: sled::Db|
                        #[trigger] tree_view(t).contains_key(metadata_key_v())
                            && metadata_decode_v(tree_view(t)[metadata_key_v()]) == Err::<
                            MetadataV,
                            EncodeError,
                        >(e2),
                    _ => false,
                },
            },
    {
        let mut store = match Store::new(path) {
            Ok(s) => s,
            Err(e) => {
                return Err(DBError::DatabaseInitError(e));
            },
        };
        let mk = metadata_key();
        match store.get_raw(mk.as_slice()) {
            Ok(Some(v)) => match Metadata::decode(v.as_slice()) {
                Ok(metadata) => Ok(Database { store, metadata }),
                Err(e) => {
                    proof {
                        assert(tree_view(store.tree).contains_key(metadata_key_v())
                            && metadata_decode_v(tree_view(store.tree)[metadata_key_v()]) == Err::<
                            MetadataV,
                            EncodeError,
                        >(e));
                    }
                    Err(DBError::KVError(e))
                },
            },
            Ok(None) => {
                let metadata = Metadata::new();
                let enc = metadata.encode();
                match store.set_raw(mk.as_slice(), enc.as_slice()) {
                    Ok(()) => {
                        proof {
                            crate::metadata::lemma_metadata_round_trip(metadata@);
                        }
                        Ok(Database { store, metadata })
                    },
                    Err(e) => Err(DBError::DatabaseInitError(e)),
                }
            },
            Err(e) => Err(DBError::DatabaseInitError(e)),
        }
    }
}

/// Decides whether the record found by the parent scan admits `k` as a
/// child: the found key must be exactly the parent (the key's ancestor
/// chain without its last id), an object admits only field children, and an
/// array admits only position children.
#[verifier::loop_isolation(false)]
pub fn check_super_node(k: &Key, found: &Option<(Key, NodeValue)>) -> (r: Result<(), DBError>)
    requires
        k@.ids.len() >= 1,
        forall|i: int| 0 <= i < k.ids@.len() ==> (#[trigger] k.ids@[i]).canonical(),
        (match found {
            Some(kv) => forall|i: int|
                0 <= i < kv.0.ids@.len() ==> (#[trigger] kv.0.ids@[i]).canonical(),
            None => true,
        }),
    ensures
        (match found {
            None => r == Err::<(), DBError>(DBError::NoSuperNode),
            Some(kv) => {
                if kv.0@.ids != k@.ids.take(k@.ids.len() - 1) {
                    r == Err::<(), DBError>(DBError::NoSuperNode)
                } else if k@.idx is Field && !(kv.1@ is Object) {
                    r == Err::<(), DBError>(DBError::InvalidSuperNodeType)
                } else if k@.idx is Id && !(kv.1@ is Array) {
                    r == Err::<(), DBError>(DBError::InvalidSuperNodeType)
                } else {
                    r == Ok::<(), DBError>(())
                }
            },
        }),
{
    match found {
        None => Err(DBError::NoSuperNode),
        Some(kv) => {
            let parent = &kv.0;
            if parent.ids.len() != k.ids.len() - 1 {
                proof {
                    assert(parent@.ids.len() == parent.ids@.len());
                    assert(k@.ids.take(k@.ids.len() - 1).len() == k@.ids.len() - 1);
                }
                return Err(DBError::NoSuperNode);
            }
            let mut i: usize = 0;
            while i < parent.ids.len()
                invariant
                    0 <= i <= parent.ids@.len(),
                    parent.ids@.len() == k.ids@.len() - 1,
                    k@.ids.len() == k.ids@.len(),
                    forall|j: int| 0 <= j < i ==> parent@.ids[j] == k@.ids[j],
                    forall|j: int|
                        0 <= j < parent.ids@.len() ==> (#[trigger] parent.ids@[j]).canonical(),
                    forall|j: int| 0 <= j < k.ids@.len() ==> (#[trigger] k.ids@[j]).canonical(),
                decreases parent.ids@.len() - i,
            {
                if !bytes_eq(parent.ids[i].value.as_slice(), k.ids[i].value.as_slice()) {
                    proof {
                        assert(parent.ids@[i as int].value@ != k.ids@[i as int].value@);
                        assert(parent.ids@[i as int].canonical());
                        assert(k.ids@[i as int].canonical());
                        if parent@.ids[i as int] == k@.ids[i as int] {
                            assert(parent.ids@[i as int].val() == k.ids@[i as int].val());
                            assert(parent.ids@[i as int].value@ == vi_encode(
                                parent.ids@[i as int].val(),
                            ));
                            assert(k.ids@[i as int].value@ == vi_encode(k.ids@[i as int].val()));
                            assert(false);
                        }
                        assert(k@.ids.take(k@.ids.len() - 1)[i as int] == k@.ids[i as int]);
                        assert(parent@.ids != k@.ids.take(k@.ids.len() - 1));
                    }
                    return Err(DBError::NoSuperNode);
                }
                i = i + 1;
            }
            proof {
                assert(parent@.ids =~= k@.ids.take(k@.ids.len() - 1));
            }
            if k.field_key.is_field() && !kv.1.is_object() {
                return Err(DBError::InvalidSuperNodeType);
            }
            if k.field_key.is_id() && !kv.1.is_array() {
                return Err(DBError::InvalidSuperNodeType);
            }
            Ok(())
        },
    }
}

/// What the parent scan can show is pinned by the store contents: when the
/// least record at or after the super-prefix decodes to `(pk0, pv0)`, any
/// decoding the scan shows equals it, and some record lies at the prefix.
proof fn lemma_scan_some_pins(
    contents: Map<Seq<u8>, Seq<u8>>,
    kv: KeyV,
    lower: Seq<u8>,
    pk0: KeyV,
    pv0: NodeValueV,
)
    requires
        lower == super_prefix_v(kv),
        exists|kb: Seq<u8>|
            {
                &&& #[trigger] contents.contains_key(kb)
                &&& lex_le(lower, kb)
                &&& (forall|k2: Seq<u8>|
                    #[trigger] contents.contains_key(k2) && lex_le(lower, k2) ==> lex_le(kb, k2))
                &&& key_decode_v(kb) == Ok::<KeyV, EncodeError>(pk0)
                &&& node_value_decode_v(contents[kb]) == Ok::<NodeValueV, EncodeError>(pv0)
            },
    ensures
        !no_record_at_prefix(contents, kv),
        forall|pk: KeyV, pv: NodeValueV|
            #[trigger] parent_scan_shows(contents, kv, pk, pv) ==> pk == pk0 && pv == pv0,
{
    let kb0 = choose|kb: Seq<u8>|
        {
            &&& #[trigger] contents.contains_key(kb)
            &&& lex_le(lower, kb)
            &&& (forall|k2: Seq<u8>|
                #[trigger] contents.contains_key(k2) && lex_le(lower, k2) ==> lex_le(kb, k2))
            &&& key_decode_v(kb) == Ok::<KeyV, EncodeError>(pk0)
            &&& node_value_decode_v(contents[kb]) == Ok::<NodeValueV, EncodeError>(pv0)
        };
    assert forall|pk: KeyV, pv: NodeValueV| #[trigger] parent_scan_shows(
        contents,
        kv,
        pk,
        pv,
    ) implies pk == pk0 && pv == pv0 by {
        let kb1 = choose|kb: Seq<u8>|
            {
                &&& #[trigger] contents.contains_key(kb)
                &&& lex_le(super_prefix_v(kv), kb)
                &&& (forall|k2: Seq<u8>|
                    #[trigger] contents.contains_key(k2) && lex_le(super_prefix_v(kv), k2)
                        ==> lex_le(kb, k2))
                &&& key_decode_v(kb) == Ok::<KeyV, EncodeError>(pk)
                &&& node_value_decode_v(contents[kb]) == Ok::<NodeValueV, EncodeError>(pv)
            };
        assert(lex_le(kb0, kb1));
        assert(lex_le(kb1, kb0));
        lemma_lex_le_antisymmetric(kb0, kb1);
    }
}

/// When the scan finds nothing it can show — no record at or after the
/// super-prefix, or a least record that is no path key — no decoding is
/// shown at all.
proof fn lemma_scan_none_pins(contents: Map<Seq<u8>, Seq<u8>>, kv: KeyV, lower: Seq<u8>)
    requires
        lower == super_prefix_v(kv),
        (forall|k2: Seq<u8>| #[trigger] contents.contains_key(k2) ==> !lex_le(lower, k2)) || (
        exists|kb: Seq<u8>|
            {
                &&& #[trigger] contents.contains_key(kb)
                &&& lex_le(lower, kb)
                &&& (forall|k2: Seq<u8>|
                    #[trigger] contents.contains_key(k2) && lex_le(lower, k2) ==> lex_le(kb, k2))
                &&& key_decode_v(kb) is Err
            }),
    ensures
        forall|pk: KeyV, pv: NodeValueV| !parent_scan_shows(contents, kv, pk, pv),
{
    assert forall|pk: KeyV, pv: NodeValueV| !parent_scan_shows(contents, kv, pk, pv) by {
        if parent_scan_shows(contents, kv, pk, pv) {
            let kb1 = choose|kb: Seq<u8>|
                {
                    &&& #[trigger] contents.contains_key(kb)
                    &&& lex_le(super_prefix_v(kv), kb)
                    &&& (forall|k2: Seq<u8>|
                        #[trigger] contents.contains_key(k2) && lex_le(super_prefix_v(kv), k2)
                            ==> lex_le(kb, k2))
                    &&& key_decode_v(kb) == Ok::<KeyV, EncodeError>(pk)
                    &&& node_value_decode_v(contents[kb]) == Ok::<NodeValueV, EncodeError>(pv)
                };
            if !(forall|k2: Seq<u8>| #[trigger]
            contents.contains_key(k2) ==> !lex_le(lower, k2)) {
                let kb0 = choose|kb: Seq<u8>|
                    {
                        &&& #[trigger] contents.contains_key(kb)
                        &&& lex_le(lower, kb)
                        &&& (forall|k2: Seq<u8>|
                            #[trigger] contents.contains_key(k2) && lex_le(lower, k2) ==> lex_le(
                                kb,
                                k2,
                            ))
                        &&& key_decode_v(kb) is Err
                    };
                assert(lex_le(kb0, kb1));
                assert(lex_le(kb1, kb0));
                lemma_lex_le_antisymmetric(kb0, kb1);
            } else {
                assert(!lex_le(lower, kb1));
            }
        }
    }
}

/// When the least record at or after the super-prefix carries a path key
/// but its value fails to decode, that is all the scan can show.
proof fn lemma_scan_undecodable_pins(
    contents: Map<Seq<u8>, Seq<u8>>,
    kv: KeyV,
    lower: Seq<u8>,
    e: EncodeError,
)
    requires
        lower == super_prefix_v(kv),
        exists|kb: Seq<u8>|
            {
                &&& #[trigger] contents.contains_key(kb)
                &&& lex_le(lower, kb)
                &&& (forall|k2: Seq<u8>|
                    #[trigger] contents.contains_key(k2) && lex_le(lower, k2) ==> lex_le(kb, k2))
                &&& key_decode_v(kb) is Ok
                &&& node_value_decode_v(contents[kb]) == Err::<NodeValueV, EncodeError>(e)
            },
    ensures
        scan_value_undecodable(contents, kv, e),
        !no_record_at_prefix(contents, kv),
        forall|pk: KeyV, pv: NodeValueV| !parent_scan_shows(contents, kv, pk, pv),
{
    let kb0 = choose|kb: Seq<u8>|
        {
            &&& #[trigger] contents.contains_key(kb)
            &&& lex_le(lower, kb)
            &&& (forall|k2: Seq<u8>|
                #[trigger] contents.contains_key(k2) && lex_le(lower, k2) ==> lex_le(kb, k2))
            &&& key_decode_v(kb) is Ok
            &&& node_value_decode_v(contents[kb]) == Err::<NodeValueV, EncodeError>(e)
        };
    assert(scan_value_undecodable(contents, kv, e));
    assert forall|pk: KeyV, pv: NodeValueV| !parent_scan_shows(contents, kv, pk, pv) by {
        if parent_scan_shows(contents, kv, pk, pv) {
            let kb1 = choose|kb: Seq<u8>|
                {
                    &&& #[trigger] contents.contains_key(kb)
                    &&& lex_le(super_prefix_v(kv), kb)
                    &&& (forall|k2: Seq<u8>|
                        #[trigger] contents.contains_key(k2) && lex_le(super_prefix_v(kv), k2)
                            ==> lex_le(kb, k2))
                    &&& key_decode_v(kb) == Ok::<KeyV, EncodeError>(pk)
                    &&& node_value_decode_v(contents[kb]) == Ok::<NodeValueV, EncodeError>(pv)
                };
            assert(lex_le(kb0, kb1));
            assert(lex_le(kb1, kb0));
            lemma_lex_le_antisymmetric(kb0, kb1);
        }
    }
}

/// Inserts one JSON document under the caller-supplied encoded key.
///
/// The key is decoded and its placement validated (root uniqueness, or the
/// committed parent's container kind); the document is parsed and shredded
/// into one record per node with fresh identifiers; the records and the
/// rewritten metadata record are committed in one atomic batch.
///
/// The contract pins every outcome: on success the stored tree equals the
/// old contents overwritten by exactly the shredded records and the
/// rewritten metadata record; every validation error leaves the stored
/// tree untouched (all validation precedes any engine write) and comes
/// exactly on its own inputs; and the in-memory metadata is unchanged on
/// every error.  Only an error carried out of the engine itself (a
/// `sled::Error`) is left open, since the engine decides when it fails.
#[verifier::rlimit(50)]
pub fn insert_json(db: &mut Database, key: &[u8], value: &mut Vec<u8>) -> (r: Result<(), DBError>)
    requires
        old(db).wf(),
    ensures
        final(db).wf(),
        r is Err ==> final(db).metadata@ == old(db).metadata@,
        r != Err::<(), DBError>(DBError::PathNotSet) && r != Err::<(), DBError>(
            DBError::PathAlreadySet,
        ),
        !(r matches Err(DBError::DatabaseInitError(_))),
        r == Err::<(), DBError>(DBError::DuplicateRootKey) ==> (key_decode_v(key@) matches Ok(
            kv2,
        ) && kv2.idx is Root && old(db).metadata@.roots.contains(key@) && tree_view(
            final(db).store.tree,
        ) == tree_view(old(db).store.tree)),
        r == Err::<(), DBError>(DBError::NoSuperNode) ==> (key_decode_v(key@) matches Ok(kv2)
            && !(kv2.idx is Root) && tree_view(final(db).store.tree) == tree_view(
            old(db).store.tree,
        )),
        r == Err::<(), DBError>(DBError::InvalidSuperNodeType) ==> (key_decode_v(key@) matches Ok(
            kv2,
        ) && !(kv2.idx is Root) && kv2.ids.len() >= 2 && tree_view(final(db).store.tree)
            == tree_view(old(db).store.tree)),
        (match r {
            Err(DBError::KVError(e)) => tree_view(final(db).store.tree) == tree_view(
                old(db).store.tree,
            ) && (key_decode_v(key@) == Err::<KeyV, EncodeError>(e) || (key_decode_v(key@)
                matches Ok(kv2) && kv2.idx is Root && key@.len() > 255 && e
                == EncodeError::InvalidLength) || (key_decode_v(key@) matches Ok(kv2) && e
                == EncodeError::Overflow && json_parses(old(value)@) && exists|dom: JsonValue|
                #[trigger] admissible_dom(old(value)@, dom) && shred_value(
                    dom,
                    kv2,
                    raised_counter(old(db).metadata@.last_id as nat, kv2.ids),
                ).1 > 0xFFFFFFFFFFFFFFFE)),
            _ => true,
        }),
        (match r {
            Err(DBError::DatabaseStoreError(se)) => match se {
                StoreError::EncodeError(e) => (key_decode_v(key@) matches Ok(kv2) && !(
                kv2.idx is Root) && kv2.ids.len() >= 2 && scan_value_undecodable(
                    tree_view(old(db).store.tree),
                    kv2,
                    e,
                )) && tree_view(final(db).store.tree) == tree_view(old(db).store.tree),
                StoreError::SledError(_) => true,
            },
            _ => true,
        }),
        (match key_decode_v(key@) {
            Err(e) => r == Err::<(), DBError>(DBError::KVError(e)) && tree_view(
                final(db).store.tree,
            ) == tree_view(old(db).store.tree),
            Ok(kv) => {
                &&& (kv.idx is Root && key@.len() > 255 ==> r == Err::<(), DBError>(
                    DBError::KVError(EncodeError::InvalidLength),
                ) && tree_view(final(db).store.tree) == tree_view(old(db).store.tree))
                &&& (kv.idx is Root && key@.len() <= 255 && old(db).metadata@.roots.contains(key@)
                    ==> r == Err::<(), DBError>(DBError::DuplicateRootKey) && tree_view(
                    final(db).store.tree,
                ) == tree_view(old(db).store.tree))
                &&& (!(kv.idx is Root) && kv.ids.len() < 2 ==> r == Err::<(), DBError>(
                    DBError::NoSuperNode,
                ) && tree_view(final(db).store.tree) == tree_view(old(db).store.tree))
                &&& (r == Err::<(), DBError>(DBError::DatabaseJsonError) ==> !json_parses(
                    old(value)@,
                ) && tree_view(final(db).store.tree) == tree_view(old(db).store.tree))
                &&& (forall|pk: KeyV, pv: NodeValueV|
                    !(kv.idx is Root) && kv.ids.len() >= 2 && #[trigger] parent_scan_shows(
                        tree_view(old(db).store.tree),
                        kv,
                        pk,
                        pv,
                    ) && pk.ids == kv.ids.take(kv.ids.len() - 1) && ((kv.idx is Field && !(
                    pv is Object)) || (kv.idx is Id && !(pv is Array))) ==> r == Err::<(), DBError>(
                        DBError::InvalidSuperNodeType,
                    ) || r matches Err(DBError::DatabaseStoreError(StoreError::SledError(_))))
                &&& (!(kv.idx is Root) && kv.ids.len() >= 2 && no_record_at_prefix(
                    tree_view(old(db).store.tree),
                    kv,
                ) ==> r == Err::<(), DBError>(DBError::NoSuperNode) || r matches Err(
                    DBError::DatabaseStoreError(StoreError::SledError(_)),
                ))
                &&& (forall|pk: KeyV, pv: NodeValueV|
                    !(kv.idx is Root) && kv.ids.len() >= 2 && #[trigger] parent_scan_shows(
                        tree_view(old(db).store.tree),
                        kv,
                        pk,
                        pv,
                    ) && pk.ids == kv.ids.take(kv.ids.len() - 1) && (kv.idx is Field
                        ==> pv is Object) && (kv.idx is Id ==> pv is Array) ==> r != Err::<
                        (),
                        DBError,
                    >(DBError::NoSuperNode) && r != Err::<(), DBError>(
                        DBError::InvalidSuperNodeType,
                    ))
                &&& (r == Ok::<(), DBError>(()) ==> (kv.idx is Root ==> key@.len() <= 255 && !old(
                    db,
                ).metadata@.roots.contains(key@)) && (!(kv.idx is Root) ==> kv.ids.len() >= 2
                    && committed_parent_admits(tree_view(old(db).store.tree), kv)) && json_parses(
                    old(value)@,
                ) && (exists|dom: JsonValue|
                    {
                        &&& #[trigger] admissible_dom(old(value)@, dom)
                        &&& ({
                            let c0 = raised_counter(old(db).metadata@.last_id as nat, kv.ids);
                            let sh = shred_value(dom, kv, c0);
                            let m2 = updated_metadata(
                                old(db).metadata@,
                                key@,
                                kv.idx is Root,
                                sh.1,
                            );
                            &&& final(db).metadata@ == m2
                            &&& final(db).metadata@.last_id >= old(db).metadata@.last_id
                            &&& tree_view(final(db).store.tree) == tree_view(
                                old(db).store.tree,
                            ).union_prefer_right(
                                pairs_map(sh.0).insert(metadata_key_v(), metadata_encode_v(m2)),
                            )
                        })
                    }))
            },
        }),
{
    let k = match Key::decode(key) {
        Ok(k) => k,
        Err(e) => {
            return Err(DBError::KVError(e));
        },
    };
    let mut metadata = db.metadata.duplicate();
    let ghost kv = k@;
    let is_root = k.field_key.is_root();
    if is_root {
        if key.len() > 255 {
            return Err(DBError::KVError(EncodeError::InvalidLength));
        }
        let mut found = false;
        let mut i: usize = 0;
        while i < metadata.roots.len()
            invariant
                0 <= i <= metadata.roots@.len(),
                metadata@ == old(db).metadata@,
                found == metadata@.roots.take(i as int).contains(key@),
            decreases metadata.roots@.len() - i,
        {
            let ghost pre = metadata@.roots.take(i as int);
            if bytes_eq(metadata.roots[i].as_slice(), key) {
                found = true;
            }
            i = i + 1;
            proof {
                assert(metadata@.roots.take(i as int) =~= pre.push(metadata@.roots[i - 1]));
                if found {
                    if pre.contains(key@) {
                        let idx = choose|j: int| 0 <= j < pre.len() && pre[j] == key@;
                        assert(metadata@.roots.take(i as int)[idx] == key@);
                    } else {
                        assert(metadata@.roots[i - 1] == key@);
                        assert(metadata@.roots.take(i as int)[i - 1] == key@);
                    }
                    assert(metadata@.roots.take(i as int).contains(key@));
                } else {
                    assert(!metadata@.roots.take(i as int).contains(key@));
                }
            }
        }
        proof {
            assert(metadata@.roots.take(metadata.roots@.len() as int) =~= metadata@.roots);
        }
        if found {
            return Err(DBError::DuplicateRootKey);
        }
        metadata.roots.push(slice_to_vec(key));
        proof {
            assert(metadata@.roots =~= old(db).metadata@.roots.push(key@));
        }
    } else {
        if k.ids.len() < 2 {
            return Err(DBError::NoSuperNode);
        }
        let ghost contents = tree_view(old(db).store.tree);
        let ghost lower = crate::key::key_ids_bytes(kv.ids.take(kv.ids.len() - 1)) + seq![0u8];
        proof {
            assert(super_prefix_v(kv) == lower);
        }
        let scanned = match db.store.get_super_node(&k) {
            Ok(o) => o,
            Err(e) => {
                proof {
                    match e {
                        StoreError::EncodeError(e2) => {
                            lemma_scan_undecodable_pins(contents, kv, lower, e2);
                        },
                        StoreError::SledError(_) => {},
                    }
                }
                return Err(DBError::DatabaseStoreError(e));
            },
        };
        proof {
            match &scanned {
                Some(sv) => {
                    lemma_scan_some_pins(contents, kv, lower, sv.0@, sv.1@);
                },
                None => {
                    lemma_scan_none_pins(contents, kv, lower);
                },
            }
        }
        match check_super_node(&k, &scanned) {
            Ok(()) => {
                proof {
                    let contents = tree_view(old(db).store.tree);
                    let skv = scanned->Some_0;
                    let kb = choose|kb: Seq<u8>|
                        {
                            &&& #[trigger] contents.contains_key(kb)
                            &&& crate::store::lex_le(
                                crate::key::key_ids_bytes(kv.ids.take(kv.ids.len() - 1)) + seq![
                                    0u8,
                                ],
                                kb,
                            )
                            &&& (forall|k2: Seq<u8>|
                                #[trigger] contents.contains_key(k2) && crate::store::lex_le(
                                    crate::key::key_ids_bytes(kv.ids.take(kv.ids.len() - 1))
                                        + seq![0u8],
                                    k2,
                                ) ==> crate::store::lex_le(kb, k2))
                            &&& key_decode_v(kb) == Ok::<KeyV, EncodeError>(skv.0@)
                            &&& node_value_decode_v(contents[kb]) == Ok::<
                                NodeValueV,
                                EncodeError,
                            >(skv.1@)
                        };
                    assert(contents.contains_key(kb) && key_decode_v(kb) == Ok::<
                        KeyV,
                        EncodeError,
                    >(skv.0@) && node_value_decode_v(contents[kb]) == Ok::<
                        NodeValueV,
                        EncodeError,
                    >(skv.1@) && skv.0@.ids == kv.ids.take(kv.ids.len() - 1) && (kv.idx is Field
                        ==> skv.1@ is Object) && (kv.idx is Id ==> skv.1@ is Array));
                    assert(committed_parent_admits(contents, kv));
                }
            },
            Err(e) => {
                return Err(e);
            },
        }
    }
    let dom = match parse_json(value) {
        Some(v) => v,
        None => {
            return Err(DBError::DatabaseJsonError);
        },
    };
    let mut counter: u64 = metadata.last_id;
    let mut i: usize = 0;
    proof {
        assert(kv.ids.take(0) =~= Seq::<nat>::empty());
    }
    while i < k.ids.len()
        invariant
            0 <= i <= k.ids@.len(),
            k.wf(),
            kv == k@,
            counter as nat == raised_counter(old(db).metadata@.last_id as nat, kv.ids.take(
                i as int,
            )),
        decreases k.ids@.len() - i,
    {
        proof {
            lemma_vi_wf_to_u64(k.ids@[i as int].value@);
        }
        let v = match k.ids[i].to_u64() {
            Ok(v) => v,
            Err(_) => unreached(),
        };
        if v > counter {
            counter = v;
        }
        i = i + 1;
        proof {
            assert(kv.ids.take(i as int).drop_last() =~= kv.ids.take(i - 1));
            assert(kv.ids.take(i as int).last() == kv.ids[i - 1]);
        }
    }
    proof {
        assert(kv.ids.take(k.ids@.len() as int) =~= kv.ids);
    }
    let ghost c0 = counter as nat;
    let mut entries: Vec<(Vec<u8>, Vec<u8>)> = Vec::new();
    let final_counter = match shred_into(&dom, &k, counter, &mut entries) {
        Ok(c) => c,
        Err(e) => {
            return Err(DBError::KVError(e));
        },
    };
    proof {
        assert(pairs_view(entries@) =~= Seq::<(Seq<u8>, Seq<u8>)>::empty() + shred_value(
            dom,
            kv,
            c0,
        ).0);
        assert(pairs_view(entries@) =~= shred_value(dom, kv, c0).0);
        lemma_shred_value_mono(dom, kv, c0);
        lemma_raised_counter_ge(old(db).metadata@.last_id as nat, kv.ids);
    }
    metadata.last_id = final_counter;
    let mut batch = batch_new();
    let mut j: usize = 0;
    proof {
        assert(pairs_view(entries@).take(0) =~= Seq::<(Seq<u8>, Seq<u8>)>::empty());
    }
    while j < entries.len()
        invariant
            0 <= j <= entries@.len(),
            batch_view(batch) == pairs_map(pairs_view(entries@).take(j as int)),
        decreases entries@.len() - j,
    {
        batch_insert(&mut batch, &entries[j].0, &entries[j].1);
        j = j + 1;
        proof {
            assert(pairs_view(entries@).take(j as int).drop_last() =~= pairs_view(
                entries@,
            ).take(j - 1));
            assert(pairs_view(entries@).take(j as int).last() == pairs_view(entries@)[j - 1]);
        }
    }
    proof {
        assert(pairs_view(entries@).take(entries@.len() as int) =~= pairs_view(entries@));
    }
    let mk = metadata_key();
    let metadata_raw = metadata.encode();
    batch_insert(&mut batch, &mk, &metadata_raw);
    match db.store.apply_batch(batch) {
        Ok(()) => {},
        Err(e) => {
            return Err(DBError::DatabaseStoreError(StoreError::SledError(e)));
        },
    }
    proof {
        let sh = shred_value(dom, kv, c0);
        let m2 = updated_metadata(old(db).metadata@, key@, kv.idx is Root, sh.1);
        assert(metadata@ =~= m2);
    }
    db.metadata = metadata;
    Ok(())
}

} // verus!
