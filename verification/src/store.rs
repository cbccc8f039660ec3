//! The ordered key-value engine behind the store.
//!
//! The engine itself is the `sled` embedded database; the library reaches it
//! only through the trusted wrappers in this module, whose contracts speak
//! of the tree's contents as a map from key bytes to value bytes.  Everything
//! that interprets those bytes is verified code in the other modules.

use vstd::prelude::*;

use crate::error::EncodeError;
use crate::key::{key_decode_v, Key, KeyV};
use crate::node_value::{node_value_decode_v, node_value_encode_v, NodeValue, NodeValueV};

verus! {

#[verifier::external_type_specification]
#[verifier::external_body]
pub struct ExSledDb(sled::Db);

#[verifier::external_type_specification]
#[verifier::external_body]
pub struct ExSledBatch(sled::Batch);

#[verifier::external_type_specification]
#[verifier::external_body]
pub struct ExSledError(sled::Error);

/// Relies on the `Clone` impl of `sled::Error`; nothing is assumed of the
/// copy.
pub assume_specification[ <sled::Error as core::clone::Clone>::clone ](e: &sled::Error) -> sled::Error;

/// The contents of a tree: the map from key bytes to value bytes.
pub uninterp spec fn tree_view(t: sled::Db) -> Map<Seq<u8>, Seq<u8>>;

/// The writes recorded in a batch, latest put per key.
pub uninterp spec fn batch_view(b: sled::Batch) -> Map<Seq<u8>, Seq<u8>>;

/// The contents of a batch with nothing recorded yet.
pub open spec fn empty_writes() -> Map<Seq<u8>, Seq<u8>> {
    Map::empty()
}

/// Byte-string order: the order in which the engine keeps its keys.
pub open spec fn lex_le(a: Seq<u8>, b: Seq<u8>) -> bool
    decreases a.len(),
{
    if a.len() == 0 {
        true
    } else if b.len() == 0 {
        false
    } else if a[0] < b[0] {
        true
    } else if a[0] > b[0] {
        false
    } else {
        lex_le(a.skip(1), b.skip(1))
    }
}

/// Byte-string order is antisymmetric: two keys each at or before the
/// other are equal, so the least key at or after a bound is unique.
pub proof fn lemma_lex_le_antisymmetric(a: Seq<u8>, b: Seq<u8>)
    requires
        lex_le(a, b),
        lex_le(b, a),
    ensures
        a == b,
    decreases a.len(),
{
    if a.len() == 0 {
        assert(b.len() == 0);
        assert(a =~= b);
    } else {
        assert(b.len() > 0);
        assert(a[0] == b[0]);
        lemma_lex_le_antisymmetric(a.skip(1), b.skip(1));
        assert(a.skip(1) == b.skip(1));
        assert(a.len() == b.len());
        assert forall|i: int| 0 <= i < a.len() implies a[i] == b[i] by {
            if i >= 1 {
                assert(a[i] == a.skip(1)[i - 1]);
                assert(b[i] == b.skip(1)[i - 1]);
            }
        }
        assert(a =~= b);
    }
}

/// An error raised by the storage layer: either the engine's own error or a
/// codec error while interpreting stored bytes.
#[derive(Debug, Clone)]
pub enum StoreError {
    SledError(sled::Error),
    EncodeError(EncodeError),
}

/// A handle on the ordered key-value engine.
pub struct Store {
    pub tree: sled::Db,
}

impl View for Store {
    type V = Map<Seq<u8>, Seq<u8>>;

    open spec fn view(&self) -> Map<Seq<u8>, Seq<u8>> {
        tree_view(self.tree)
    }
}

impl Store {
    /// Relies on `sled::open`: opens or creates the database rooted at
    /// `path`.  Nothing is assumed about the contents found there.
    #[verifier::external_body]
    pub fn new(path: &str) -> (r: Result<Self, sled::Error>)
    {
        match sled::open(path) {
            Ok(tree) => Ok(Store { tree }),
            Err(e) => Err(e),
        }
    }

    /// Relies on `sled::Tree::get`: returns a copy of the value stored at
    /// `key`, if any.
    #[verifier::external_body]
    pub(crate) fn get_raw(&self, key: &[u8]) -> (r: Result<Option<Vec<u8>>, sled::Error>)
        ensures
            match r {
                Ok(o) => match o {
                    Some(v) => tree_view(self.tree).contains_key(key@) && v@ == tree_view(
                        self.tree,
                    )[key@],
                    None => !tree_view(self.tree).contains_key(key@),
                },
                Err(_) => true,
            },
    {
        match self.tree.get(key) {
            Ok(Some(iv)) => Ok(Some(iv.to_vec())),
            Ok(None) => Ok(None),
            Err(e) => Err(e),
        }
    }

    /// Relies on `sled::Tree::insert`: stores `value` at `key`.  On failure
    /// the binding is either unchanged or already set; no other key moves.
    #[verifier::external_body]
    pub(crate) fn set_raw(&mut self, key: &[u8], value: &[u8]) -> (r: Result<(), sled::Error>)
        ensures
            match r {
                Ok(()) => tree_view(final(self).tree) == tree_view(old(self).tree).insert(
                    key@,
                    value@,
                ),
                Err(_) => tree_view(final(self).tree) == tree_view(old(self).tree) || tree_view(
                    final(self).tree,
                ) == tree_view(old(self).tree).insert(key@, value@),
            },
    {
        match self.tree.insert(key, value) {
            Ok(_) => Ok(()),
            Err(e) => Err(e),
        }
    }

    /// Relies on `sled::Tree::range` and `sled::Iter::next`: returns the
    /// entry with the smallest key at or after `lower` in byte order, if
    /// any key at or after `lower` exists.
    #[verifier::external_body]
    pub(crate) fn range_first(&self, lower: &[u8]) -> (r: Result<
        Option<(Vec<u8>, Vec<u8>)>,
        sled::Error,
    >)
        ensures
            match r {
                Ok(o) => match o {
                    Some(kv) => tree_view(self.tree).contains_key(kv.0@) && kv.1@ == tree_view(
                        self.tree,
                    )[kv.0@] && lex_le(lower@, kv.0@) && (forall|k2: Seq<u8>|
                        #[trigger] tree_view(self.tree).contains_key(k2) && lex_le(lower@, k2)
                            ==> lex_le(kv.0@, k2)),
                    None => forall|k2: Seq<u8>| #[trigger]
                        tree_view(self.tree).contains_key(k2) ==> !lex_le(lower@, k2),
                },
                Err(_) => true,
            },
    {
        let mut iter = self.tree.range(lower.to_vec()..);
        match iter.next() {
            Some(Ok((k, v))) => Ok(Some((k.to_vec(), v.to_vec()))),
            Some(Err(e)) => Err(e),
            None => Ok(None),
        }
    }

    /// Relies on `sled::Tree::apply_batch`: applies every write in the
    /// batch.  On failure a key outside the batch is never touched.
    #[verifier::external_body]
    pub(crate) fn apply_batch(&mut self, batch: sled::Batch) -> (r: Result<(), sled::Error>)
        ensures
            match r {
                Ok(()) => tree_view(final(self).tree) == tree_view(
                    old(self).tree,
                ).union_prefer_right(batch_view(batch)),
                Err(_) => forall|k: Seq<u8>|
                    !(#[trigger] batch_view(batch).contains_key(k)) ==> (tree_view(
                        final(self).tree,
                    ).contains_key(k) == tree_view(old(self).tree).contains_key(k) && (tree_view(
                        old(self).tree,
                    ).contains_key(k) ==> tree_view(final(self).tree)[k] == tree_view(
                        old(self).tree,
                    )[k])),
            },
    {
        match self.tree.apply_batch(batch) {
            Ok(()) => Ok(()),
            Err(e) => Err(e),
        }
    }

    /// Reads and decodes the node value stored at `key`, if any.
    pub fn get(&self, key: &[u8]) -> (r: Result<Option<NodeValue>, StoreError>)
        ensures
            match r {
                Ok(o) => match o {
                    Some(v) => self@.contains_key(key@) && node_value_decode_v(self@[key@])
                        == Ok::<NodeValueV, EncodeError>(v@),
                    None => !self@.contains_key(key@),
                },
                Err(e) => match e {
                    StoreError::SledError(_) => true,
                    StoreError::EncodeError(e2) => self@.contains_key(key@)
                        && node_value_decode_v(self@[key@]) == Err::<NodeValueV, EncodeError>(e2),
                },
            },
    {
        match self.get_raw(key) {
            Ok(Some(bytes)) => match NodeValue::decode(bytes.as_slice()) {
                Ok(v) => Ok(Some(v)),
                Err(e) => Err(StoreError::EncodeError(e)),
            },
            Ok(None) => Ok(None),
            Err(e) => Err(StoreError::SledError(e)),
        }
    }

    /// Encodes and stores `value` at `key`.
    pub fn set(&mut self, key: &[u8], value: &NodeValue) -> (r: Result<(), StoreError>)
        ensures
            match r {
                Ok(()) => tree_view(final(self).tree) == tree_view(old(self).tree).insert(
                    key@,
                    node_value_encode_v(value@),
                ),
                Err(_) => tree_view(final(self).tree) == tree_view(old(self).tree) || tree_view(
                    final(self).tree,
                ) == tree_view(old(self).tree).insert(key@, node_value_encode_v(value@)),
            },
    {
        let encoded = value.encode();
        match self.set_raw(key, encoded.as_slice()) {
            Ok(()) => Ok(()),
            Err(e) => Err(StoreError::SledError(e)),
        }
    }

    /// Finds the record that opens the parent's range of `current`: the
    /// first stored entry at or after `current`'s super-prefix, decoded.
    /// An entry there that is no path key (such as the reserved metadata
    /// record) means no parent is committed.
    pub fn get_super_node(&self, current: &Key) -> (r: Result<
        Option<(Key, NodeValue)>,
        StoreError,
    >)
        requires
            current.wf(),
            current.ids@.len() >= 1,
        ensures
            ({
                let lower = crate::key::key_ids_bytes(
                    current@.ids.take(current@.ids.len() - 1),
                ) + seq![0u8];
                match r {
                    Ok(o) => match o {
                        Some(kv) => exists|kb: Seq<u8>|
                            {
                                &&& #[trigger] self@.contains_key(kb)
                                &&& lex_le(lower, kb)
                                &&& (forall|k2: Seq<u8>|
                                    #[trigger] self@.contains_key(k2) && lex_le(lower, k2)
                                        ==> lex_le(kb, k2))
                                &&& key_decode_v(kb) == Ok::<KeyV, EncodeError>(kv.0@)
                                &&& node_value_decode_v(self@[kb]) == Ok::<
                                    NodeValueV,
                                    EncodeError,
                                >(kv.1@)
                            } && kv.0.wf() && (forall|i: int|
                            0 <= i < kv.0.ids@.len() ==> (#[trigger] kv.0.ids@[i]).canonical()),
                        None => (forall|k2: Seq<u8>| #[trigger]
                            self@.contains_key(k2) ==> !lex_le(lower, k2)) || (exists|
                            kb: Seq<u8>,
                        |
                            {
                                &&& #[trigger] self@.contains_key(kb)
                                &&& lex_le(lower, kb)
                                &&& (forall|k2: Seq<u8>|
                                    #[trigger] self@.contains_key(k2) && lex_le(lower, k2)
                                        ==> lex_le(kb, k2))
                                &&& key_decode_v(kb) is Err
                            }),
                    },
                    Err(e) => match e {
                        StoreError::SledError(_) => true,
                        StoreError::EncodeError(e2) => exists|kb: Seq<u8>|
                            {
                                &&& #[trigger] self@.contains_key(kb)
                                &&& lex_le(lower, kb)
                                &&& (forall|k2: Seq<u8>|
                                    #[trigger] self@.contains_key(k2) && lex_le(lower, k2)
                                        ==> lex_le(kb, k2))
                                &&& key_decode_v(kb) is Ok
                                &&& node_value_decode_v(self@[kb]) == Err::<
                                    NodeValueV,
                                    EncodeError,
                                >(e2)
                            },
                    },
                }
            }),
    {
        let lower = current.super_id_prefix();
        match self.range_first(lower.as_slice()) {
            Ok(Some((kb, vb))) => {
                let k = match Key::decode(kb.as_slice()) {
                    Ok(k) => k,
                    Err(_) => {
                        proof {
                            assert(self@.contains_key(kb@));
                        }
                        return Ok(None);
                    },
                };
                let v = match NodeValue::decode(vb.as_slice()) {
                    Ok(v) => v,
                    Err(e) => {
                        proof {
                            assert(self@.contains_key(kb@));
                        }
                        return Err(StoreError::EncodeError(e));
                    },
                };
                proof {
                    assert(self@.contains_key(kb@));
                }
                Ok(Some((k, v)))
            },
            Ok(None) => Ok(None),
            Err(e) => Err(StoreError::SledError(e)),
        }
    }
}

/// Relies on `sled::Batch::default`: a fresh batch records no writes.
#[verifier::external_body]
pub(crate) fn batch_new() -> (r: sled::Batch)
    ensures
        batch_view(r) == empty_writes(),
{
    sled::Batch::default()
}

/// Relies on `sled::Batch::insert`: records a put of `value` at `key`; a
/// later put of the same key supersedes an earlier one.
#[verifier::external_body]
pub(crate) fn batch_insert(batch: &mut sled::Batch, key: &Vec<u8>, value: &Vec<u8>)
    ensures
        batch_view(*final(batch)) == batch_view(*old(batch)).insert(key@, value@),
{
    batch.insert(key.as_slice(), value.as_slice());
}

} // verus!
