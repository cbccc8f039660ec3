//! The path-addressable key layout.
//!
//! A key is a list of ancestor node identifiers plus a terminal locator.  On
//! disk it is laid out as each ancestor id offset by one (so that no id byte
//! is zero), a `0x00` separator, and the terminal locator block: a tag byte
//! (`0x01` field, `0x02` array position, `0x03` root) followed by its payload.

use vstd::prelude::*;
use vstd::slice::slice_subrange;

use crate::bytes::clone_bytes;
use crate::error::EncodeError;
use crate::varint::{
    lemma_vi_encode_no_zero, lemma_vi_encode_structural, lemma_vi_encode_value,
    lemma_vi_read_swf, lemma_vi_swf_to_u64, lemma_vi_term_at_exact, lemma_vi_term_props,
    read_variable_sized_id, vi_encode, vi_read_spec, vi_swf, vi_value, VariableSizedId,
};

verus! {

/// Abstract form of a terminal locator: an array position held as raw
/// varint bytes, a field name, or the root marker.
#[verifier::ext_equal]
pub enum KeyIndexV {
    Id(Seq<u8>),
    Field(Seq<u8>),
    Root,
}

/// The terminal locator of a key.
#[derive(Debug, Clone, PartialEq, Eq)]
pub enum KeyIndex {
    /// An array element's ordinal position.
    Id(VariableSizedId),
    /// An object member name (opaque bytes; the codec does not enforce UTF-8).
    Field(Vec<u8>),
    /// Marks a top-level document.
    Root,
}

impl View for KeyIndex {
    type V = KeyIndexV;

    open spec fn view(&self) -> KeyIndexV {
        match self {
            KeyIndex::Id(vid) => KeyIndexV::Id(vid.value@),
            KeyIndex::Field(f) => KeyIndexV::Field(f@),
            KeyIndex::Root => KeyIndexV::Root,
        }
    }
}

/// The serialized form of a terminal locator: a tag byte then the payload.
pub open spec fn key_index_encode_v(k: KeyIndexV) -> Seq<u8> {
    match k {
        KeyIndexV::Id(b) => seq![2u8] + b,
        KeyIndexV::Field(f) => seq![1u8] + f,
        KeyIndexV::Root => seq![3u8],
    }
}

/// What decoding a terminal locator block yields.  A field payload is taken
/// as raw bytes; an array position must be one complete varint filling the
/// rest of the block; the root marker must stand alone.
pub open spec fn key_index_decode_v(s: Seq<u8>) -> Result<KeyIndexV, EncodeError> {
    if s.len() == 0 {
        Err(EncodeError::InvalidLength)
    } else if s[0] == 1 {
        Ok(KeyIndexV::Field(s.skip(1)))
    } else if s[0] == 2 {
        match vi_read_spec(s.skip(1)) {
            Ok((bytes, n)) => if n == s.len() - 1 {
                Ok(KeyIndexV::Id(bytes))
            } else {
                Err(EncodeError::InvalidType)
            },
            Err(e) => Err(e),
        }
    } else if s[0] == 3 {
        if s.len() == 1 {
            Ok(KeyIndexV::Root)
        } else {
            Err(EncodeError::InvalidType)
        }
    } else {
        Err(EncodeError::InvalidType)
    }
}

impl KeyIndex {
    /// An array-position locator holds one structurally complete varint.
    pub open spec fn wf(self) -> bool {
        match self {
            KeyIndex::Id(vid) => vi_swf(vid.value@),
            KeyIndex::Field(_) => true,
            KeyIndex::Root => true,
        }
    }

    /// Returns whether this is the root marker.
    pub fn is_root(&self) -> (r: bool)
        ensures
            r == (self@ is Root),
    {
        match self {
            KeyIndex::Root => true,
            _ => false,
        }
    }

    /// Returns whether this is an array position.
    pub fn is_id(&self) -> (r: bool)
        ensures
            r == (self@ is Id),
    {
        match self {
            KeyIndex::Id(_) => true,
            _ => false,
        }
    }

    /// Returns whether this is a field name.
    pub fn is_field(&self) -> (r: bool)
        ensures
            r == (self@ is Field),
    {
        match self {
            KeyIndex::Field(_) => true,
            _ => false,
        }
    }

    /// Serializes the locator as its tag byte followed by the payload.
    pub fn encode(&self) -> (r: Vec<u8>)
        ensures
            r@ == key_index_encode_v(self@),
    {
        match self {
            KeyIndex::Id(vid) => {
                let mut bytes: Vec<u8> = Vec::new();
                bytes.push(2);
                let mut payload = clone_bytes(&vid.value);
                bytes.append(&mut payload);
                proof {
                    assert(bytes@ =~= key_index_encode_v(self@));
                }
                bytes
            },
            KeyIndex::Field(field) => {
                let mut bytes: Vec<u8> = Vec::new();
                bytes.push(1);
                let mut payload = clone_bytes(field);
                bytes.append(&mut payload);
                proof {
                    assert(bytes@ =~= key_index_encode_v(self@));
                }
                bytes
            },
            KeyIndex::Root => {
                let mut bytes: Vec<u8> = Vec::new();
                bytes.push(3);
                proof {
                    assert(bytes@ =~= key_index_encode_v(self@));
                }
                bytes
            },
        }
    }

    /// Parses a terminal locator block.
    pub fn decode(data: &[u8]) -> (r: Result<KeyIndex, EncodeError>)
        ensures
            match r {
                Ok(k) => key_index_decode_v(data@) == Ok::<_, EncodeError>(k@) && k.wf(),
                Err(e) => key_index_decode_v(data@) == Err::<KeyIndexV, _>(e),
            },
    {
        if data.len() == 0 {
            return Err(EncodeError::InvalidLength);
        }
        let tag = data[0];
        if tag == 1 {
            let rest = slice_subrange(data, 1, data.len());
            let mut field: Vec<u8> = Vec::new();
            let mut i: usize = 0;
            while i < rest.len()
                invariant
                    0 <= i <= rest@.len(),
                    field@ == rest@.take(i as int),
                decreases rest@.len() - i,
            {
                field.push(rest[i]);
                i = i + 1;
                proof {
                    assert(rest@.take(i as int) =~= rest@.take(i - 1).push(rest@[i - 1]));
                }
            }
            proof {
                assert(rest@.take(rest@.len() as int) =~= rest@);
                assert(rest@ =~= data@.skip(1));
            }
            Ok(KeyIndex::Field(field))
        } else if tag == 2 {
            let rest = slice_subrange(data, 1, data.len());
            proof {
                assert(rest@ =~= data@.skip(1));
            }
            match read_variable_sized_id(rest) {
                Ok((vid, n)) => {
                    if n == data.len() - 1 {
                        proof {
                            lemma_vi_term_props(rest@);
                        }
                        Ok(KeyIndex::Id(vid))
                    } else {
                        Err(EncodeError::InvalidType)
                    }
                },
                Err(e) => Err(e),
            }
        } else if tag == 3 {
            if data.len() == 1 {
                Ok(KeyIndex::Root)
            } else {
                Err(EncodeError::InvalidType)
            }
        } else {
            Err(EncodeError::InvalidType)
        }
    }
}

/// Abstract form of a key: the unbiased ancestor identifier values and the
/// terminal locator.
#[verifier::ext_equal]
pub struct KeyV {
    pub ids: Seq<nat>,
    pub idx: KeyIndexV,
}

/// The serialized ancestor-id block: each id offset by one, in order.
pub open spec fn key_ids_bytes(ids: Seq<nat>) -> Seq<u8>
    decreases ids.len(),
{
    if ids.len() == 0 {
        Seq::empty()
    } else {
        vi_encode(ids[0] + 1) + key_ids_bytes(ids.skip(1))
    }
}

/// The full serialized key: biased ancestor ids, the `0x00` separator, then
/// the terminal locator block.
pub open spec fn key_encode_v(k: KeyV) -> Seq<u8> {
    key_ids_bytes(k.ids) + seq![0u8] + key_index_encode_v(k.idx)
}

/// What decoding a key yields: varints are read and de-biased until the
/// first `0x00` byte, and the remainder is the terminal locator block.
/// A varint that denotes zero (impossible in a biased id) or does not fit in
/// 64 bits fails with `Overflow`; a buffer exhausted before the separator or
/// locator fails with `InvalidLength`.
pub open spec fn key_decode_v(s: Seq<u8>) -> Result<KeyV, EncodeError>
    decreases s.len(),
    via key_decode_v_dec
{
    if s.len() == 0 {
        Err(EncodeError::InvalidLength)
    } else if s[0] == 0 {
        match key_index_decode_v(s.skip(1)) {
            Ok(idx) => Ok(KeyV { ids: Seq::empty(), idx }),
            Err(e) => Err(e),
        }
    } else {
        match vi_read_spec(s) {
            Ok((bytes, n)) => if vi_value(bytes) == 0 || vi_value(bytes) >= 0x10000000000000000 {
                Err(EncodeError::Overflow)
            } else {
                match key_decode_v(s.skip(n)) {
                    Ok(kv) => Ok(KeyV { ids: seq![(vi_value(bytes) - 1) as nat] + kv.ids, idx: kv.idx }),
                    Err(e) => Err(e),
                }
            },
            Err(e) => Err(e),
        }
    }
}

#[via_fn]
proof fn key_decode_v_dec(s: Seq<u8>) {
    if s.len() > 0 && s[0] != 0 {
        lemma_vi_term_props(s);
    }
}

/// A key: the ordered ancestor identifiers and the terminal locator.
/// `ids` holds the chain `super node ids ++ [current id]`.
#[derive(Debug, Clone)]
pub struct Key {
    pub ids: Vec<VariableSizedId>,
    pub field_key: KeyIndex,
}

impl View for Key {
    type V = KeyV;

    open spec fn view(&self) -> KeyV {
        KeyV { ids: self.ids@.map_values(|v: VariableSizedId| v.val()), idx: self.field_key@ }
    }
}

impl Key {
    /// Every ancestor id is well formed and small enough to carry the
    /// one-offset, and the terminal locator is well formed.
    pub open spec fn wf(self) -> bool {
        &&& forall|i: int|
            0 <= i < self.ids@.len() ==> (#[trigger] self.ids@[i]).wf() && self.ids@[i].val()
                < 0xFFFFFFFFFFFFFFFF
        &&& self.field_key.wf()
    }

    /// Serializes the key: each ancestor id offset by one, the separator,
    /// then the terminal locator.
    pub fn encode(&self) -> (r: Vec<u8>)
        requires
            self.wf(),
        ensures
            r@ == key_encode_v(self@),
    {
        let mut buf: Vec<u8> = Vec::new();
        let mut i: usize = 0;
        while i < self.ids.len()
            invariant
                0 <= i <= self.ids@.len(),
                self.wf(),
                buf@ == key_ids_bytes(self@.ids.take(i as int)),
            decreases self.ids@.len() - i,
        {
            let mut id_bytes = self.ids[i].unchecked_plus(1).value;
            buf.append(&mut id_bytes);
            i = i + 1;
            proof {
                lemma_key_ids_bytes_snoc(self@.ids, i as int);
            }
        }
        proof {
            assert(self@.ids.take(self.ids@.len() as int) =~= self@.ids);
        }
        buf.push(0);
        let mut idx_bytes = self.field_key.encode();
        buf.append(&mut idx_bytes);
        proof {
            assert(buf@ =~= key_encode_v(self@));
        }
        buf
    }

    /// Parses a serialized key, de-biasing each ancestor id.
    pub fn decode(bytes: &[u8]) -> (r: Result<Self, EncodeError>)
        ensures
            match r {
                Ok(k) => key_decode_v(bytes@) == Ok::<_, EncodeError>(k@) && k.wf() && (forall|
                    i: int,
                |
                    0 <= i < k.ids@.len() ==> (#[trigger] k.ids@[i]).canonical()),
                Err(e) => key_decode_v(bytes@) == Err::<KeyV, _>(e),
            },
    {
        let mut ids: Vec<VariableSizedId> = Vec::new();
        let mut offset: usize = 0;
        proof {
            assert(bytes@.skip(0) =~= bytes@);
            assert(ids@.map_values(|v: VariableSizedId| v.val()) =~= Seq::<nat>::empty());
            match key_decode_v(bytes@) {
                Ok(kv) => {
                    assert(Seq::<nat>::empty() + kv.ids =~= kv.ids);
                    assert(KeyV { ids: Seq::<nat>::empty() + kv.ids, idx: kv.idx } =~= kv);
                },
                Err(_) => {},
            }
        }
        loop
            invariant
                0 <= offset <= bytes@.len(),
                forall|i: int| 0 <= i < ids@.len() ==> (#[trigger] ids@[i]).wf() && ids@[i].val()
                    < 0xFFFFFFFFFFFFFFFF && ids@[i].canonical(),
                key_decode_v(bytes@) == key_decode_cont(
                    bytes@.skip(offset as int),
                    ids@.map_values(|v: VariableSizedId| v.val()),
                ),
            decreases bytes@.len() - offset,
        {
            let ghost pre_ids = ids@.map_values(|v: VariableSizedId| v.val());
            let ghost s_rest = bytes@.skip(offset as int);
            if offset >= bytes.len() {
                proof {
                    assert(s_rest =~= Seq::<u8>::empty());
                }
                return Err(EncodeError::InvalidLength);
            }
            if bytes[offset] == 0 {
                let rest = slice_subrange(bytes, offset + 1, bytes.len());
                proof {
                    assert(rest@ =~= s_rest.skip(1));
                }
                match KeyIndex::decode(rest) {
                    Ok(field_key) => {
                        let k = Key { ids, field_key };
                        proof {
                            assert(k@.ids =~= pre_ids + Seq::<nat>::empty());
                            assert(key_decode_v(bytes@) == Ok::<_, EncodeError>(k@));
                        }
                        return Ok(k);
                    },
                    Err(e) => {
                        return Err(e);
                    },
                }
            }
            let tail = slice_subrange(bytes, offset, bytes.len());
            proof {
                assert(tail@ =~= s_rest);
            }
            match read_variable_sized_id(tail) {
                Ok((vid, consumed)) => {
                    proof {
                        lemma_vi_read_swf(s_rest, vid.value@, consumed as int);
                        lemma_vi_swf_to_u64(vid.value@);
                    }
                    let v = match vid.to_u64() {
                        Ok(v) => v,
                        Err(_) => {
                            proof {
                                assert(vi_value(vid.value@) >= 0x10000000000000000);
                                assert(key_decode_v(s_rest) == Err::<KeyV, _>(
                                    EncodeError::Overflow,
                                ));
                            }
                            return Err(EncodeError::Overflow);
                        },
                    };
                    if v == 0 {
                        proof {
                            assert(vi_value(vid.value@) == 0);
                            assert(key_decode_v(s_rest) == Err::<KeyV, _>(EncodeError::Overflow));
                        }
                        return Err(EncodeError::Overflow);
                    }
                    proof {
                        lemma_vi_encode_value((v - 1) as nat);
                        lemma_vi_encode_structural((v - 1) as nat);
                        lemma_key_decode_cont_step(s_rest, pre_ids, vid.value@, consumed as int);
                    }
                    ids.push(VariableSizedId::new(v - 1));
                    offset = offset + consumed;
                    proof {
                        assert(ids@.map_values(|x: VariableSizedId| x.val()) =~= pre_ids + seq![
                            (v - 1) as nat,
                        ]);
                        assert(bytes@.skip(offset as int) =~= s_rest.skip(consumed as int));
                    }
                },
                Err(e) => {
                    return Err(e);
                },
            }
        }
    }

    /// The byte prefix that opens the parent's descendant range: the first
    /// `n - 1` ancestor ids, biased, followed by the separator.
    pub fn super_id_prefix(&self) -> (r: Vec<u8>)
        requires
            self.wf(),
            self.ids@.len() >= 1,
        ensures
            r@ == key_ids_bytes(self@.ids.take(self@.ids.len() - 1)) + seq![0u8],
    {
        let mut buf: Vec<u8> = Vec::new();
        let n = self.ids.len() - 1;
        let mut i: usize = 0;
        while i < n
            invariant
                0 <= i <= n,
                n == self.ids@.len() - 1,
                self.wf(),
                buf@ == key_ids_bytes(self@.ids.take(i as int)),
            decreases n - i,
        {
            let mut id_bytes = self.ids[i].unchecked_plus(1).value;
            buf.append(&mut id_bytes);
            i = i + 1;
            proof {
                lemma_key_ids_bytes_snoc(self@.ids, i as int);
            }
        }
        buf.push(0);
        proof {
            assert(self@.ids.take(n as int) =~= self@.ids.take(self@.ids.len() - 1));
            assert(buf@ =~= key_ids_bytes(self@.ids.take(self@.ids.len() - 1)) + seq![0u8]);
        }
        buf
    }

    /// Extends the ancestor chain with `id` and replaces the terminal
    /// locator by `index`.
    pub fn sub_key(&self, id: VariableSizedId, index: KeyIndex) -> (r: Self)
        ensures
            r.ids@.len() == self.ids@.len() + 1,
            forall|i: int|
                0 <= i < self.ids@.len() ==> (#[trigger] r.ids@[i]).value@
                    == self.ids@[i].value@,
            r.ids@[self.ids@.len() as int] == id,
            r.field_key == index,
            r@.ids == self@.ids.push(id.val()),
            r@.idx == index@,
    {
        let mut ids: Vec<VariableSizedId> = Vec::new();
        let mut i: usize = 0;
        while i < self.ids.len()
            invariant
                0 <= i <= self.ids@.len(),
                ids@.len() == i,
                forall|j: int|
                    0 <= j < i ==> (#[trigger] ids@[j]).value@ == self.ids@[j].value@,
            decreases self.ids@.len() - i,
        {
            let vid = VariableSizedId { value: clone_bytes(&self.ids[i].value) };
            ids.push(vid);
            i = i + 1;
        }
        ids.push(id);
        let r = Key { ids, field_key: index };
        proof {
            assert(r@.ids =~= self@.ids.push(id.val()));
        }
        r
    }
}

/// Decoding the remainder `s_rest` with identifiers `pre` already read.
pub open spec fn key_decode_cont(s_rest: Seq<u8>, pre: Seq<nat>) -> Result<KeyV, EncodeError> {
    match key_decode_v(s_rest) {
        Ok(kv) => Ok(KeyV { ids: pre + kv.ids, idx: kv.idx }),
        Err(e) => Err(e),
    }
}

/// One more id in the serialized block appends one more biased varint.
proof fn lemma_key_ids_bytes_snoc(ids: Seq<nat>, i: int)
    requires
        0 < i <= ids.len(),
    ensures
        key_ids_bytes(ids.take(i)) == key_ids_bytes(ids.take(i - 1)) + vi_encode(ids[i - 1] + 1),
    decreases i,
{
    if i == 1 {
        assert(ids.take(0) =~= Seq::<nat>::empty());
        assert(key_ids_bytes(ids.take(0)) == Seq::<u8>::empty());
        let t = ids.take(1);
        assert(t[0] == ids[0]);
        assert(t.skip(1) =~= Seq::<nat>::empty());
        assert(key_ids_bytes(t) =~= vi_encode(ids[0] + 1));
        assert(Seq::<u8>::empty() + vi_encode(ids[0] + 1) =~= vi_encode(ids[0] + 1));
    } else {
        let u = ids.skip(1);
        lemma_key_ids_bytes_snoc(u, i - 1);
        assert(ids.take(i).skip(1) =~= u.take(i - 1));
        assert(ids.take(i - 1).skip(1) =~= u.take(i - 2));
        assert(ids.take(i)[0] == ids[0]);
        assert(ids.take(i - 1)[0] == ids[0]);
        assert(key_ids_bytes(ids.take(i)) == vi_encode(ids[0] + 1) + key_ids_bytes(u.take(i - 1)));
        assert(key_ids_bytes(ids.take(i - 1)) == vi_encode(ids[0] + 1) + key_ids_bytes(
            u.take(i - 2),
        ));
        assert(u[i - 2] == ids[i - 1]);
        assert(vi_encode(ids[0] + 1) + (key_ids_bytes(u.take(i - 2)) + vi_encode(ids[i - 1] + 1))
            =~= (vi_encode(ids[0] + 1) + key_ids_bytes(u.take(i - 2))) + vi_encode(
            ids[i - 1] + 1,
        ));
    }
}

/// A well-formed abstract key: every ancestor id leaves room for the
/// one-offset, and an array-position locator holds one complete varint.
pub open spec fn key_v_wf(kv: KeyV) -> bool {
    &&& forall|i: int| 0 <= i < kv.ids.len() ==> (#[trigger] kv.ids[i]) < 0xFFFFFFFFFFFFFFFF
    &&& key_index_v_wf(kv.idx)
}

/// A well-formed abstract terminal locator.
pub open spec fn key_index_v_wf(idx: KeyIndexV) -> bool {
    match idx {
        KeyIndexV::Id(b) => vi_swf(b),
        KeyIndexV::Field(_) => true,
        KeyIndexV::Root => true,
    }
}

/// A terminal locator round-trips through its serialized block.
pub proof fn lemma_key_index_round_trip(idx: KeyIndexV)
    requires
        key_index_v_wf(idx),
    ensures
        key_index_decode_v(key_index_encode_v(idx)) == Ok::<_, EncodeError>(idx),
{
    let s = key_index_encode_v(idx);
    match idx {
        KeyIndexV::Id(b) => {
            assert(s == seq![2u8] + b);
            assert(s.skip(1) =~= b);
            lemma_vi_term_at_exact(b, b.len() - 1);
            assert(b.take(b.len() as int) =~= b);
        },
        KeyIndexV::Field(f) => {
            assert(s.skip(1) =~= f);
        },
        KeyIndexV::Root => {
        },
    }
}

/// Round trip: decoding the serialized form of any well-formed key yields
/// the key again.
pub proof fn lemma_key_round_trip(kv: KeyV)
    requires
        key_v_wf(kv),
    ensures
        key_decode_v(key_encode_v(kv)) == Ok::<_, EncodeError>(kv),
    decreases kv.ids.len(),
{
    let s = key_encode_v(kv);
    if kv.ids.len() == 0 {
        assert(key_ids_bytes(kv.ids) == Seq::<u8>::empty());
        assert(s =~= seq![0u8] + key_index_encode_v(kv.idx));
        assert(s[0] == 0);
        assert(s.skip(1) =~= key_index_encode_v(kv.idx));
        lemma_key_index_round_trip(kv.idx);
        assert(KeyV { ids: Seq::<nat>::empty(), idx: kv.idx } =~= kv);
    } else {
        let rest = KeyV { ids: kv.ids.skip(1), idx: kv.idx };
        lemma_key_round_trip(rest);
        let enc0 = vi_encode(kv.ids[0] + 1);
        lemma_vi_encode_structural(kv.ids[0] + 1);
        lemma_vi_encode_value(kv.ids[0] + 1);
        lemma_vi_encode_no_zero(kv.ids[0] + 1);
        assert(key_ids_bytes(kv.ids) == enc0 + key_ids_bytes(kv.ids.skip(1)));
        assert(s =~= enc0 + key_encode_v(rest));
        assert(forall|j: int| 0 <= j < enc0.len() ==> s[j] == enc0[j]);
        assert(s[0] != 0);
        lemma_vi_term_at_exact(s, enc0.len() - 1);
        assert(vi_read_spec(s) == Ok::<_, EncodeError>((s.take(enc0.len() as int), enc0.len() as int)));
        assert(s.take(enc0.len() as int) =~= enc0);
        assert(1 <= vi_value(enc0) < 0x10000000000000000);
        assert(s.skip(enc0.len() as int) =~= key_encode_v(rest));
        assert(seq![(vi_value(enc0) - 1) as nat] + rest.ids =~= kv.ids);
        assert(KeyV { ids: seq![(vi_value(enc0) - 1) as nat] + rest.ids, idx: rest.idx } =~= kv);
    }
}

/// The serialized id block of a concatenation is the concatenation of the
/// serialized id blocks.
proof fn lemma_key_ids_bytes_concat(a: Seq<nat>, b: Seq<nat>)
    ensures
        key_ids_bytes(a + b) == key_ids_bytes(a) + key_ids_bytes(b),
    decreases a.len(),
{
    if a.len() == 0 {
        assert(a + b =~= b);
        assert(key_ids_bytes(a) == Seq::<u8>::empty());
        assert(Seq::<u8>::empty() + key_ids_bytes(b) =~= key_ids_bytes(b));
    } else {
        lemma_key_ids_bytes_concat(a.skip(1), b);
        assert((a + b).skip(1) =~= a.skip(1) + b);
        assert((a + b)[0] == a[0]);
        assert((a + b).len() > 0);
        assert(key_ids_bytes(a + b) == vi_encode(a[0] + 1) + key_ids_bytes(a.skip(1) + b));
        assert(vi_encode(a[0] + 1) + (key_ids_bytes(a.skip(1)) + key_ids_bytes(b)) =~= (vi_encode(
            a[0] + 1,
        ) + key_ids_bytes(a.skip(1))) + key_ids_bytes(b));
    }
}

/// No byte of the serialized id block is zero: every stored id is offset by
/// one, so the `0x00` separator is unambiguous.
pub proof fn lemma_key_ids_bytes_no_zero(ids: Seq<nat>)
    ensures
        forall|j: int| 0 <= j < key_ids_bytes(ids).len() ==> key_ids_bytes(ids)[j] != 0,
    decreases ids.len(),
{
    if ids.len() > 0 {
        lemma_vi_encode_no_zero(ids[0] + 1);
        lemma_key_ids_bytes_no_zero(ids.skip(1));
        let enc0 = vi_encode(ids[0] + 1);
        let rest = key_ids_bytes(ids.skip(1));
        assert(key_ids_bytes(ids) == enc0 + rest);
        assert forall|j: int| 0 <= j < key_ids_bytes(ids).len() implies key_ids_bytes(ids)[j]
            != 0 by {
            if j < enc0.len() {
                assert(key_ids_bytes(ids)[j] == enc0[j]);
            } else {
                assert(key_ids_bytes(ids)[j] == rest[j - enc0.len()]);
            }
        }
    }
}

/// The separator is the first zero byte of a serialized key.
pub proof fn lemma_key_separator_first_zero(kv: KeyV)
    ensures
        forall|j: int|
            0 <= j < key_ids_bytes(kv.ids).len() ==> key_encode_v(kv)[j] != 0,
        key_encode_v(kv)[key_ids_bytes(kv.ids).len() as int] == 0,
{
    lemma_key_ids_bytes_no_zero(kv.ids);
    let p = key_ids_bytes(kv.ids);
    assert(forall|j: int| 0 <= j < p.len() ==> key_encode_v(kv)[j] == p[j]);
    assert(key_encode_v(kv)[p.len() as int] == (seq![0u8] + key_index_encode_v(kv.idx))[0]);
}

/// Prefix ordering, one step: the super-prefix of a child key is a byte
/// prefix of its parent's serialized key, so a forward range scan starting
/// at the super-prefix reaches the parent's record.
pub proof fn lemma_super_prefix_opens_parent(parent: KeyV, child: KeyV)
    requires
        child.ids.len() == parent.ids.len() + 1,
        child.ids.take(parent.ids.len() as int) == parent.ids,
    ensures
        (key_ids_bytes(child.ids.take(child.ids.len() - 1)) + seq![0u8]).is_prefix_of(
            key_encode_v(parent),
        ),
{
    assert(child.ids.take(child.ids.len() - 1) =~= parent.ids);
    let p = key_ids_bytes(parent.ids) + seq![0u8];
    assert(key_encode_v(parent) =~= p + key_index_encode_v(parent.idx));
    assert(p.is_prefix_of(key_encode_v(parent)));
}

/// Prefix ordering, descendants: the serialized id block of an ancestor is
/// a byte prefix of every descendant's serialized key.
pub proof fn lemma_descendant_shares_prefix(ancestor: KeyV, descendant: KeyV)
    requires
        descendant.ids.len() >= ancestor.ids.len(),
        descendant.ids.take(ancestor.ids.len() as int) == ancestor.ids,
    ensures
        key_ids_bytes(ancestor.ids).is_prefix_of(key_encode_v(descendant)),
{
    let n = ancestor.ids.len() as int;
    let rest = descendant.ids.skip(n);
    assert(descendant.ids =~= ancestor.ids + rest);
    lemma_key_ids_bytes_concat(ancestor.ids, rest);
    let a = key_ids_bytes(ancestor.ids);
    assert(key_encode_v(descendant) =~= a + (key_ids_bytes(rest) + seq![0u8]
        + key_index_encode_v(descendant.idx)));
    assert(a.is_prefix_of(key_encode_v(descendant)));
}

/// Equal sequences stay equal when a common prefix is stripped.
proof fn lemma_seq_concat_cancel(a: Seq<u8>, s: Seq<u8>, t: Seq<u8>)
    requires
        a + s == a + t,
    ensures
        s == t,
{
    assert((a + s).len() == a.len() + s.len());
    assert((a + t).len() == a.len() + t.len());
    assert(s.len() == t.len());
    assert forall|i: int| 0 <= i < s.len() implies s[i] == t[i] by {
        assert((a + s)[a.len() + i] == s[i]);
        assert((a + t)[a.len() + i] == t[i]);
    }
    assert(s =~= t);
}

/// A key and a strict descendant of it never share a serialized form: the
/// shorter key's separator stands where the descendant has a nonzero id
/// byte.
pub proof fn lemma_key_encode_len_differs(k1: KeyV, k2: KeyV)
    requires
        k2.ids.len() > k1.ids.len(),
        k2.ids.take(k1.ids.len() as int) == k1.ids,
    ensures
        key_encode_v(k1) != key_encode_v(k2),
{
    let n = k1.ids.len() as int;
    let p = key_ids_bytes(k1.ids);
    let rest = k2.ids.skip(n);
    assert(k2.ids =~= k1.ids + rest);
    lemma_key_ids_bytes_concat(k1.ids, rest);
    assert(rest.len() > 0);
    assert(key_ids_bytes(rest) == vi_encode(rest[0] + 1) + key_ids_bytes(rest.skip(1)));
    lemma_vi_encode_no_zero(rest[0] + 1);
    lemma_vi_encode_structural(rest[0] + 1);
    if key_encode_v(k1) == key_encode_v(k2) {
        assert(key_encode_v(k1) =~= p + (seq![0u8] + key_index_encode_v(k1.idx)));
        assert(key_encode_v(k2) =~= p + (key_ids_bytes(rest) + seq![0u8] + key_index_encode_v(
            k2.idx,
        )));
        lemma_seq_concat_cancel(
            p,
            seq![0u8] + key_index_encode_v(k1.idx),
            key_ids_bytes(rest) + seq![0u8] + key_index_encode_v(k2.idx),
        );
        assert((seq![0u8] + key_index_encode_v(k1.idx))[0] == 0);
        assert((key_ids_bytes(rest) + seq![0u8] + key_index_encode_v(k2.idx))[0] == vi_encode(
            rest[0] + 1,
        )[0]);
    }
}

/// Keys whose ancestor chains agree up to position `n` and differ there
/// never share a serialized form: the biased varints at that position are
/// prefix-free.
pub proof fn lemma_key_encode_branch_differs(k1: KeyV, k2: KeyV, n: int)
    requires
        0 <= n < k1.ids.len(),
        n < k2.ids.len(),
        k1.ids.take(n) == k2.ids.take(n),
        k1.ids[n] != k2.ids[n],
    ensures
        key_encode_v(k1) != key_encode_v(k2),
{
    let p = key_ids_bytes(k1.ids.take(n));
    let rest1 = k1.ids.skip(n);
    let rest2 = k2.ids.skip(n);
    assert(k1.ids =~= k1.ids.take(n) + rest1);
    assert(k2.ids =~= k2.ids.take(n) + rest2);
    lemma_key_ids_bytes_concat(k1.ids.take(n), rest1);
    lemma_key_ids_bytes_concat(k2.ids.take(n), rest2);
    assert(rest1[0] == k1.ids[n]);
    assert(rest2[0] == k2.ids[n]);
    assert(key_ids_bytes(rest1) == vi_encode(rest1[0] + 1) + key_ids_bytes(rest1.skip(1)));
    assert(key_ids_bytes(rest2) == vi_encode(rest2[0] + 1) + key_ids_bytes(rest2.skip(1)));
    if key_encode_v(k1) == key_encode_v(k2) {
        let tail1 = key_ids_bytes(rest1.skip(1)) + seq![0u8] + key_index_encode_v(k1.idx);
        let tail2 = key_ids_bytes(rest2.skip(1)) + seq![0u8] + key_index_encode_v(k2.idx);
        assert(key_encode_v(k1) =~= p + (vi_encode(rest1[0] + 1) + tail1));
        assert(key_encode_v(k2) =~= p + (vi_encode(rest2[0] + 1) + tail2));
        lemma_seq_concat_cancel(
            p,
            vi_encode(rest1[0] + 1) + tail1,
            vi_encode(rest2[0] + 1) + tail2,
        );
        crate::varint::lemma_vi_encode_prefix_free(
            rest1[0] + 1,
            rest2[0] + 1,
            tail1,
            tail2,
        );
    }
}

/// Reading one biased varint off the remainder moves one de-biased id into
/// the prefix.
proof fn lemma_key_decode_cont_step(s_rest: Seq<u8>, pre: Seq<nat>, bytes: Seq<u8>, n: int)
    requires
        s_rest.len() > 0,
        s_rest[0] != 0,
        vi_read_spec(s_rest) == Ok::<_, EncodeError>((bytes, n)),
        1 <= vi_value(bytes) < 0x10000000000000000,
    ensures
        key_decode_cont(s_rest, pre) == key_decode_cont(
            s_rest.skip(n),
            pre + seq![(vi_value(bytes) - 1) as nat],
        ),
{
    let v = vi_value(bytes);
    match key_decode_v(s_rest.skip(n)) {
        Ok(kv) => {
            assert(key_decode_v(s_rest) == Ok::<_, EncodeError>(
                KeyV { ids: seq![(v - 1) as nat] + kv.ids, idx: kv.idx },
            ));
            assert(pre + (seq![(v - 1) as nat] + kv.ids) =~= (pre + seq![(v - 1) as nat])
                + kv.ids);
            assert(key_decode_cont(s_rest, pre) =~= key_decode_cont(
                s_rest.skip(n),
                pre + seq![(v - 1) as nat],
            ));
        },
        Err(e) => {
            assert(key_decode_v(s_rest) == Err::<KeyV, _>(e));
        },
    }
}

} // verus!
