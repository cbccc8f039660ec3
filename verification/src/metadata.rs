//! The metadata journal: one record holding the schema version, the last
//! issued node identifier, the last commit timestamp, and the set of known
//! root keys.
//!
//! The record is a fixed 24-byte big-endian header followed by root-key
//! entries, each a one-byte length then that many key bytes, until the end
//! of the buffer.  A root key is therefore at most 255 bytes long.

use vstd::prelude::*;
use vstd::slice::slice_subrange;

use crate::bytes::{
    clone_bytes, lemma_u64_be_bytes_of_from, lemma_u64_be_round_trip, push_u64_be, read_u64_be,
    u64_be_bytes, u64_from_be,
};
use crate::error::EncodeError;

verus! {

/// Abstract form of the metadata record.
#[verifier::ext_equal]
pub struct MetadataV {
    pub version: u64,
    pub last_id: u64,
    pub last_timestamp: u64,
    pub roots: Seq<Seq<u8>>,
}

/// The serialized root-key entries: a one-byte length then the key bytes,
/// in order.
pub open spec fn roots_bytes(roots: Seq<Seq<u8>>) -> Seq<u8>
    decreases roots.len(),
{
    if roots.len() == 0 {
        Seq::empty()
    } else {
        seq![roots[0].len() as u8] + roots[0] + roots_bytes(roots.skip(1))
    }
}

/// The serialized metadata record: the 24-byte header then the root entries.
pub open spec fn metadata_encode_v(m: MetadataV) -> Seq<u8> {
    u64_be_bytes(m.version) + u64_be_bytes(m.last_id) + u64_be_bytes(m.last_timestamp)
        + roots_bytes(m.roots)
}

/// What decoding the root entries yields: each entry must fit inside the
/// remaining buffer.
pub open spec fn roots_decode_v(s: Seq<u8>) -> Result<Seq<Seq<u8>>, EncodeError>
    decreases s.len(),
{
    if s.len() == 0 {
        Ok(Seq::empty())
    } else if s[0] as int + 1 > s.len() {
        Err(EncodeError::Overflow)
    } else {
        match roots_decode_v(s.skip(s[0] as int + 1)) {
            Ok(rest) => Ok(seq![s.subrange(1, s[0] as int + 1)] + rest),
            Err(e) => Err(e),
        }
    }
}

/// What decoding the metadata record yields: a buffer shorter than the
/// header is rejected, then the root entries are walked until exhausted.
pub open spec fn metadata_decode_v(s: Seq<u8>) -> Result<MetadataV, EncodeError> {
    if s.len() < 24 {
        Err(EncodeError::InvalidLength)
    } else {
        match roots_decode_v(s.skip(24)) {
            Ok(roots) => Ok(
                MetadataV {
                    version: u64_from_be(s[0], s[1], s[2], s[3], s[4], s[5], s[6], s[7]),
                    last_id: u64_from_be(s[8], s[9], s[10], s[11], s[12], s[13], s[14], s[15]),
                    last_timestamp: u64_from_be(
                        s[16],
                        s[17],
                        s[18],
                        s[19],
                        s[20],
                        s[21],
                        s[22],
                        s[23],
                    ),
                    roots,
                },
            ),
            Err(e) => Err(e),
        }
    }
}

/// The metadata record: version, last issued node identifier, last commit
/// timestamp, and the encoded keys of the known roots.
#[derive(Debug, Clone)]
pub struct Metadata {
    pub version: u64,
    pub last_id: u64,
    pub last_timestamp: u64,
    pub roots: Vec<Vec<u8>>,
}

impl View for Metadata {
    type V = MetadataV;

    open spec fn view(&self) -> MetadataV {
        MetadataV {
            version: self.version,
            last_id: self.last_id,
            last_timestamp: self.last_timestamp,
            roots: self.roots@.map_values(|r: Vec<u8>| r@),
        }
    }
}

impl Metadata {
    /// Every root key fits behind its one-byte length prefix.
    pub open spec fn wf(self) -> bool {
        forall|i: int| 0 <= i < self@.roots.len() ==> (#[trigger] self@.roots[i]).len() <= 255
    }

    /// A fresh record: version zero, no ids issued, no roots known.
    pub fn new() -> (r: Self)
        ensures
            r@ == (MetadataV { version: 0, last_id: 0, last_timestamp: 0, roots: Seq::empty() }),
            r.wf(),
    {
        let r = Metadata { version: 0, last_id: 0, last_timestamp: 0, roots: Vec::new() };
        proof {
            assert(r@ =~= MetadataV {
                version: 0,
                last_id: 0,
                last_timestamp: 0,
                roots: Seq::empty(),
            });
        }
        r
    }

    /// Copies the record.
    pub fn duplicate(&self) -> (r: Self)
        ensures
            r@ == self@,
            r.wf() == self.wf(),
    {
        let mut roots: Vec<Vec<u8>> = Vec::new();
        let mut i: usize = 0;
        while i < self.roots.len()
            invariant
                0 <= i <= self.roots@.len(),
                roots@.len() == i,
                forall|j: int| 0 <= j < i ==> (#[trigger] roots@[j])@ == self.roots@[j]@,
            decreases self.roots@.len() - i,
        {
            roots.push(clone_bytes(&self.roots[i]));
            i = i + 1;
        }
        let r = Metadata {
            version: self.version,
            last_id: self.last_id,
            last_timestamp: self.last_timestamp,
            roots,
        };
        proof {
            assert(r@.roots =~= self@.roots);
            assert(r@ =~= self@);
        }
        r
    }

    /// Serializes the record: the 24-byte header then one length-prefixed
    /// entry per root key.
    pub fn encode(&self) -> (r: Vec<u8>)
        requires
            self.wf(),
        ensures
            r@ == metadata_encode_v(self@),
    {
        let mut buf: Vec<u8> = Vec::new();
        push_u64_be(&mut buf, self.version);
        push_u64_be(&mut buf, self.last_id);
        push_u64_be(&mut buf, self.last_timestamp);
        let ghost header = buf@;
        let mut i: usize = 0;
        while i < self.roots.len()
            invariant
                0 <= i <= self.roots@.len(),
                self.wf(),
                header == u64_be_bytes(self@.version) + u64_be_bytes(self@.last_id)
                    + u64_be_bytes(self@.last_timestamp),
                buf@ == header + roots_bytes(self@.roots.take(i as int)),
            decreases self.roots@.len() - i,
        {
            let root = &self.roots[i];
            buf.push(root.len() as u8);
            let mut payload = clone_bytes(root);
            buf.append(&mut payload);
            i = i + 1;
            proof {
                lemma_roots_bytes_snoc(self@.roots, i as int);
                assert(buf@ =~= header + roots_bytes(self@.roots.take(i as int)));
            }
        }
        proof {
            assert(self@.roots.take(self.roots@.len() as int) =~= self@.roots);
        }
        buf
    }

    /// Parses a serialized metadata record.
    pub fn decode(buf: &[u8]) -> (r: Result<Self, EncodeError>)
        ensures
            match r {
                Ok(m) => metadata_decode_v(buf@) == Ok::<_, EncodeError>(m@) && m.wf(),
                Err(e) => metadata_decode_v(buf@) == Err::<MetadataV, _>(e),
            },
    {
        if buf.len() < 24 {
            return Err(EncodeError::InvalidLength);
        }
        let version = read_u64_be(buf, 0);
        let last_id = read_u64_be(buf, 8);
        let last_timestamp = read_u64_be(buf, 16);
        let mut roots: Vec<Vec<u8>> = Vec::new();
        let mut offset: usize = 24;
        proof {
            assert(buf@.skip(24).skip(0) =~= buf@.skip(24));
            assert(roots@.map_values(|r: Vec<u8>| r@) =~= Seq::<Seq<u8>>::empty());
            match roots_decode_v(buf@.skip(24)) {
                Ok(rs) => {
                    assert(Seq::<Seq<u8>>::empty() + rs =~= rs);
                },
                Err(_) => {},
            }
        }
        while offset < buf.len()
            invariant
                24 <= offset <= buf@.len(),
                forall|j: int| 0 <= j < roots@.len() ==> (#[trigger] roots@[j])@.len() <= 255,
                roots_decode_v(buf@.skip(24)) == roots_decode_cont(
                    buf@.skip(offset as int),
                    roots@.map_values(|r: Vec<u8>| r@),
                ),
            decreases buf@.len() - offset,
        {
            let ghost pre = roots@.map_values(|r: Vec<u8>| r@);
            let ghost s_rest = buf@.skip(offset as int);
            let len = buf[offset] as usize;
            if len + 1 > buf.len() - offset {
                proof {
                    assert(s_rest[0] == buf@[offset as int]);
                    assert(s_rest[0] as int + 1 > s_rest.len());
                }
                return Err(EncodeError::Overflow);
            }
            let entry_slice = slice_subrange(buf, offset + 1, offset + 1 + len);
            let mut entry: Vec<u8> = Vec::new();
            let mut i: usize = 0;
            while i < entry_slice.len()
                invariant
                    0 <= i <= entry_slice@.len(),
                    entry@ == entry_slice@.take(i as int),
                decreases entry_slice@.len() - i,
            {
                entry.push(entry_slice[i]);
                i = i + 1;
                proof {
                    assert(entry_slice@.take(i as int) =~= entry_slice@.take(i - 1).push(
                        entry_slice@[i - 1],
                    ));
                }
            }
            proof {
                assert(entry_slice@.take(entry_slice@.len() as int) =~= entry_slice@);
                assert(entry@ =~= s_rest.subrange(1, s_rest[0] as int + 1));
                lemma_roots_decode_cont_step(s_rest, pre);
            }
            roots.push(entry);
            offset = offset + 1 + len;
            proof {
                assert(roots@.map_values(|r: Vec<u8>| r@) =~= pre + seq![
                    s_rest.subrange(1, s_rest[0] as int + 1),
                ]);
                assert(buf@.skip(offset as int) =~= s_rest.skip(s_rest[0] as int + 1));
            }
        }
        proof {
            assert(buf@.skip(offset as int) =~= Seq::<u8>::empty());
            assert(roots_decode_v(Seq::<u8>::empty()) == Ok::<_, EncodeError>(
                Seq::<Seq<u8>>::empty(),
            ));
            let pre = roots@.map_values(|r: Vec<u8>| r@);
            assert(pre + Seq::<Seq<u8>>::empty() =~= pre);
        }
        let m = Metadata { version, last_id, last_timestamp, roots };
        proof {
            match metadata_decode_v(buf@) {
                Ok(mv) => {
                    assert(m@ =~= mv);
                },
                Err(_) => {
                    assert(false);
                },
            }
        }
        Ok(m)
    }
}

/// Decoding the remaining entries `s_rest` with roots `pre` already read.
pub open spec fn roots_decode_cont(s_rest: Seq<u8>, pre: Seq<Seq<u8>>) -> Result<
    Seq<Seq<u8>>,
    EncodeError,
> {
    match roots_decode_v(s_rest) {
        Ok(rs) => Ok(pre + rs),
        Err(e) => Err(e),
    }
}

/// One more root in the serialized entries appends one more length-prefixed
/// block.
proof fn lemma_roots_bytes_snoc(roots: Seq<Seq<u8>>, i: int)
    requires
        0 < i <= roots.len(),
    ensures
        roots_bytes(roots.take(i)) == roots_bytes(roots.take(i - 1)) + (seq![
            roots[i - 1].len() as u8,
        ] + roots[i - 1]),
    decreases i,
{
    if i == 1 {
        assert(roots.take(0) =~= Seq::<Seq<u8>>::empty());
        let t = roots.take(1);
        assert(t[0] == roots[0]);
        assert(t.skip(1) =~= Seq::<Seq<u8>>::empty());
        assert(roots_bytes(Seq::<Seq<u8>>::empty()) == Seq::<u8>::empty());
        assert(roots_bytes(t) =~= seq![roots[0].len() as u8] + roots[0]);
        assert(roots_bytes(roots.take(0)) + (seq![roots[0].len() as u8] + roots[0]) =~= seq![
            roots[0].len() as u8,
        ] + roots[0]);
    } else {
        let u = roots.skip(1);
        lemma_roots_bytes_snoc(u, i - 1);
        assert(roots.take(i).skip(1) =~= u.take(i - 1));
        assert(roots.take(i - 1).skip(1) =~= u.take(i - 2));
        assert(roots.take(i)[0] == roots[0]);
        assert(roots.take(i - 1)[0] == roots[0]);
        assert(u[i - 2] == roots[i - 1]);
        let h = seq![roots[0].len() as u8] + roots[0];
        assert(roots_bytes(roots.take(i)) == h + roots_bytes(u.take(i - 1)));
        assert(roots_bytes(roots.take(i - 1)) == h + roots_bytes(u.take(i - 2)));
        let tail_entry = seq![roots[i - 1].len() as u8] + roots[i - 1];
        assert(h + (roots_bytes(u.take(i - 2)) + tail_entry) =~= (h + roots_bytes(u.take(i - 2)))
            + tail_entry);
    }
}

/// Reading one length-prefixed entry off the remainder moves one root into
/// the prefix.
proof fn lemma_roots_decode_cont_step(s_rest: Seq<u8>, pre: Seq<Seq<u8>>)
    requires
        s_rest.len() > 0,
        s_rest[0] as int + 1 <= s_rest.len(),
    ensures
        roots_decode_cont(s_rest, pre) == roots_decode_cont(
            s_rest.skip(s_rest[0] as int + 1),
            pre + seq![s_rest.subrange(1, s_rest[0] as int + 1)],
        ),
{
    let entry = s_rest.subrange(1, s_rest[0] as int + 1);
    match roots_decode_v(s_rest.skip(s_rest[0] as int + 1)) {
        Ok(rs) => {
            assert(roots_decode_v(s_rest) == Ok::<_, EncodeError>(seq![entry] + rs));
            assert(pre + (seq![entry] + rs) =~= (pre + seq![entry]) + rs);
        },
        Err(e) => {
            assert(roots_decode_v(s_rest) == Err::<Seq<Seq<u8>>, _>(e));
        },
    }
}

/// Round trip: decoding the serialized root entries yields the roots again.
proof fn lemma_roots_round_trip(roots: Seq<Seq<u8>>)
    requires
        forall|i: int| 0 <= i < roots.len() ==> (#[trigger] roots[i]).len() <= 255,
    ensures
        roots_decode_v(roots_bytes(roots)) == Ok::<_, EncodeError>(roots),
    decreases roots.len(),
{
    if roots.len() == 0 {
        assert(roots_bytes(roots) == Seq::<u8>::empty());
        assert(roots_decode_v(Seq::<u8>::empty()) == Ok::<_, EncodeError>(
            Seq::<Seq<u8>>::empty(),
        ));
        assert(roots =~= Seq::<Seq<u8>>::empty());
    } else {
        lemma_roots_round_trip(roots.skip(1));
        let s = roots_bytes(roots);
        let head = roots[0];
        assert(s == seq![head.len() as u8] + head + roots_bytes(roots.skip(1)));
        assert(s[0] == head.len() as u8);
        assert(s.len() >= 1 + head.len());
        assert(s[0] as int + 1 <= s.len());
        assert(s.subrange(1, s[0] as int + 1) =~= head);
        assert(s.skip(s[0] as int + 1) =~= roots_bytes(roots.skip(1)));
        assert(roots_decode_v(s) == Ok::<_, EncodeError>(
            seq![s.subrange(1, s[0] as int + 1)] + roots.skip(1),
        ));
        assert(seq![s.subrange(1, s[0] as int + 1)] + roots.skip(1) =~= roots);
    }
}

/// Round trip: decoding the serialized form of any metadata record whose
/// root keys each fit in 255 bytes yields the record again.
pub proof fn lemma_metadata_round_trip(m: MetadataV)
    requires
        forall|i: int| 0 <= i < m.roots.len() ==> (#[trigger] m.roots[i]).len() <= 255,
    ensures
        metadata_decode_v(metadata_encode_v(m)) == Ok::<_, EncodeError>(m),
{
    let s = metadata_encode_v(m);
    assert(s.len() >= 24);
    lemma_u64_be_round_trip(m.version);
    lemma_u64_be_round_trip(m.last_id);
    lemma_u64_be_round_trip(m.last_timestamp);
    assert(forall|j: int| 0 <= j < 8 ==> s[j] == u64_be_bytes(m.version)[j]);
    assert(forall|j: int| 8 <= j < 16 ==> s[j] == u64_be_bytes(m.last_id)[j - 8]);
    assert(forall|j: int| 16 <= j < 24 ==> s[j] == u64_be_bytes(m.last_timestamp)[j - 16]);
    assert(s.skip(24) =~= roots_bytes(m.roots));
    lemma_roots_round_trip(m.roots);
    match metadata_decode_v(s) {
        Ok(mv) => {
            assert(mv =~= m);
        },
        Err(_) => {
            assert(false);
        },
    }
}

} // verus!
