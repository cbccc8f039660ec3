//! The node value codec: the payload stored at a key.
//!
//! A discriminant byte is followed by the payload: `0` null, `1` bool (one
//! byte), `2` float (eight big-endian bytes of the IEEE-754 bit pattern),
//! `3` signed integer, `4` unsigned integer (eight big-endian bytes each),
//! `5` string (raw UTF-8 bytes to the end), `6` array marker, `7` object
//! marker.  Container markers carry no child list; children are discovered
//! by range-scanning descendant keys.

use vstd::prelude::*;
use vstd::slice::slice_subrange;

use crate::bytes::{
    clone_bytes, lemma_u64_be_bytes_of_from, lemma_u64_be_round_trip, push_u64_be, read_u64_be,
    u64_be_bytes, u64_from_be,
};
use crate::error::EncodeError;

verus! {

/// Abstract form of a node value.
#[verifier::ext_equal]
pub enum NodeValueV {
    Null,
    Bool(bool),
    Number(u64),
    NumberI(i64),
    NumberU(u64),
    Str(Seq<u8>),
    Array,
    Object,
}

/// The payload stored at a key: a scalar, a string, or a container marker.
///
/// The float lane carries the IEEE-754 bit pattern of the value, so the
/// codec itself stays within integer arithmetic; callers convert with
/// `f64::to_bits` / `f64::from_bits`.
#[derive(Debug, Clone, PartialEq, Eq)]
pub enum NodeValue {
    Null,
    Bool(bool),
    /// A float, held as its IEEE-754 bit pattern.
    Number(u64),
    NumberI(i64),
    NumberU(u64),
    String(Vec<u8>),
    Array,
    Object,
}

impl View for NodeValue {
    type V = NodeValueV;

    open spec fn view(&self) -> NodeValueV {
        match self {
            NodeValue::Null => NodeValueV::Null,
            NodeValue::Bool(b) => NodeValueV::Bool(*b),
            NodeValue::Number(x) => NodeValueV::Number(*x),
            NodeValue::NumberI(i) => NodeValueV::NumberI(*i),
            NodeValue::NumberU(u) => NodeValueV::NumberU(*u),
            NodeValue::String(s) => NodeValueV::Str(s@),
            NodeValue::Array => NodeValueV::Array,
            NodeValue::Object => NodeValueV::Object,
        }
    }
}

/// The serialized form of a node value.
pub open spec fn node_value_encode_v(v: NodeValueV) -> Seq<u8> {
    match v {
        NodeValueV::Null => seq![0u8],
        NodeValueV::Bool(b) => seq![1u8, if b { 1u8 } else { 0u8 }],
        NodeValueV::Number(x) => seq![2u8] + u64_be_bytes(x),
        NodeValueV::NumberI(i) => seq![3u8] + u64_be_bytes(i as u64),
        NodeValueV::NumberU(u) => seq![4u8] + u64_be_bytes(u),
        NodeValueV::Str(s) => seq![5u8] + s,
        NodeValueV::Array => seq![6u8],
        NodeValueV::Object => seq![7u8],
    }
}

/// What decoding a node value yields: the variant selected by the
/// discriminant byte, after the minimum length for its payload is checked.
pub open spec fn node_value_decode_v(s: Seq<u8>) -> Result<NodeValueV, EncodeError> {
    if s.len() == 0 {
        Err(EncodeError::InvalidLength)
    } else if s[0] == 0 {
        Ok(NodeValueV::Null)
    } else if s[0] == 1 {
        if s.len() < 2 {
            Err(EncodeError::InvalidLength)
        } else {
            Ok(NodeValueV::Bool(s[1] != 0))
        }
    } else if s[0] == 2 {
        if s.len() < 9 {
            Err(EncodeError::InvalidLength)
        } else {
            Ok(NodeValueV::Number(u64_from_be(s[1], s[2], s[3], s[4], s[5], s[6], s[7], s[8])))
        }
    } else if s[0] == 3 {
        if s.len() < 9 {
            Err(EncodeError::InvalidLength)
        } else {
            Ok(
                NodeValueV::NumberI(
                    u64_from_be(s[1], s[2], s[3], s[4], s[5], s[6], s[7], s[8]) as i64,
                ),
            )
        }
    } else if s[0] == 4 {
        if s.len() < 9 {
            Err(EncodeError::InvalidLength)
        } else {
            Ok(NodeValueV::NumberU(u64_from_be(s[1], s[2], s[3], s[4], s[5], s[6], s[7], s[8])))
        }
    } else if s[0] == 5 {
        Ok(NodeValueV::Str(s.skip(1)))
    } else if s[0] == 6 {
        Ok(NodeValueV::Array)
    } else if s[0] == 7 {
        Ok(NodeValueV::Object)
    } else {
        Err(EncodeError::InvalidType)
    }
}

impl NodeValue {
    /// Returns whether this is the object marker.
    pub fn is_object(&self) -> (r: bool)
        ensures
            r == (self@ is Object),
    {
        matches!(self, NodeValue::Object)
    }

    /// Returns whether this is the array marker.
    pub fn is_array(&self) -> (r: bool)
        ensures
            r == (self@ is Array),
    {
        matches!(self, NodeValue::Array)
    }

    /// Serializes the value as its discriminant byte followed by the payload.
    pub fn encode(&self) -> (r: Vec<u8>)
        ensures
            r@ == node_value_encode_v(self@),
    {
        let mut bytes: Vec<u8> = Vec::new();
        match self {
            NodeValue::Null => {
                bytes.push(0);
                proof {
                    assert(bytes@ =~= node_value_encode_v(self@));
                }
            },
            NodeValue::Bool(b) => {
                bytes.push(1);
                bytes.push(if *b {
                    1
                } else {
                    0
                });
                proof {
                    assert(bytes@ =~= node_value_encode_v(self@));
                }
            },
            NodeValue::Number(x) => {
                bytes.push(2);
                push_u64_be(&mut bytes, *x);
                proof {
                    assert(bytes@ =~= node_value_encode_v(self@));
                }
            },
            NodeValue::NumberI(i) => {
                bytes.push(3);
                push_u64_be(&mut bytes, *i as u64);
                proof {
                    assert(bytes@ =~= node_value_encode_v(self@));
                }
            },
            NodeValue::NumberU(u) => {
                bytes.push(4);
                push_u64_be(&mut bytes, *u);
                proof {
                    assert(bytes@ =~= node_value_encode_v(self@));
                }
            },
            NodeValue::String(s) => {
                bytes.push(5);
                let mut payload = clone_bytes(s);
                bytes.append(&mut payload);
                proof {
                    assert(bytes@ =~= node_value_encode_v(self@));
                }
            },
            NodeValue::Array => {
                bytes.push(6);
                proof {
                    assert(bytes@ =~= node_value_encode_v(self@));
                }
            },
            NodeValue::Object => {
                bytes.push(7);
                proof {
                    assert(bytes@ =~= node_value_encode_v(self@));
                }
            },
        }
        bytes
    }

    /// Parses a serialized node value.
    pub fn decode(data: &[u8]) -> (r: Result<NodeValue, EncodeError>)
        ensures
            match r {
                Ok(v) => node_value_decode_v(data@) == Ok::<_, EncodeError>(v@),
                Err(e) => node_value_decode_v(data@) == Err::<NodeValueV, _>(e),
            },
    {
        if data.len() == 0 {
            return Err(EncodeError::InvalidLength);
        }
        let tag = data[0];
        if tag == 0 {
            Ok(NodeValue::Null)
        } else if tag == 1 {
            if data.len() < 2 {
                return Err(EncodeError::InvalidLength);
            }
            Ok(NodeValue::Bool(data[1] != 0))
        } else if tag == 2 {
            if data.len() < 9 {
                return Err(EncodeError::InvalidLength);
            }
            Ok(NodeValue::Number(read_u64_be(data, 1)))
        } else if tag == 3 {
            if data.len() < 9 {
                return Err(EncodeError::InvalidLength);
            }
            Ok(NodeValue::NumberI(read_u64_be(data, 1) as i64))
        } else if tag == 4 {
            if data.len() < 9 {
                return Err(EncodeError::InvalidLength);
            }
            Ok(NodeValue::NumberU(read_u64_be(data, 1)))
        } else if tag == 5 {
            let rest = slice_subrange(data, 1, data.len());
            let mut payload: Vec<u8> = Vec::new();
            let mut i: usize = 0;
            while i < rest.len()
                invariant
                    0 <= i <= rest@.len(),
                    payload@ == rest@.take(i as int),
                decreases rest@.len() - i,
            {
                payload.push(rest[i]);
                i = i + 1;
                proof {
                    assert(rest@.take(i as int) =~= rest@.take(i - 1).push(rest@[i - 1]));
                }
            }
            proof {
                assert(rest@.take(rest@.len() as int) =~= rest@);
                assert(rest@ =~= data@.skip(1));
            }
            Ok(NodeValue::String(payload))
        } else if tag == 6 {
            Ok(NodeValue::Array)
        } else if tag == 7 {
            Ok(NodeValue::Object)
        } else {
            Err(EncodeError::InvalidType)
        }
    }
}

/// Round trip: decoding the serialized form of any node value yields the
/// value again.
pub proof fn lemma_node_value_round_trip(v: NodeValueV)
    ensures
        node_value_decode_v(node_value_encode_v(v)) == Ok::<_, EncodeError>(v),
{
    let s = node_value_encode_v(v);
    match v {
        NodeValueV::Null => {
        },
        NodeValueV::Bool(b) => {
        },
        NodeValueV::Number(x) => {
            assert(s.len() == 9);
            assert(s[1] == u64_be_bytes(x)[0] && s[2] == u64_be_bytes(x)[1] && s[3] == u64_be_bytes(
                x,
            )[2] && s[4] == u64_be_bytes(x)[3] && s[5] == u64_be_bytes(x)[4] && s[6]
                == u64_be_bytes(x)[5] && s[7] == u64_be_bytes(x)[6] && s[8] == u64_be_bytes(x)[7]);
            lemma_u64_be_round_trip(x);
        },
        NodeValueV::NumberI(i) => {
            let x = i as u64;
            assert(s.len() == 9);
            assert(s[1] == u64_be_bytes(x)[0] && s[2] == u64_be_bytes(x)[1] && s[3] == u64_be_bytes(
                x,
            )[2] && s[4] == u64_be_bytes(x)[3] && s[5] == u64_be_bytes(x)[4] && s[6]
                == u64_be_bytes(x)[5] && s[7] == u64_be_bytes(x)[6] && s[8] == u64_be_bytes(x)[7]);
            lemma_u64_be_round_trip(x);
            assert((i as u64) as i64 == i) by (bit_vector);
        },
        NodeValueV::NumberU(u) => {
            assert(s.len() == 9);
            assert(s[1] == u64_be_bytes(u)[0] && s[2] == u64_be_bytes(u)[1] && s[3] == u64_be_bytes(
                u,
            )[2] && s[4] == u64_be_bytes(u)[3] && s[5] == u64_be_bytes(u)[4] && s[6]
                == u64_be_bytes(u)[5] && s[7] == u64_be_bytes(u)[6] && s[8] == u64_be_bytes(u)[7]);
            lemma_u64_be_round_trip(u);
        },
        NodeValueV::Str(str_bytes) => {
            assert(s.skip(1) =~= str_bytes);
        },
        NodeValueV::Array => {
        },
        NodeValueV::Object => {
        },
    }
}

} // verus!
