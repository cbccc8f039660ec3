//! The library's own JSON document model.
//!
//! A parsed document is held as a tree of plain values; floats are carried
//! as their IEEE-754 bit patterns so that the tree itself stays within
//! integer arithmetic.  The external parser's output is converted into this
//! type at the trust boundary, and everything downstream of it is verified.

use simd_json::{BorrowedValue, StaticNode};
use vstd::prelude::*;

verus! {

/// A JSON document node.
pub enum JsonValue {
    Null,
    Bool(bool),
    I64(i64),
    U64(u64),
    /// A float, held as its IEEE-754 bit pattern.
    F64Bits(u64),
    String(Vec<u8>),
    Array(Vec<JsonValue>),
    Object(Vec<(Vec<u8>, JsonValue)>),
}

#[verifier::external_type_specification]
#[verifier::external_body]
pub struct ExBorrowedValue<'a>(BorrowedValue<'a>);

/// Whether the byte string is a valid JSON document.  Whether the parse
/// succeeds depends on the bytes alone.
pub uninterp spec fn json_parses(bytes: Seq<u8>) -> bool;

/// The document tree `v` is one the external parser may hand back for
/// `bytes`.  The parser's object representation does not fix the order in
/// which members come back (its map backend hashes with a per-instance
/// seed above a small size), so the parse result is a relation over the
/// bytes, not a function of them; callers state what holds of every
/// admissible tree.
pub uninterp spec fn admissible_dom(bytes: Seq<u8>, v: JsonValue) -> bool;

/// Relies on `simd_json`'s borrowed DOM: each arm moves one parsed node
/// across, floats as their bit patterns.
#[verifier::external_body]
fn conv(v: &BorrowedValue) -> JsonValue {
    match v {
        BorrowedValue::Static(StaticNode::Null) => JsonValue::Null,
        BorrowedValue::Static(StaticNode::Bool(b)) => JsonValue::Bool(*b),
        BorrowedValue::Static(StaticNode::I64(i)) => JsonValue::I64(*i),
        BorrowedValue::Static(StaticNode::U64(u)) => JsonValue::U64(*u),
        BorrowedValue::Static(StaticNode::F64(f)) => JsonValue::F64Bits(f.to_bits()),
        BorrowedValue::String(s) => JsonValue::String(s.as_bytes().to_vec()),
        BorrowedValue::Array(a) => JsonValue::Array(a.iter().map(conv).collect()),
        BorrowedValue::Object(o) => JsonValue::Object(
            o.iter().map(|(k, x)| (k.as_bytes().to_vec(), conv(x))).collect(),
        ),
    }
}

/// Relies on `simd_json::to_borrowed_value`: parses `bytes` into a DOM,
/// de-escaping the buffer in place.  Success depends on the original bytes
/// alone; the returned tree is one admissible reading of them (object
/// member order is the parser's choice).
#[verifier::external_body]
pub fn parse_json(bytes: &mut Vec<u8>) -> (r: Option<JsonValue>)
    ensures
        match r {
            Some(v) => json_parses(old(bytes)@) && admissible_dom(old(bytes)@, v),
            None => !json_parses(old(bytes)@),
        },
{
    match simd_json::to_borrowed_value(bytes.as_mut_slice()) {
        Ok(v) => Some(conv(&v)),
        Err(_) => None,
    }
}

} // verus!
