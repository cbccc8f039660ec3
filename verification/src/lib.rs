//! A document store that shreds JSON documents into individually addressable
//! node records inside an ordered key-value engine.
//!
//! Every scalar, object and array node of an input document becomes one record
//! whose key encodes the node's path from a named root: a list of ancestor
//! node identifiers in a self-delimiting variable-length encoding, a zero
//! separator byte, and a terminal locator (field name, array index, or root
//! marker).  A metadata journal tracks the last issued node identifier and the
//! set of known roots, and is rewritten atomically with each insertion.

pub mod bytes;
pub mod db;
pub mod error;
pub mod json_value;
pub mod jsonpath;
pub mod key;
pub mod metadata;
pub mod node_value;
pub mod shred;
pub mod store;
pub mod varint;

pub use db::{check_super_node, insert_json, DBError, Database};
pub use error::EncodeError;
pub use json_value::{parse_json, JsonValue};
pub use jsonpath::{parse, JsonPathParseError, JsonPathSegment};
pub use key::{Key, KeyIndex};
pub use metadata::Metadata;
pub use node_value::NodeValue;
pub use store::{Store, StoreError};
pub use varint::{read_variable_sized_id, VariableSizedId};
