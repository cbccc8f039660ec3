//! Error kinds raised by the binary codecs.

use vstd::prelude::*;

verus! {

/// Error raised while encoding or decoding identifiers, keys, node values or
/// the metadata record.
#[derive(Clone, Copy, Debug, PartialEq, Eq, Structural)]
pub enum EncodeError {
    /// A field name was not valid UTF-8.
    InvalidUtf8,
    /// The buffer ended before a complete item could be read.
    InvalidLength,
    /// An unknown discriminant byte was found.
    InvalidType,
    /// A value did not fit in 64 bits, or an arithmetic bound was exceeded.
    Overflow,
}

} // verus!
