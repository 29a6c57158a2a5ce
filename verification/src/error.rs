//! The error taxonomy of the store.

use vstd::prelude::*;

verus! {

/// Why an image could not be read or a record could not be written.
///
/// A checksum mismatch is deliberately not an error here: the load pipeline
/// recovers from it and reports it through a poison wrapper instead.
#[derive(Debug, Clone, Copy, PartialEq, Eq)]
pub enum DatabaseError {
    /// The image does not begin with the magic number of this format.
    BadMagic,
    /// The image carries a format version this implementation does not read.
    UnsupportedVersion { found: u32 },
    /// A single record's payload would exceed the range of the length field.
    DataTooLarge,
    /// A payload did not decode into a value of the requested type.
    DecodeError,
}

} // verus!
