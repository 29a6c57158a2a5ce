//! The container header: a magic number and a format version precede the
//! record stream, and both must match exactly before any record is read.

use vstd::prelude::*;
use crate::wire::{le32, u32_of_le, write_u32_le, read_u32_le, lemma_le32_roundtrip};
use crate::record::entries_from;
use crate::record::lemma_entries_shift;
use crate::error::DatabaseError;

verus! {

/// The magic number every container starts with.
pub const MAGIC: u32 = 0x6f69_7263;

/// The one format version this implementation reads and writes.
pub const FORMAT_VERSION: u32 = 1;

/// The eight header bytes of a container.
pub open spec fn header() -> Seq<u8> {
    le32(MAGIC) + le32(FORMAT_VERSION)
}

/// Whether `b` starts with a well-formed header.
pub open spec fn header_ok(b: Seq<u8>) -> bool {
    &&& b.len() >= 8
    &&& u32_of_le(b.subrange(0, 4)) == MAGIC
    &&& u32_of_le(b.subrange(4, 8)) == FORMAT_VERSION
}

/// A header followed by anything has a well-formed header, and its record
/// region starts at offset eight.
pub proof fn lemma_header(x: Seq<u8>)
    ensures
        header().len() == 8,
        (header() + x).len() == 8 + x.len(),
        header_ok(header() + x),
        entries_from(header() + x, 8) == entries_from(x, 0),
{
    lemma_le32_roundtrip(MAGIC);
    lemma_le32_roundtrip(FORMAT_VERSION);
    assert((header() + x).subrange(0, 4) =~= le32(MAGIC));
    assert((header() + x).subrange(4, 8) =~= le32(FORMAT_VERSION));
    lemma_entries_shift(header(), x, 0);
}

/// Emits the header bytes.
pub fn header_bytes() -> (r: Vec<u8>)
    ensures
        r@ == header(),
{
    let mut out: Vec<u8> = Vec::new();
    write_u32_le(&mut out, MAGIC);
    write_u32_le(&mut out, FORMAT_VERSION);
    out
}

/// Validates the header of `b`: a wrong magic number is told apart from a
/// wrong version, and the version is only examined once the magic matches.
pub fn check_header(b: &Vec<u8>) -> (r: Result<(), DatabaseError>)
    ensures
        ({
            if b@.len() < 8 || u32_of_le(b@.subrange(0, 4)) != MAGIC {
                r == Err::<(), DatabaseError>(DatabaseError::BadMagic)
            } else if u32_of_le(b@.subrange(4, 8)) != FORMAT_VERSION {
                r == Err::<(), DatabaseError>(
                    DatabaseError::UnsupportedVersion {
                        found: u32_of_le(b@.subrange(4, 8)),
                    },
                )
            } else {
                r == Ok::<(), DatabaseError>(())
            }
        }),
        r is Ok <==> header_ok(b@),
{
    if b.len() < 8 {
        return Err(DatabaseError::BadMagic);
    }
    let magic = read_u32_le(b, 0);
    if magic != MAGIC {
        return Err(DatabaseError::BadMagic);
    }
    let version = read_u32_le(b, 4);
    if version != FORMAT_VERSION {
        return Err(DatabaseError::UnsupportedVersion { found: version });
    }
    Ok(())
}

} // verus!
