//! The per-record integrity digest: a 32-bit CRC over the payload bytes.

use vstd::prelude::*;

verus! {

/// The 32-bit CRC digest of `bytes`.
///
/// The digest is a fixed function of the input bytes alone; this name stands
/// for whatever value the CRC-32/ISO-HDLC algorithm assigns to them, and the
/// contracts of this crate speak of the digest only through this name.
pub uninterp spec fn crc32_of(bytes: Seq<u8>) -> u32;

/// Relies on `crc::Crc::<u32>::checksum` with the `CRC_32_ISO_HDLC` algorithm:
/// a pure, table-driven digest that depends on the input bytes alone.
#[verifier::external_body]
pub(crate) fn crc32(bytes: &Vec<u8>) -> (r: u32)
    ensures
        r == crc32_of(bytes@),
{
    crc::Crc::<u32>::new(&crc::CRC_32_ISO_HDLC).checksum(bytes.as_slice())
}

} // verus!
