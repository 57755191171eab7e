//! The CRC-32 digest used to protect every on-disk record.

use vstd::prelude::*;

verus! {

/// The CRC-32 (IEEE) digest of a byte sequence.
///
/// The digest is a pure function of the bytes alone; its definition is left
/// to the outside implementation. Contracts in this crate speak of a record's
/// checksum only through this name.
pub uninterp spec fn crc32_of(bytes: Seq<u8>) -> u32;

/// Relies on `crc32fast::hash`: the CRC-32 (IEEE) checksum of the buffer,
/// a deterministic function of the buffer's bytes alone.
#[verifier::external_body]
pub fn crc32(bytes: &[u8]) -> (r: u32)
    ensures
        r == crc32_of(bytes@),
{
    crc32fast::hash(bytes)
}

} // verus!
