//! Integrity checksum over a record's payload bytes.

use vstd::prelude::*;

verus! {

/// The CRC-32/CKSUM digest of a byte sequence, as the `crc` crate computes
/// it. The digest is a pure function of the bytes; its value on given bytes
/// is not axiomatized here, only that it is the same function wherever it is
/// applied.
pub uninterp spec fn crc32_cksum(data: Seq<u8>) -> u32;

/// Relies on `crc::Crc::<u32>::new(&crc::CRC_32_CKSUM).checksum`: the
/// CRC-32/CKSUM digest of `data`, a deterministic function of the bytes
/// alone (the algorithm parameters are a fixed constant of the catalog).
#[verifier::external_body]
pub(crate) fn crc32_of(data: &[u8]) -> (r: u32)
    ensures
        r == crc32_cksum(data@),
{
    let crc32 = crc::Crc::<u32>::new(&crc::CRC_32_CKSUM);
    crc32.checksum(data)
}

} // verus!
