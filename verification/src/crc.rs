//! The CRC-32 checksum primitive shared by the codecs.
//!
//! The checksum itself is computed by the `crc32fast` crate; this module
//! names its result so that contracts can speak about it.

use vstd::prelude::*;

verus! {

/// The CRC-32 (IEEE 802.3) checksum of `data`, continued from the running
/// checksum `seed`. The result is a function of `seed` and `data` alone.
pub uninterp spec fn crc32_update_of(seed: u32, data: Seq<u8>) -> u32;

/// The CRC-32 (IEEE 802.3) checksum of `data`.
pub open spec fn crc32_of(data: Seq<u8>) -> u32 {
    crc32_update_of(0, data)
}

/// Continue a CRC-32 checksum from the running value `seed`.
///
/// Relies on `crc32fast::Hasher::new_with_initial`, `Hasher::update` and
/// `Hasher::finalize`: together they compute the IEEE 802.3 CRC-32 of `data`
/// continued from `seed`, a function of `seed` and the bytes alone.
#[verifier::external_body]
pub fn crc32_update(data: &[u8], seed: u32) -> (r: u32)
    ensures
        r == crc32_update_of(seed, data@),
{
    let mut hasher = crc32fast::Hasher::new_with_initial(seed);
    hasher.update(data);
    hasher.finalize()
}

/// The CRC-32 checksum of `data`, seeded with the standard initial value.
pub fn crc32(data: &[u8]) -> (r: u32)
    ensures
        r == crc32_of(data@),
{
    crc32_update(data, 0)
}

} // verus!
