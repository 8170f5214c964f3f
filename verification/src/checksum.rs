//! CRC-32C, which guards the metadata and hashes names.

use vstd::prelude::*;

verus! {

/// What `crc32c::crc32c_append` returns for a previous CRC value and a payload.
pub uninterp spec fn crc32c_value(crc: u32, data: Seq<u8>) -> u32;

/// `crc32c::crc32c_append`: the CRC-32C of `data`, continued from the CRC value `crc`.
/// The result depends on the two arguments alone; it is named, not written out.
#[verifier::external_body]
fn crc32c_append(crc: u32, data: &[u8]) -> (r: u32)
    ensures
        r == crc32c_value(crc, data@),
{
    crc32c::crc32c_append(crc, data)
}

/// `crc32c::crc32c`: the CRC-32C of `data`, which the crate computes as
/// `crc32c_append(0, data)`.
#[verifier::external_body]
pub(crate) fn crc32c(data: &[u8]) -> (r: u32)
    ensures
        r == crc32c_value(0, data@),
{
    crc32c::crc32c(data)
}

/// The hash under which a directory files a name: CRC-32C continued from 1, inverted.
pub open spec fn name_hash_of(name: Seq<u8>) -> int {
    0xffff_ffff - crc32c_value(1, name)
}

/// The hash of a directory entry's name: CRC-32C seeded with 1, inverted.
pub fn name_hash(name: &[u8]) -> (h: u64)
    ensures
        h == name_hash_of(name@),
{
    invert_crc(crc32c_append(1, name))
}

/// The bitwise complement of a CRC value, as a 64-bit number.
pub fn invert_crc(crc: u32) -> (h: u64)
    ensures
        h == 0xffff_ffff - crc,
{
    assert(!crc == 0xffff_ffff - crc) by (bit_vector);
    (!crc) as u64
}

} // verus!
