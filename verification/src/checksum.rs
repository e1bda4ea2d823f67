//! The checksum that seals frames, transactions and files: CRC-32C.

use vstd::prelude::*;

verus! {

/// The CRC-32C of `data`.
pub uninterp spec fn crc32c_of(data: Seq<u8>) -> u32;

/// The CRC-32C of a message whose beginning has the checksum `crc` and whose rest is `data`.
pub uninterp spec fn crc32c_extend(crc: u32, data: Seq<u8>) -> u32;

/// Calls `crc32c::crc32c`. The result is a function of the bytes alone, and it is what
/// `crc32c::crc32c_append` gives for the checksum 0 and the same bytes.
#[verifier::external_body]
pub(crate) fn crc32c(data: &[u8]) -> (hash: u32)
    ensures
        hash == crc32c_of(data@),
        hash == crc32c_extend(0, data@),
{
    crc32c::crc32c(data)
}

/// Calls `crc32c::crc32c_append`. The result is a function of the checksum so far and the
/// bytes alone. Where the checksum so far is that of some bytes, the result is the checksum of
/// those and the given ones behind them; from 0 on, it is that of the given ones.
#[verifier::external_body]
pub(crate) fn crc32c_append(crc: u32, data: &[u8]) -> (hash: u32)
    ensures
        hash == crc32c_extend(crc, data@),
        crc == 0 ==> hash == crc32c_of(data@),
        forall|before: Seq<u8>| crc == #[trigger] crc32c_of(before) ==> hash == crc32c_of(
            before + data@,
        ),
{
    crc32c::crc32c_append(crc, data)
}

} // verus!
