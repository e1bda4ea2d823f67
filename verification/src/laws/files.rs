//! Data files: their footer, and which of their bytes are hashed.

use crate::checksum::crc32c_of;
use crate::file::{
    chunk_len, file_hash, footer_bytes, hash_ends, hashed_len, FOOTER_LEN, HASH_CHUNK, SEALED,
    SYNC_EVERY,
};
use crate::le::{le32, le32_bytes, le64, le64_bytes, lemma_le32_of_bytes, lemma_le64_of_bytes};
use vstd::math::min;
use vstd::prelude::*;

verus! {

/// A footer takes 21 bytes and ends in a C, hashes go over 5 MiB at once, and every hundredth write
/// is followed by a sync.
pub proof fn law_file_sizes()
    ensures
        FOOTER_LEN == 21,
        SEALED == 0x43,
        HASH_CHUNK == 5242880,
        SYNC_EVERY == 100,
{
}

/// Where the parts of a footer stand.
pub proof fn law_footer_layout(min_seq: u64, max_seq: u64, hash: u32)
    ensures
        ({
            let f = footer_bytes(min_seq, max_seq, hash);
            &&& f.len() == 21
            &&& le64(f, 0) == min_seq
            &&& le64(f, 8) == max_seq
            &&& le32(f, 16) == hash
            &&& f[20] == 0x43
        }),
{
    let f = footer_bytes(min_seq, max_seq, hash);
    assert(f.subrange(0, 8) =~= le64_bytes(min_seq));
    lemma_le64_of_bytes(f, 0, min_seq);
    assert(f.subrange(8, 16) =~= le64_bytes(max_seq));
    lemma_le64_of_bytes(f, 8, max_seq);
    assert(f.subrange(16, 20) =~= le32_bytes(hash));
    lemma_le32_of_bytes(f, 16, hash);
}

/// Which bytes of a file are hashed. Without a footer it is all of them. With one it is those in
/// front of it, and where a stretch of 5 MiB ends inside the footer, those up to there.
pub proof fn law_hashed_len(size: int, end: int)
    requires
        21 <= size,
    ensures
        hashed_len(size, false) == size,
        ({
            let len = hashed_len(size, true);
            &&& size - 21 <= len <= size
            &&& len == size - 21 || len % 5242880 == 0
            &&& size - 21 < end <= size && end % 5242880 == 0 ==> len == end
        }),
{
    assert(HASH_CHUNK == 5242880);
}

/// The hash of a file is that of all of its bytes, or of all in front of the footer as long as no
/// stretch of 5 MiB ends inside it.
pub proof fn law_file_hash(data: Seq<u8>, footer: Seq<u8>)
    requires
        footer.len() == 21,
        data.len() as int / 5242880 == (data.len() as int + 21) / 5242880,
    ensures
        file_hash(data, data.len() as int, false) == crc32c_of(data),
        file_hash(data + footer, data.len() as int + 21, true) == crc32c_of(data),
{
    let n = data.len() as int;
    assert(HASH_CHUNK == 5242880);
    assert(data.take(n) =~= data);
    assert((data + footer).take(n) =~= data);
}

/// The next stretch to hash: 5 MiB if there are as many, and otherwise what is left, without the
/// footer if there is one.
pub proof fn law_stretch(size: int, pos: int)
    requires
        0 <= pos <= size,
    ensures
        chunk_len(size, false, pos) == min(5242880, size - pos),
        pos + 5242880 <= size ==> chunk_len(size, true, pos) == 5242880,
        pos + 5242880 > size ==> chunk_len(size, true, pos) == size - pos - 21,
        hash_ends(size, false, pos) <==> pos == size,
        hash_ends(size, true, pos) <==> pos >= size - 21,
{
    assert(HASH_CHUNK == 5242880);
}

/// The stretches follow one another from the front to the end of what is hashed, without a gap: stretch
/// `i` begins at `i` times 5 MiB, and the last ends there.
pub proof fn law_stretches(size: int, without_footer: bool, i: int)
    requires
        0 <= i,
        0 <= 5242880 * i,
        without_footer ==> 5242880 * i + 21 <= size,
        5242880 * i <= size,
    ensures
        ({
            let end = 5242880 * i + chunk_len(size, without_footer, 5242880 * i);
            if hash_ends(size, without_footer, end) {
                end == hashed_len(size, without_footer)
            } else {
                end == 5242880 * (i + 1)
            }
        }),
{
    assert(HASH_CHUNK == 5242880);
}

} // verus!
