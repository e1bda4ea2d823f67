//! Fixed-size frames of 64 KiB: `[magic][u64 idx][u64 seq][u64 record_len][data][trailer]`, with a
//! trailer of 32 bytes: the hash of everything before it, zeros, and the smallest and the largest
//! write sequence.

use crate::checksum::{crc32c, crc32c_of};
use crate::data::util::{u32_from_pos, u32_write_at, u64_from_pos, u64_write_at};
use crate::error::Error;
use crate::le::{le32, le32_bytes, le64, le64_bytes, lemma_le32_of_bytes, lemma_le64_of_bytes};
use vstd::prelude::*;

verus! {

pub const FRAME_MAGIC_BYTE: u8 = 0x46;

pub const FRAME_LEN: usize = 64 * 1024;

pub const FRAME_HEADER_LEN: usize = 25;

pub const FRAME_SEQ_OFFSET: usize = 9;

pub const FRAME_REC_LEN_OFFSET: usize = 17;

pub const FRAME_HASH_LEN: usize = 32;

pub const FRAME_HASH_OFFSET: usize = FRAME_LEN - FRAME_HASH_LEN;

pub const FRAME_DATA_SIZE: usize = FRAME_LEN - FRAME_HEADER_LEN - FRAME_HASH_LEN;

pub const FRAME_WSEQ_OFFSET: usize = FRAME_LEN - 16;

/// So many zeros.
pub open spec fn zeros(n: int) -> Seq<u8> {
    Seq::new(n as nat, |i: int| 0u8)
}

/// The header of a frame.
pub open spec fn frame_header(idx: u64, seq: u64, record_len: u64) -> Seq<u8> {
    seq![FRAME_MAGIC_BYTE] + le64_bytes(idx) + le64_bytes(seq) + le64_bytes(record_len)
}

/// An open frame of `len` bytes: the header, then zeros.
pub open spec fn opened_frame(idx: u64, seq: u64, record_len: u64, len: int) -> Seq<u8> {
    frame_header(idx, seq, record_len) + zeros(len - FRAME_HEADER_LEN)
}

/// The trailer of a frame whose header and data have the hash `hash`.
pub open spec fn frame_trailer(hash: u32, min_seq: u64, max_seq: u64) -> Seq<u8> {
    le32_bytes(hash) + zeros(12) + le64_bytes(min_seq) + le64_bytes(max_seq)
}

/// A frame with its trailer set.
pub open spec fn sealed_frame(frame: Seq<u8>, min_seq: u64, max_seq: u64) -> Seq<u8> {
    let body = frame.take(FRAME_HASH_OFFSET as int);
    body + frame_trailer(crc32c_of(body), min_seq, max_seq)
}

/// What is wrong with a frame, if anything is.
pub open spec fn frame_check(frame: Seq<u8>) -> Result<(), Error> {
    if frame[0] != FRAME_MAGIC_BYTE {
        Err(Error::BlockMagicMismatch)
    } else if le32(frame, FRAME_HASH_OFFSET as int) != crc32c_of(
        frame.take(FRAME_HASH_OFFSET as int),
    ) {
        Err(Error::BlockHashMismatch)
    } else {
        Ok(())
    }
}

/// A sealed frame gives back the two write sequences, keeps its header and its data, and passes
/// the check if and only if it has the magic byte.
pub proof fn law_seal(frame: Seq<u8>, min_seq: u64, max_seq: u64)
    requires
        frame.len() == FRAME_LEN,
    ensures
        ({
            let s = sealed_frame(frame, min_seq, max_seq);
            &&& s.len() == FRAME_LEN
            &&& s.take(FRAME_HASH_OFFSET as int) == frame.take(FRAME_HASH_OFFSET as int)
            &&& le32(s, 65504) == crc32c_of(frame.take(65504))
            &&& le64(s, FRAME_WSEQ_OFFSET as int) == min_seq
            &&& le64(s, FRAME_WSEQ_OFFSET + 8) == max_seq
            &&& frame_check(s) == if frame[0] == FRAME_MAGIC_BYTE {
                Ok::<(), Error>(())
            } else {
                Err::<(), Error>(Error::BlockMagicMismatch)
            }
        }),
{
    let s = sealed_frame(frame, min_seq, max_seq);
    let body = frame.take(65504);
    assert(s.take(65504) =~= body);
    assert(s.subrange(65504, 65508) =~= le32_bytes(crc32c_of(body)));
    lemma_le32_of_bytes(s, 65504, crc32c_of(body));
    assert(s.subrange(65520, 65528) =~= le64_bytes(min_seq));
    lemma_le64_of_bytes(s, 65520, min_seq);
    assert(s.subrange(65528, 65536) =~= le64_bytes(max_seq));
    lemma_le64_of_bytes(s, 65528, max_seq);
    assert(s[0] == body[0]);
}

/// An open frame gives back its sequence and its record length.
pub proof fn law_open_frame(idx: u64, seq: u64, record_len: u64, len: int)
    requires
        len >= FRAME_HEADER_LEN,
    ensures
        ({
            let f = opened_frame(idx, seq, record_len, len);
            &&& f.len() == len
            &&& f[0] == FRAME_MAGIC_BYTE
            &&& le64(f, 1) == idx
            &&& le64(f, FRAME_SEQ_OFFSET as int) == seq
            &&& le64(f, FRAME_REC_LEN_OFFSET as int) == record_len
        }),
{
    let f = opened_frame(idx, seq, record_len, len);
    assert(f.subrange(1, 9) =~= le64_bytes(idx));
    lemma_le64_of_bytes(f, 1, idx);
    assert(f.subrange(9, 17) =~= le64_bytes(seq));
    lemma_le64_of_bytes(f, 9, seq);
    assert(f.subrange(17, 25) =~= le64_bytes(record_len));
    lemma_le64_of_bytes(f, 17, record_len);
}

/// Writes a header to the front of `frame` and clears the rest. A frame that is too short gets as
/// much of the header as it can hold.
pub fn open_frame(frame: &mut [u8], idx: u64, seq: u64, record_len: u64) -> (opened: Result<
    (),
    Error,
>)
    ensures
        old(frame)@.len() < FRAME_HEADER_LEN ==> opened == Err::<(), Error>(Error::BlockTooShort)
            && final(frame)@ == frame_header(idx, seq, record_len).take(old(frame)@.len() as int),
        old(frame)@.len() >= FRAME_HEADER_LEN ==> opened is Ok && final(frame)@ == opened_frame(
            idx,
            seq,
            record_len,
            old(frame)@.len() as int,
        ),
{
    let mut header: [u8; FRAME_HEADER_LEN] = [0u8;FRAME_HEADER_LEN];
    header[0] = FRAME_MAGIC_BYTE;
    u64_write_at(&mut header, 1, idx);
    u64_write_at(&mut header, 9, seq);
    u64_write_at(&mut header, 17, record_len);
    let ghost h = frame_header(idx, seq, record_len);
    let ghost len = frame.len();
    assert(header@ =~= h);
    let mut i: usize = 0;
    while i < frame.len()
        invariant
            frame@.len() == old(frame)@.len() == len,
            i <= len,
            h.len() == FRAME_HEADER_LEN,
            header@ == h,
            forall|j: int|
                0 <= j < i ==> #[trigger] frame@[j] == if j < FRAME_HEADER_LEN {
                    h[j]
                } else {
                    0u8
                },
        decreases len - i,
    {
        frame[i] = if i < FRAME_HEADER_LEN {
            header[i]
        } else {
            0
        };
        i += 1;
    }
    if frame.len() < FRAME_HEADER_LEN {
        assert(frame@ =~= h.take(len as int));
        return Err(Error::BlockTooShort);
    }
    assert(frame@ =~= opened_frame(idx, seq, record_len, len as int));
    Ok(())
}

/// The record length in a frame's header.
pub fn get_frame_record_len(frame: &[u8]) -> (len: Result<u64, Error>)
    requires
        frame@.len() >= FRAME_REC_LEN_OFFSET + 8,
    ensures
        len == Ok::<u64, Error>(le64(frame@, FRAME_REC_LEN_OFFSET as int)),
{
    Ok(u64_from_pos(frame, FRAME_REC_LEN_OFFSET))
}

/// The sequence in a frame's header.
pub fn get_frame_seq(frame: &[u8]) -> (seq: Result<u64, Error>)
    requires
        frame@.len() >= FRAME_SEQ_OFFSET + 8,
    ensures
        seq == Ok::<u64, Error>(le64(frame@, FRAME_SEQ_OFFSET as int)),
{
    Ok(u64_from_pos(frame, FRAME_SEQ_OFFSET))
}

/// The smallest and the largest write sequence in a frame's trailer.
pub fn get_min_max_wseq(frame: &[u8]) -> (wseq: Result<(u64, u64), Error>)
    requires
        frame@.len() >= FRAME_WSEQ_OFFSET + 8,
    ensures
        wseq == if frame@.len() == FRAME_LEN {
            Ok::<(u64, u64), Error>(
                (le64(frame@, FRAME_WSEQ_OFFSET as int), le64(frame@, FRAME_WSEQ_OFFSET + 8)),
            )
        } else {
            Err(Error::BlockLengthWrong)
        },
{
    let min: u64 = u64_from_pos(frame, FRAME_WSEQ_OFFSET);
    if frame.len() != FRAME_LEN {
        return Err(Error::BlockLengthWrong);
    }
    let max: u64 = u64_from_pos(frame, FRAME_WSEQ_OFFSET + 8);
    Ok((min, max))
}

/// Sets the trailer of a frame whose header and data have the hash `hash`.
pub fn set_trailer(frame: &mut [u8], hash: u32, min_seq: u64, max_seq: u64)
    requires
        old(frame)@.len() == FRAME_LEN,
    ensures
        final(frame)@ == old(frame)@.take(FRAME_HASH_OFFSET as int) + frame_trailer(
            hash,
            min_seq,
            max_seq,
        ),
{
    u32_write_at(frame, FRAME_HASH_OFFSET, hash);
    let ghost hashed = frame@;
    let mut i: usize = FRAME_HASH_OFFSET + 4;
    while i < FRAME_WSEQ_OFFSET
        invariant
            FRAME_HASH_OFFSET + 4 <= i <= FRAME_WSEQ_OFFSET,
            frame@.len() == FRAME_LEN,
            hashed.len() == FRAME_LEN,
            forall|j: int|
                0 <= j < FRAME_LEN ==> #[trigger] frame@[j] == if FRAME_HASH_OFFSET + 4 <= j < i {
                    0u8
                } else {
                    hashed[j]
                },
        decreases FRAME_WSEQ_OFFSET - i,
    {
        frame[i] = 0;
        i += 1;
    }
    u64_write_at(frame, FRAME_WSEQ_OFFSET, min_seq);
    u64_write_at(frame, FRAME_WSEQ_OFFSET + 8, max_seq);
    assert(frame@ =~= old(frame)@.take(FRAME_HASH_OFFSET as int) + frame_trailer(
        hash,
        min_seq,
        max_seq,
    ));
}

/// Seals a frame: sets its trailer, with the hash of its header and data.
pub fn seal_frame(frame: &mut [u8], min_seq: u64, max_seq: u64)
    requires
        old(frame)@.len() == FRAME_LEN,
    ensures
        final(frame)@ == sealed_frame(old(frame)@, min_seq, max_seq),
        final(frame)@.len() == 65536,
        final(frame)@.take(65504) == old(frame)@.take(65504),
        le32(final(frame)@, 65504) == crc32c_of(old(frame)@.take(65504)),
        le64(final(frame)@, 65520) == min_seq,
        le64(final(frame)@, 65528) == max_seq,
{
    let hash: u32 = crc32c(&frame[0..FRAME_HASH_OFFSET]);
    assert(frame@.subrange(0, FRAME_HASH_OFFSET as int) =~= frame@.take(FRAME_HASH_OFFSET as int));
    set_trailer(frame, hash, min_seq, max_seq);
    proof {
        law_seal(old(frame)@, min_seq, max_seq);
    }
}

/// Checks the magic byte of a frame, and that its stored hash is `computed_hash`.
pub fn check_frame(frame: &[u8], computed_hash: u32) -> (checked: Result<(), Error>)
    requires
        frame@.len() >= 1,
        frame@[0] == FRAME_MAGIC_BYTE ==> frame@.len() >= FRAME_HASH_OFFSET + 4,
    ensures
        checked == if frame@[0] != FRAME_MAGIC_BYTE {
            Err::<(), Error>(Error::BlockMagicMismatch)
        } else if le32(frame@, FRAME_HASH_OFFSET as int) != computed_hash {
            Err(Error::BlockHashMismatch)
        } else {
            Ok(())
        },
{
    if frame[0] != FRAME_MAGIC_BYTE {
        return Err(Error::BlockMagicMismatch);
    }
    let stored_hash: u32 = u32_from_pos(frame, FRAME_HASH_OFFSET);
    if stored_hash != computed_hash {
        return Err(Error::BlockHashMismatch);
    }
    Ok(())
}

/// Checks the magic byte and the hash of a frame.
pub fn verify_frame(frame: &[u8]) -> (checked: Result<(), Error>)
    requires
        frame@.len() >= 1,
        frame@[0] == FRAME_MAGIC_BYTE ==> frame@.len() >= FRAME_HASH_OFFSET + 4,
    ensures
        checked == frame_check(frame@),
        checked is Ok <==> frame@[0] == 0x46 && le32(frame@, 65504) == crc32c_of(
            frame@.take(65504),
        ),
{
    if frame[0] != FRAME_MAGIC_BYTE {
        return Err(Error::BlockMagicMismatch);
    }
    let computed_hash: u32 = crc32c(&frame[0..FRAME_HASH_OFFSET]);
    assert(frame@.subrange(0, FRAME_HASH_OFFSET as int) =~= frame@.take(FRAME_HASH_OFFSET as int));
    check_frame(frame, computed_hash)
}

} // verus!
