//! What records, transactions and frames are made of, and which bytes are accepted as one.

use super::bytes::law_integers_unique;
use crate::checksum::crc32c_of;
use crate::data::record as plain;
use crate::data::transaction::{
    law_transaction_round_trip, stretched, txn_bytes, txn_fault, txn_intact, with_max, with_min,
    Transaction,
};
use crate::error::Error;
use crate::frame::{
    frame_check, frame_header, frame_trailer, law_open_frame, law_seal, opened_frame, sealed_frame,
    FRAME_DATA_SIZE, FRAME_HASH_OFFSET, FRAME_HEADER_LEN, FRAME_LEN, FRAME_MAGIC_BYTE,
    FRAME_REC_LEN_OFFSET, FRAME_SEQ_OFFSET, FRAME_WSEQ_OFFSET,
};
use crate::le::{
    le16, le32, le32_bytes, le64, le64_bytes, lemma_le32_of_bytes, lemma_le64_of_bytes,
};
use crate::record::{
    header_bytes, header_of, law_record_header_round_trip, record_bytes, Record, RecordHeader,
};
use crate::storage::frame::{
    frame_at, frame_bytes, frame_fault, frame_intact, frame_total, law_frame_round_trip,
    FRAME_MAX_SIZE, SCAN_BUF_SIZE,
};
use vstd::math::{max, min};
use vstd::prelude::*;

verus! {

/// The sizes that the formats have.
pub proof fn law_sizes()
    ensures
        forall|n: int| #[trigger] frame_total(n) == n + 20,
        FRAME_MAX_SIZE == 0x80_0000,
        SCAN_BUF_SIZE == 0x80_0000,
        Transaction::MAX_SIZE == 0x40_0018,
        Transaction::MIN_SIZE == 24,
        Transaction::HEADER_LEN == 20,
        Transaction::HASH_SIZE == 4,
        plain::Record::HEADER_SIZE == 21,
        plain::Record::MAX_SIZE == 0x40_0000,
        plain::Record::TYPE == 1,
        RecordHeader::HEADER_SIZE == 31,
        Record::RECORD_MAGIC == 0x52,
        Record::HASH_SIZE == 4,
        FRAME_LEN == 65536,
        FRAME_HEADER_LEN == 25,
        FRAME_HASH_OFFSET == 65504,
        FRAME_DATA_SIZE == 65479,
        FRAME_WSEQ_OFFSET == 65520,
        FRAME_SEQ_OFFSET == 9,
        FRAME_REC_LEN_OFFSET == 17,
        FRAME_MAGIC_BYTE == 0x46,
{
    assert(4usize << 20 == 4_194_304) by (bit_vector);
}

// -- log frames --------------------------------------------------------------------------

/// A log frame is `brzy`, its length, its sequence, its payload, and the hash of all of that: of
/// every byte before the hash, however long the payload is.
pub proof fn law_frame_layout(seq: u64, payload: Seq<u8>)
    requires
        20 + payload.len() <= 0x80_0000,
    ensures
        ({
            let b = frame_bytes(seq, payload);
            let end = 16 + payload.len() as int;
            &&& b.len() == end + 4
            &&& b[0] == 0x62 && b[1] == 0x72 && b[2] == 0x7a && b[3] == 0x79
            &&& le32(b, 4) == b.len()
            &&& le64(b, 8) == seq
            &&& b.subrange(16, end) == payload
            &&& le32(b, end) == crc32c_of(b.take(end))
        }),
{
    reveal(frame_at);
    reveal(frame_intact);
    let b = frame_bytes(seq, payload);
    law_frame_round_trip(seq, payload, Seq::empty());
    assert(b + Seq::<u8>::empty() =~= b);
    let f = frame_at(b, 0);
    assert(f.payload == payload);
    assert(le32(b, 0) == 0x797a_7262);
    assert(le32(b, 0) == b[0] + 256 * b[1] + 65536 * b[2] + 16777216 * b[3]);
}

/// Some bytes begin with an intact frame if and only if they begin with `brzy`, hold as many bytes
/// as the length says, which is 20 at least and 8 MiB at most, and the last four of these are the
/// hash of all of those before them.
pub proof fn law_frame_accepted(raw: Seq<u8>)
    ensures
        frame_intact(raw) <==> {
            &&& raw.len() >= 20
            &&& le32(raw, 0) == 0x797a_7262
            &&& 20 <= le32(raw, 4) <= 0x80_0000
            &&& le32(raw, 4) <= raw.len()
            &&& le32(raw, le32(raw, 4) - 4) == crc32c_of(raw.take(le32(raw, 4) - 4))
        },
        frame_fault(raw) is None <==> {
            &&& raw.len() >= 20
            &&& le32(raw, 0) == 0x797a_7262
            &&& 20 <= le32(raw, 4) <= 0x80_0000
            &&& le32(raw, 4) <= raw.len()
        },
        raw.len() < 20 ==> frame_fault(raw) == Some(Error::FrameTooShort),
        raw.len() >= 20 && le32(raw, 0) != 0x797a_7262 ==> frame_fault(raw) == Some(
            Error::FrameMagicMissing,
        ),
        raw.len() >= 20 && le32(raw, 0) == 0x797a_7262 && !(20 <= le32(raw, 4) <= 0x80_0000)
            ==> frame_fault(raw) == Some(Error::FrameLengthOutOfRange { len: le32(raw, 4) }),
        raw.len() >= 20 && le32(raw, 0) == 0x797a_7262 && 20 <= le32(raw, 4) <= 0x80_0000
            && raw.len() < le32(raw, 4) ==> frame_fault(raw) == Some(Error::FrameOverrunsBuffer),
{
    reveal(frame_intact);
}

/// What a frame that is read says: its length and its sequence, and the payload between the header
/// and the hash.
pub proof fn law_frame_read(raw: Seq<u8>, offset: int)
    ensures
        frame_at(raw, offset).offset == offset,
        frame_at(raw, offset).len == le32(raw, 4),
        frame_at(raw, offset).seq == le64(raw, 8),
        frame_at(raw, offset).payload == raw.subrange(16, le32(raw, 4) - 4),
{
    reveal(frame_at);
}

// -- transactions ------------------------------------------------------------------------

/// A transaction is its length, its two sequences, its data, and the hash of all of that: of every
/// byte before the hash, however long the data is.
pub proof fn law_transaction_layout(min_seq: u64, max_seq: u64, data: Seq<u8>)
    requires
        data.len() + 24 <= u32::MAX,
    ensures
        ({
            let b = txn_bytes(min_seq, max_seq, data);
            let end = 20 + data.len() as int;
            &&& b.len() == end + 4
            &&& le32(b, 0) == b.len()
            &&& le64(b, 4) == min_seq
            &&& le64(b, 12) == max_seq
            &&& b.subrange(20, end) == data
            &&& le32(b, end) == crc32c_of(b.take(end))
        }),
{
    reveal(txn_intact);
    let b = txn_bytes(min_seq, max_seq, data);
    law_transaction_round_trip(min_seq, max_seq, data, Seq::empty());
    assert(b + Seq::<u8>::empty() =~= b);
}

/// Some bytes begin with an intact transaction if and only if they hold as many bytes as the length
/// says, which is 24 at least, and the last four of these are the hash of all of those before them.
pub proof fn law_transaction_accepted(src: Seq<u8>)
    ensures
        txn_intact(src) <==> txn_fault(src) is None,
        txn_fault(src) is None <==> {
            &&& src.len() >= 24
            &&& 24 <= le32(src, 0) <= src.len()
            &&& le32(src, le32(src, 0) - 4) == crc32c_of(src.take(le32(src, 0) - 4))
        },
        src.len() < 24 ==> txn_fault(src) == Some(Error::TransactionTooShort),
        src.len() >= 24 && le32(src, 0) < 24 ==> txn_fault(src) == Some(
            Error::FrameLengthOutOfRange { len: le32(src, 0) },
        ),
        24 <= src.len() < le32(src, 0) ==> txn_fault(src) == Some(Error::FrameOverrunsBuffer),
        src.len() >= 24 && 24 <= le32(src, 0) <= src.len() && txn_fault(src) is Some
            ==> txn_fault(src) == Some(Error::FrameCorrupted),
{
    reveal(txn_intact);
}

/// What an open transaction has so far, by the bytes of its buffer.
pub proof fn law_transaction_holds(t: Transaction, min_seq: u64, max_seq: u64, data: Seq<u8>)
    ensures
        t.holds(min_seq, max_seq, data) <==> {
            &&& t.used() == 20 + data.len()
            &&& t.raw().len() >= t.used()
            &&& le64(t.raw(), 4) == min_seq
            &&& le64(t.raw(), 12) == max_seq
            &&& t.raw().subrange(20, 20 + data.len() as int) == data
        },
        t.bytes() == t.raw().take(t.used() as int),
{
    let marks = le64_bytes(min_seq) + le64_bytes(max_seq);
    if t.used() == 20 + data.len() && t.raw().len() >= t.used() {
        let b = t.bytes();
        assert(b.skip(20) =~= t.raw().subrange(20, 20 + data.len() as int));
        if b.subrange(4, 20) == marks {
            assert(t.raw().subrange(4, 12) =~= b.subrange(4, 20).take(8));
            assert(t.raw().subrange(12, 20) =~= b.subrange(4, 20).skip(8));
            assert(marks.take(8) =~= le64_bytes(min_seq));
            assert(marks.skip(8) =~= le64_bytes(max_seq));
            lemma_le64_of_bytes(t.raw(), 4, min_seq);
            lemma_le64_of_bytes(t.raw(), 12, max_seq);
        }
        if le64(t.raw(), 4) == min_seq && le64(t.raw(), 12) == max_seq {
            law_integers_unique(t.raw(), 4);
            law_integers_unique(t.raw(), 12);
            assert(b.subrange(4, 20) =~= t.raw().subrange(4, 12) + t.raw().subrange(12, 20));
        }
    }
}

/// Adding to a transaction lowers its smallest sequence and raises its largest one as far as it
/// takes, and touches nothing else of the header.
pub proof fn law_sequences_widen(raw: Seq<u8>, seq: u64)
    requires
        raw.len() >= 20,
    ensures
        le64(with_min(raw, seq), 4) == min(le64(raw, 4) as int, seq as int),
        le64(with_max(raw, seq), 12) == max(le64(raw, 12) as int, seq as int),
        with_min(raw, seq).len() == raw.len(),
        with_max(raw, seq).len() == raw.len(),
        forall|i: int|
            0 <= i < raw.len() && !(4 <= i < 12) ==> #[trigger] with_min(raw, seq)[i] == raw[i],
        forall|i: int|
            0 <= i < raw.len() && !(12 <= i < 20) ==> #[trigger] with_max(raw, seq)[i] == raw[i],
{
    if seq < le64(raw, 4) {
        assert(with_min(raw, seq).subrange(4, 12) =~= le64_bytes(seq));
        lemma_le64_of_bytes(with_min(raw, seq), 4, seq);
    }
    if seq > le64(raw, 12) {
        assert(with_max(raw, seq).subrange(12, 20) =~= le64_bytes(seq));
        lemma_le64_of_bytes(with_max(raw, seq), 12, seq);
    }
}

/// A buffer that is too short gets zeros behind what it has; no buffer gets shorter.
pub proof fn law_stretched(raw: Seq<u8>, len: int)
    ensures
        stretched(raw, len).len() == max(raw.len() as int, len),
        stretched(raw, len).take(raw.len() as int) == raw,
        forall|i: int| raw.len() <= i < len ==> #[trigger] stretched(raw, len)[i] == 0,
{
    assert(stretched(raw, len).take(raw.len() as int) =~= raw);
}

// -- frames of 64 KiB --------------------------------------------------------------------

/// A sealed frame has its header and its data as they were, and a trailer: the hash of all 65504
/// bytes before it, 12 zeros, and the two write sequences.
pub proof fn law_sealed_frame_layout(frame: Seq<u8>, min_seq: u64, max_seq: u64)
    requires
        frame.len() == 65536,
    ensures
        ({
            let s = sealed_frame(frame, min_seq, max_seq);
            &&& s.len() == 65536
            &&& s.take(65504) == frame.take(65504)
            &&& le32(s, 65504) == crc32c_of(s.take(65504))
            &&& forall|i: int| 65508 <= i < 65520 ==> #[trigger] s[i] == 0
            &&& le64(s, 65520) == min_seq
            &&& le64(s, 65528) == max_seq
        }),
{
    law_seal(frame, min_seq, max_seq);
}

/// A frame passes the check if and only if it begins with `F` and its stored hash is that of all
/// 65504 bytes before the trailer.
pub proof fn law_frame_passes(frame: Seq<u8>)
    ensures
        frame_check(frame) is Ok <==> frame[0] == 0x46 && le32(frame, 65504) == crc32c_of(
            frame.take(65504),
        ),
        frame[0] != 0x46 ==> frame_check(frame) == Err::<(), Error>(Error::BlockMagicMismatch),
        frame[0] == 0x46 && le32(frame, 65504) != crc32c_of(frame.take(65504)) ==> frame_check(
            frame,
        ) == Err::<(), Error>(Error::BlockHashMismatch),
{
}

/// An open frame is `F`, its index, its sequence and its record length, and zeros up to its end.
pub proof fn law_open_frame_layout(idx: u64, seq: u64, record_len: u64, len: int)
    requires
        len >= 25,
    ensures
        ({
            let f = opened_frame(idx, seq, record_len, len);
            &&& f.len() == len
            &&& f[0] == 0x46
            &&& le64(f, 1) == idx
            &&& le64(f, 9) == seq
            &&& le64(f, 17) == record_len
            &&& forall|i: int| 25 <= i < len ==> #[trigger] f[i] == 0
            &&& frame_header(idx, seq, record_len) == f.take(25)
        }),
{
    law_open_frame(idx, seq, record_len, len);
    let header = frame_header(idx, seq, record_len);
    assert(header =~= opened_frame(idx, seq, record_len, len).take(25));
}

/// A trailer is the hash that it was made with, 12 zeros, and the two write sequences.
pub proof fn law_trailer_layout(hash: u32, min_seq: u64, max_seq: u64)
    ensures
        ({
            let t = frame_trailer(hash, min_seq, max_seq);
            &&& t.len() == 32
            &&& le32(t, 0) == hash
            &&& forall|i: int| 4 <= i < 16 ==> #[trigger] t[i] == 0
            &&& le64(t, 16) == min_seq
            &&& le64(t, 24) == max_seq
        }),
{
    let t = frame_trailer(hash, min_seq, max_seq);
    assert(t.subrange(0, 4) =~= le32_bytes(hash));
    lemma_le32_of_bytes(t, 0, hash);
    assert(t.subrange(16, 24) =~= le64_bytes(min_seq));
    lemma_le64_of_bytes(t, 16, min_seq);
    assert(t.subrange(24, 32) =~= le64_bytes(max_seq));
    lemma_le64_of_bytes(t, 24, max_seq);
}

// -- records -----------------------------------------------------------------------------

/// A record is its length, the type 1, its two sequences and its data, and nothing else.
pub proof fn law_record_layout(r: plain::RecordView)
    ensures
        ({
            let b = plain::record_bytes(r);
            &&& b.len() == 21 + r.data.len()
            &&& le32(b, 0) == r.len
            &&& b[4] == 1
            &&& le64(b, 5) == r.seq
            &&& le64(b, 13) == r.schema_seq
            &&& b.skip(21) == r.data
        }),
{
    let b = plain::record_bytes(r);
    assert(b.subrange(0, 4) =~= le32_bytes(r.len));
    lemma_le32_of_bytes(b, 0, r.len);
    assert(b.subrange(5, 13) =~= le64_bytes(r.seq));
    lemma_le64_of_bytes(b, 5, r.seq);
    assert(b.subrange(13, 21) =~= le64_bytes(r.schema_seq));
    lemma_le64_of_bytes(b, 13, r.schema_seq);
    assert(b.skip(21) =~= r.data);
}

/// Some bytes are a record if and only if there are 21 at least and as many as the length says, and
/// the type is 1. The record then has what stands at the offsets.
pub proof fn law_record_accepted(src: Seq<u8>)
    ensures
        plain::record_of(src) is Ok <==> src.len() >= 21 && src[4] == 1 && le32(src, 0)
            == src.len(),
        plain::record_of(src) is Ok ==> {
            let r = plain::record_of(src)->Ok_0;
            &&& r.len == src.len()
            &&& r.seq == le64(src, 5)
            &&& r.schema_seq == le64(src, 13)
            &&& r.data == src.skip(21)
        },
        src.len() < 21 ==> plain::record_of(src) == Err::<plain::RecordView, Error>(
            Error::RecordTooShort,
        ),
        src.len() >= 21 && src[4] != 1 ==> plain::record_of(src) == Err::<plain::RecordView, Error>(
            Error::NotARecord,
        ),
        src.len() >= 21 && src[4] == 1 && le32(src, 0) != src.len() ==> plain::record_of(src)
            == Err::<plain::RecordView, Error>(Error::RecordLengthWrong),
{
}

/// The header of a transaction's record: the fields stand at fixed offsets of its 31 bytes.
pub proof fn law_record_header_layout(src: Seq<u8>)
    ensures
        header_of(src).magic == src[0],
        header_of(src).len == le32(src, 1),
        header_of(src).seq == le64(src, 5),
        header_of(src).txn == le64(src, 13),
        header_of(src).txn_cnt == le16(src, 21),
        header_of(src).schema_seq == le64(src, 23),
{
}

/// A transaction's record is its header, its data, and the hash of both: of every byte before the
/// hash, however long the data is.
pub proof fn law_sealed_record_layout(h: RecordHeader, data: Seq<u8>)
    ensures
        ({
            let b = record_bytes(h, data);
            let end = 31 + data.len() as int;
            &&& b.len() == end + 4
            &&& b[0] == h.magic
            &&& le32(b, 1) == h.len
            &&& le64(b, 5) == h.seq
            &&& le64(b, 13) == h.txn
            &&& le16(b, 21) == h.txn_cnt
            &&& le64(b, 23) == h.schema_seq
            &&& b.subrange(31, end) == data
            &&& le32(b, end) == crc32c_of(b.take(end))
        }),
{
    let body = header_bytes(h) + data;
    let seal = le32_bytes(crc32c_of(body));
    let b = record_bytes(h, data);
    let end = 31 + data.len() as int;
    law_record_header_round_trip(h, data + seal);
    lemma_hashed_part(h, data);
    assert(b =~= header_bytes(h) + (data + seal));
    law_record_header_layout(b);
    assert(b.subrange(31, end) =~= data);
    assert(b.subrange(end, end + 4) =~= seal);
    lemma_le32_of_bytes(b, end, crc32c_of(body));
}

/// What is before the hash of a record.
proof fn lemma_hashed_part(h: RecordHeader, data: Seq<u8>)
    ensures
        record_bytes(h, data).take(31 + data.len() as int) == header_bytes(h) + data,
{
    let body = header_bytes(h) + data;
    assert(header_bytes(h).len() == 31);
    assert(record_bytes(h, data).take(body.len() as int) =~= body);
}

} // verus!
