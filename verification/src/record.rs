//! Records that belong to a transaction:
//! `[u8 magic][u32 len][u64 seq][u64 txn][u16 txn_cnt][u64 schema_seq][data][u32 hash]`.

use crate::checksum::{crc32c, crc32c_of};
use crate::data::util::{
    copy_slice_at, u16_from_pos, u16_write_at, u32_from_pos, u32_write_at, u64_from_pos,
    u64_write_at,
};
use crate::error::Error;
use crate::le::{
    le16, le16_bytes, le32, le32_bytes, le64, le64_bytes, lemma_le16_of_bytes,
    lemma_le32_of_bytes, lemma_le64_of_bytes, splice,
};
use vstd::prelude::*;

verus! {

#[derive(Debug)]
pub struct RecordHeader {
    pub magic: u8,
    pub len: u32,
    pub seq: u64,
    pub txn: u64,
    pub txn_cnt: u16,
    pub schema_seq: u64,
}

/// The bytes of a record header.
pub open spec fn header_bytes(h: RecordHeader) -> Seq<u8> {
    seq![h.magic] + le32_bytes(h.len) + le64_bytes(h.seq) + le64_bytes(h.txn) + le16_bytes(
        h.txn_cnt,
    ) + le64_bytes(h.schema_seq)
}

/// The record header that some bytes begin with.
pub open spec fn header_of(src: Seq<u8>) -> RecordHeader {
    RecordHeader {
        magic: src[0],
        len: le32(src, 1),
        seq: le64(src, 5),
        txn: le64(src, 13),
        txn_cnt: le16(src, 21),
        schema_seq: le64(src, 23),
    }
}

/// A header that was written is read back as that header, whatever follows it.
pub proof fn law_record_header_round_trip(h: RecordHeader, tail: Seq<u8>)
    ensures
        header_bytes(h).len() == RecordHeader::HEADER_SIZE,
        header_of(header_bytes(h) + tail) == h,
{
    let b = header_bytes(h) + tail;
    assert(header_bytes(h).len() == 31);
    assert(b[0] == h.magic);
    assert(b.subrange(1, 5) =~= le32_bytes(h.len));
    lemma_le32_of_bytes(b, 1, h.len);
    assert(b.subrange(5, 13) =~= le64_bytes(h.seq));
    lemma_le64_of_bytes(b, 5, h.seq);
    assert(b.subrange(13, 21) =~= le64_bytes(h.txn));
    lemma_le64_of_bytes(b, 13, h.txn);
    assert(b.subrange(21, 23) =~= le16_bytes(h.txn_cnt));
    lemma_le16_of_bytes(b, 21, h.txn_cnt);
    assert(b.subrange(23, 31) =~= le64_bytes(h.schema_seq));
    lemma_le64_of_bytes(b, 23, h.schema_seq);
}

impl RecordHeader {
    pub const HEADER_SIZE: usize = 31;

    /// The header that `src` begins with.
    pub fn from_slice(src: &[u8]) -> (header: Result<RecordHeader, Error>)
        ensures
            header == if src@.len() < RecordHeader::HEADER_SIZE {
                Err::<RecordHeader, Error>(Error::NoStorageSpace)
            } else {
                Ok(header_of(src@))
            },
    {
        if src.len() < RecordHeader::HEADER_SIZE {
            return Err(Error::NoStorageSpace);
        }
        Ok(
            RecordHeader {
                magic: src[0],
                len: u32_from_pos(src, 1),
                seq: u64_from_pos(src, 5),
                txn: u64_from_pos(src, 13),
                txn_cnt: u16_from_pos(src, 21),
                schema_seq: u64_from_pos(src, 23),
            },
        )
    }

    /// Writes the header to the front of `target` and returns how many bytes that took.
    pub fn write(&self, target: &mut [u8]) -> (written: Result<usize, Error>)
        ensures
            match written {
                Ok(n) => {
                    &&& n == RecordHeader::HEADER_SIZE
                    &&& n <= old(target)@.len()
                    &&& final(target)@ == splice(old(target)@, 0, header_bytes(*self))
                },
                Err(e) => {
                    &&& e == Error::NoStorageSpace
                    &&& old(target)@.len() < RecordHeader::HEADER_SIZE
                    &&& final(target)@ == old(target)@
                },
            },
    {
        if target.len() < RecordHeader::HEADER_SIZE {
            return Err(Error::NoStorageSpace);
        }
        target[0] = self.magic;
        u32_write_at(target, 1, self.len);
        u64_write_at(target, 5, self.seq);
        u64_write_at(target, 13, self.txn);
        u16_write_at(target, 21, self.txn_cnt);
        u64_write_at(target, 23, self.schema_seq);
        proof {
            assert(header_bytes(*self).len() == 31);
            assert(target@ =~= splice(old(target)@, 0, header_bytes(*self)));
        }
        Ok(RecordHeader::HEADER_SIZE)
    }
}

#[derive(Debug)]
pub struct Record<'a> {
    pub header: RecordHeader,
    pub data: &'a [u8],
    pub hash: u32,
}

/// The bytes of a record: its header and its data, and the hash of both.
pub open spec fn record_bytes(h: RecordHeader, data: Seq<u8>) -> Seq<u8> {
    let body = header_bytes(h) + data;
    body + le32_bytes(crc32c_of(body))
}

/// A record that was written is read back as that record, sealed with the hash of its header and
/// its data.
pub proof fn law_record_round_trip(h: RecordHeader, data: Seq<u8>)
    requires
        h.len == data.len(),
    ensures
        ({
            let b = record_bytes(h, data);
            &&& b.len() == RecordHeader::HEADER_SIZE + data.len() + Record::HASH_SIZE
            &&& header_of(b) == h
            &&& b.subrange(31, 31 + h.len) == data
            &&& le32(b, 31 + h.len) == crc32c_of(header_bytes(h) + data)
        }),
{
    let body = header_bytes(h) + data;
    let seal = le32_bytes(crc32c_of(body));
    let b = record_bytes(h, data);
    law_record_header_round_trip(h, data + seal);
    assert(b =~= header_bytes(h) + (data + seal));
    assert(b.subrange(31, 31 + h.len) =~= data);
    assert(b.subrange(31 + h.len, 35 + h.len) =~= seal);
    lemma_le32_of_bytes(b, 31 + h.len, crc32c_of(body));
}

impl<'a> Record<'a> {
    pub const RECORD_MAGIC: u8 = 0x52;

    pub const HASH_SIZE: usize = 4;

    /// A record of `data`, not sealed yet.
    pub fn new(seq: u64, txn: u64, txn_cnt: u16, schema_seq: u64, data: &'a [u8]) -> (record:
        Record<'a>)
        ensures
            record.header == (RecordHeader {
                magic: Record::RECORD_MAGIC,
                len: data@.len() as u32,
                seq,
                txn,
                txn_cnt,
                schema_seq,
            }),
            record.data@ == data@,
            record.hash == 0,
    {
        Record {
            header: RecordHeader {
                magic: Record::RECORD_MAGIC,
                len: #[verifier::truncate] (data.len() as u32),
                seq,
                txn,
                txn_cnt,
                schema_seq,
            },
            data,
            hash: 0,
        }
    }

    /// How many bytes the record takes.
    pub fn total_len(&self) -> (len: usize)
        requires
            self.data@.len() + RecordHeader::HEADER_SIZE + Record::HASH_SIZE <= usize::MAX,
        ensures
            len == self.data@.len() + RecordHeader::HEADER_SIZE + Record::HASH_SIZE,
            len == record_bytes(self.header, self.data@).len(),
    {
        proof {
            assert(header_bytes(self.header).len() == 31);
        }
        RecordHeader::HEADER_SIZE + self.data.len() + Record::HASH_SIZE
    }

    /// The record that `src` begins with. Its hash is read, not checked.
    pub fn from_slice(src: &'a [u8]) -> (record: Result<Record<'a>, Error>)
        requires
            src@.len() >= RecordHeader::HEADER_SIZE,
        ensures
            ({
                let h = header_of(src@);
                match record {
                    Ok(record) => {
                        &&& src@.len() >= 35 + h.len
                        &&& record.header == h
                        &&& record.data@ == src@.subrange(31, 31 + h.len)
                        &&& record.hash == le32(src@, 31 + h.len)
                    },
                    Err(e) => src@.len() < 35 + h.len && e == Error::NoStorageSpace,
                }
            }),
    {
        let header = match RecordHeader::from_slice(src) {
            Ok(header) => header,
            Err(e) => {
                return Err(e);
            },
        };
        let rest: usize = src.len() - RecordHeader::HEADER_SIZE;
        if rest < Record::HASH_SIZE || rest - Record::HASH_SIZE < header.len as usize {
            return Err(Error::NoStorageSpace);
        }
        let end: usize = RecordHeader::HEADER_SIZE + header.len as usize;
        let data = &src[RecordHeader::HEADER_SIZE..end];
        let hash: u32 = u32_from_pos(src, end);
        Ok(Record { header, data, hash })
    }

    /// Writes the record, sealed, to the front of `target` and returns how many bytes that took.
    pub fn write(&self, target: &mut [u8]) -> (written: Result<usize, Error>)
        requires
            self.data@.len() + RecordHeader::HEADER_SIZE + Record::HASH_SIZE <= usize::MAX,
        ensures
            match written {
                Ok(n) => {
                    &&& n == record_bytes(self.header, self.data@).len()
                    &&& n <= old(target)@.len()
                    &&& final(target)@ == splice(
                        old(target)@,
                        0,
                        record_bytes(self.header, self.data@),
                    )
                },
                Err(e) => {
                    &&& e == Error::NoStorageSpace
                    &&& old(target)@.len() < record_bytes(self.header, self.data@).len()
                    &&& final(target)@ == old(target)@
                },
            },
    {
        let rec_len: usize = self.total_len();
        if target.len() < rec_len {
            return Err(Error::NoStorageSpace);
        }
        let mut pos: usize = 0;
        pos += match self.header.write(target) {
            Ok(n) => n,
            Err(e) => {
                return Err(e);
            },
        };
        pos += copy_slice_at(target, pos, self.data);
        let ghost body = header_bytes(self.header) + self.data@;
        assert(header_bytes(self.header).len() == 31);
        assert(target@.subrange(0, pos as int) =~= body);
        let hash: u32 = crc32c(&target[0..pos]);
        pos += u32_write_at(target, pos, hash);
        assert(target@ =~= splice(old(target)@, 0, record_bytes(self.header, self.data@)));
        Ok(pos)
    }
}

} // verus!
