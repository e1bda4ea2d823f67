//! One record: `[u32 len][u8 type][u64 seq][u64 schema_seq][data]`.

use crate::data::util::{
    copy_slice_at, u32_first_chunk, u32_write_at, u64_first_chunk, u64_write_at, u8_first_chunk,
    u8_write_at,
};
use crate::error::Error;
use crate::le::{
    le32, le32_bytes, le64, le64_bytes, lemma_le32_of_bytes, lemma_le64_of_bytes, splice,
};
use vstd::prelude::*;

verus! {

#[derive(Clone, Copy, Debug)]
pub struct Record<'a> {
    len: u32,
    seq: u64,
    schema_seq: u64,
    data: &'a [u8],
}

/// What a record says.
#[verifier::ext_equal]
pub struct RecordView {
    pub len: u32,
    pub seq: u64,
    pub schema_seq: u64,
    pub data: Seq<u8>,
}

/// The bytes of a record.
pub open spec fn record_bytes(r: RecordView) -> Seq<u8> {
    le32_bytes(r.len) + seq![Record::TYPE] + le64_bytes(r.seq) + le64_bytes(r.schema_seq) + r.data
}

/// The record that some bytes hold, or why they hold none.
pub open spec fn record_of(src: Seq<u8>) -> Result<RecordView, Error> {
    if src.len() < Record::HEADER_SIZE {
        Err(Error::RecordTooShort)
    } else if src[4] != Record::TYPE {
        Err(Error::NotARecord)
    } else if src.len() != le32(src, 0) {
        Err(Error::RecordLengthWrong)
    } else {
        Ok(
            RecordView {
                len: le32(src, 0),
                seq: le64(src, 5),
                schema_seq: le64(src, 13),
                data: src.skip(21),
            },
        )
    }
}

/// A record that was encoded is decoded as that record.
pub proof fn law_record_round_trip(r: RecordView)
    requires
        r.len == Record::HEADER_SIZE + r.data.len(),
    ensures
        record_of(record_bytes(r)) == Ok::<RecordView, Error>(r),
{
    let b = record_bytes(r);
    assert(b.len() == 21 + r.data.len());
    assert(b.subrange(0, 4) =~= le32_bytes(r.len));
    lemma_le32_of_bytes(b, 0, r.len);
    assert(b[4] == Record::TYPE);
    assert(b.subrange(5, 13) =~= le64_bytes(r.seq));
    lemma_le64_of_bytes(b, 5, r.seq);
    assert(b.subrange(13, 21) =~= le64_bytes(r.schema_seq));
    lemma_le64_of_bytes(b, 13, r.schema_seq);
    assert(b.skip(21) =~= r.data);
}

impl<'a> View for Record<'a> {
    type V = RecordView;

    closed spec fn view(&self) -> RecordView {
        RecordView {
            len: self.len,
            seq: self.seq,
            schema_seq: self.schema_seq,
            data: self.data@,
        }
    }
}

impl<'a> Default for Record<'a> {
    fn default() -> (record: Record<'a>)
        ensures
            record@ == (RecordView { len: 0, seq: 0, schema_seq: 0, data: Seq::empty() }),
            record.wf(),
    {
        let record = Record { len: 0, seq: 0, schema_seq: 0, data: &[] };
        assert(record@.data =~= Seq::empty());
        record
    }
}

impl<'a> Record<'a> {
    pub const HEADER_SIZE: usize = 21;

    pub const MAX_SIZE: usize = 4 << 20;

    pub const TYPE: u8 = 1;

    /// A record with its header fits in memory.
    pub open spec fn wf(&self) -> bool {
        Record::HEADER_SIZE + self@.data.len() <= usize::MAX
    }

    /// A record of `data`, which with the header must not pass the largest size.
    pub fn new(seq: u64, schema_seq: u64, data: &'a [u8]) -> (record: Result<Record<'a>, Error>)
        ensures
            match record {
                Ok(record) => {
                    &&& data@.len() + Record::HEADER_SIZE <= Record::MAX_SIZE
                    &&& record.wf()
                    &&& record@ == (RecordView {
                        len: (data@.len() + Record::HEADER_SIZE) as u32,
                        seq,
                        schema_seq,
                        data: data@,
                    })
                },
                Err(e) => data@.len() + Record::HEADER_SIZE > Record::MAX_SIZE && e
                    == Error::PayloadTooBig,
            },
    {
        assert(4usize << 20 == 4_194_304) by (bit_vector);
        if data.len() > Record::MAX_SIZE - Record::HEADER_SIZE {
            return Err(Error::PayloadTooBig);
        }
        let record_len: usize = data.len() + Record::HEADER_SIZE;
        Ok(Record { len: record_len as u32, seq, schema_seq, data })
    }

    /// How many bytes the record takes.
    pub fn size(&self) -> (size: usize)
        requires
            self.wf(),
        ensures
            size == self@.data.len() + Record::HEADER_SIZE,
            size == record_bytes(self@).len(),
    {
        self.data.len() + Record::HEADER_SIZE
    }

    /// The record that `src` holds.
    pub fn decode(src: &'a [u8]) -> (record: Result<Record<'a>, Error>)
        ensures
            match record_of(src@) {
                Ok(r) => record is Ok && record->Ok_0@ == r && record->Ok_0.wf(),
                Err(e) => record == Err::<Record<'a>, Error>(e),
            },
    {
        if src.len() < Record::HEADER_SIZE {
            return Err(Error::RecordTooShort);
        }
        let (len, rest) = u32_first_chunk(src);
        let (typ, rest) = u8_first_chunk(rest);
        if typ != Record::TYPE {
            return Err(Error::NotARecord);
        }
        let ghost tail = rest@;
        let (seq, rest) = u64_first_chunk(rest);
        let (schema_seq, data) = u64_first_chunk(rest);
        proof {
            assert(tail =~= src@.subrange(5, src@.len() as int));
            assert(data@ =~= src@.skip(21));
        }
        if (len as usize) < Record::HEADER_SIZE || data.len() != len as usize
            - Record::HEADER_SIZE {
            return Err(Error::RecordLengthWrong);
        }
        Ok(Record { len, seq, schema_seq, data })
    }

    /// Writes the record to the front of `t` and returns how many bytes that took.
    pub fn encode(&self, t: &mut [u8]) -> (written: Result<usize, Error>)
        requires
            self.wf(),
        ensures
            match written {
                Ok(n) => {
                    &&& n == record_bytes(self@).len()
                    &&& n <= old(t)@.len()
                    &&& final(t)@ == splice(old(t)@, 0, record_bytes(self@))
                },
                Err(e) => {
                    &&& e == Error::NoSpaceForRecord
                    &&& record_bytes(self@).len() > old(t)@.len()
                    &&& final(t)@ == old(t)@
                },
            },
    {
        if t.len() < self.size() {
            return Err(Error::NoSpaceForRecord);
        }
        let mut pos: usize = 0;
        pos += u32_write_at(t, pos, self.len);
        pos += u8_write_at(t, pos, Record::TYPE);
        pos += u64_write_at(t, pos, self.seq);
        pos += u64_write_at(t, pos, self.schema_seq);
        pos += copy_slice_at(t, pos, self.data);
        assert(t@ =~= splice(old(t)@, 0, record_bytes(self@)));
        Ok(pos)
    }
}

} // verus!
