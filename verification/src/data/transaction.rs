//! Transactions: `[u32 len][u64 min_seq][u64 max_seq][data][u32 hash]`.
//!
//! A transaction is one frame of a log. Its data can be any number of records.

use crate::calls::{all_calls, callable_with, Calls, Noted};
use crate::checksum::{crc32c, crc32c_of};
use crate::data::util::{
    copy_slice_at, u32_first_chunk, u32_last_chunk, u32_write_at, u64_from_pos, u64_write_at,
};
use crate::error::Error;
use crate::le::{
    le32, le32_bytes, le64, le64_bytes, lemma_le32_of_bytes, lemma_le64_of_bytes, splice,
};
use crate::storage::{read_from, Reader};
use vstd::prelude::*;

verus! {

#[derive(Debug)]
pub struct Transaction {
    len: usize,
    buf: Vec<u8>,
}

/// The header and the data of a transaction.
pub open spec fn txn_body(min_seq: u64, max_seq: u64, data: Seq<u8>) -> Seq<u8> {
    le32_bytes((data.len() + 24) as u32) + le64_bytes(min_seq) + le64_bytes(max_seq) + data
}

/// The bytes of a transaction.
pub open spec fn txn_bytes(min_seq: u64, max_seq: u64, data: Seq<u8>) -> Seq<u8> {
    let body = txn_body(min_seq, max_seq, data);
    body + le32_bytes(crc32c_of(body))
}

/// What is wrong with the transaction that some bytes begin with, if anything is.
pub open spec fn txn_fault(src: Seq<u8>) -> Option<Error> {
    if src.len() < Transaction::MIN_SIZE {
        Some(Error::TransactionTooShort)
    } else if le32(src, 0) < Transaction::MIN_SIZE {
        Some(Error::FrameLengthOutOfRange { len: le32(src, 0) })
    } else if src.len() < le32(src, 0) {
        Some(Error::FrameOverrunsBuffer)
    } else if le32(src, le32(src, 0) - 4) != crc32c_of(src.take(le32(src, 0) - 4)) {
        Some(Error::FrameCorrupted)
    } else {
        None
    }
}

/// Some bytes begin with an intact transaction.
#[verifier::opaque]
pub open spec fn txn_intact(src: Seq<u8>) -> bool {
    txn_fault(src) is None
}

/// A buffer made longer, if need be, by zeros.
pub open spec fn stretched(raw: Seq<u8>, len: int) -> Seq<u8> {
    if len > raw.len() {
        raw + Seq::new((len - raw.len()) as nat, |i: int| 0u8)
    } else {
        raw
    }
}

/// A buffer whose smallest sequence is at most `seq`.
pub open spec fn with_min(raw: Seq<u8>, seq: u64) -> Seq<u8> {
    if seq < le64(raw, 4) {
        splice(raw, 4, le64_bytes(seq))
    } else {
        raw
    }
}

/// A buffer whose largest sequence is at least `seq`.
pub open spec fn with_max(raw: Seq<u8>, seq: u64) -> Seq<u8> {
    if seq > le64(raw, 12) {
        splice(raw, 12, le64_bytes(seq))
    } else {
        raw
    }
}

impl Default for Transaction {
    fn default() -> (txn: Transaction)
        ensures
            txn.used() == 0,
            txn.raw() == Seq::<u8>::empty(),
    {
        let txn = Transaction { len: 0, buf: Vec::new() };
        assert(txn.raw() =~= Seq::<u8>::empty());
        txn
    }
}

impl Transaction {
    pub const HEADER_LEN: usize = 20;

    pub const HASH_SIZE: usize = 4;

    pub const MIN_SIZE: usize = 24;

    /// The largest record and the least that a transaction takes.
    pub const MAX_SIZE: usize = 0x40_0018;

    /// The whole buffer.
    pub closed spec fn raw(&self) -> Seq<u8> {
        self.buf@
    }

    /// How many bytes of the buffer the transaction takes so far.
    pub closed spec fn used(&self) -> nat {
        self.len as nat
    }

    /// The bytes of the transaction so far.
    pub open spec fn bytes(&self) -> Seq<u8> {
        self.raw().take(self.used() as int)
    }

    /// The buffer holds at least a header, and all of what is used.
    pub open spec fn wf(&self) -> bool {
        &&& self.raw().len() >= Transaction::HEADER_LEN
        &&& self.used() <= self.raw().len()
    }

    /// The transaction is open, and so far has these sequences and this data.
    pub open spec fn holds(&self, min_seq: u64, max_seq: u64, data: Seq<u8>) -> bool {
        &&& self.wf()
        &&& self.used() == Transaction::HEADER_LEN + data.len()
        &&& self.bytes().subrange(4, 20) == le64_bytes(min_seq) + le64_bytes(max_seq)
        &&& self.bytes().skip(20) == data
    }

    /// A transaction that is not open yet, with room for twice the largest size.
    pub fn new() -> (txn: Transaction)
        ensures
            txn.wf(),
            txn.used() == 0,
            txn.raw() == Seq::new(2 * Transaction::MAX_SIZE as nat, |i: int| 0u8),
    {
        let buf: Vec<u8> = vec![0u8;2 * Transaction::MAX_SIZE];
        assert(buf@ =~= Seq::new(2 * Transaction::MAX_SIZE as nat, |i: int| 0u8));
        Transaction { len: 0, buf }
    }

    /// Starts anew: an empty transaction, whose sequences take in the first that is added.
    pub fn open(&mut self)
        requires
            old(self).wf(),
        ensures
            final(self).wf(),
            final(self).used() == Transaction::HEADER_LEN,
            final(self).raw() == splice(
                old(self).raw(),
                0,
                le32_bytes(0) + le64_bytes(u64::MAX) + le64_bytes(0),
            ),
            final(self).holds(u64::MAX, 0, Seq::empty()),
    {
        let mut pos: usize = 0;
        let t = self.buf.as_mut_slice();
        pos += u32_write_at(t, pos, 0);
        pos += u64_write_at(t, pos, u64::MAX);
        pos += u64_write_at(t, pos, 0);
        self.len = pos;
        proof {
            let header = le32_bytes(0) + le64_bytes(u64::MAX) + le64_bytes(0);
            assert(self.buf@ =~= splice(old(self).buf@, 0, header));
            assert(self.bytes().subrange(4, 20) =~= le64_bytes(u64::MAX) + le64_bytes(0));
            assert(self.bytes().skip(20) =~= Seq::empty());
        }
    }

    /// The largest sequence, as far as the transaction goes that far.
    pub fn get_max_seq(&self) -> (seq: u64)
        requires
            self.wf(),
        ensures
            seq == le64(self.raw(), 12),
            self.used() >= Transaction::HEADER_LEN ==> seq == le64(self.bytes(), 12),
    {
        u64_from_pos(&self.buf, 12)
    }

    fn set_min_seq(&mut self, seq: u64)
        requires
            old(self).wf(),
        ensures
            final(self).wf(),
            final(self).used() == old(self).used(),
            final(self).raw() == with_min(old(self).raw(), seq),
    {
        if seq < u64_from_pos(&self.buf, 4) {
            u64_write_at(self.buf.as_mut_slice(), 4, seq);
        }
    }

    fn set_max_seq(&mut self, seq: u64)
        requires
            old(self).wf(),
        ensures
            final(self).wf(),
            final(self).used() == old(self).used(),
            final(self).raw() == with_max(old(self).raw(), seq),
    {
        if seq > u64_from_pos(&self.buf, 12) {
            u64_write_at(self.buf.as_mut_slice(), 12, seq);
        }
    }

    /// Adds data whose sequences are those from `seq.0` to `seq.1`.
    pub fn add(&mut self, seq: (u64, u64), data: &[u8])
        requires
            old(self).wf(),
            old(self).used() + data@.len() <= usize::MAX,
        ensures
            final(self).wf(),
            final(self).used() == old(self).used() + data@.len(),
            final(self).raw() == splice(
                with_max(
                    with_min(
                        stretched(old(self).raw(), old(self).used() + data@.len() as int),
                        seq.0,
                    ),
                    seq.1,
                ),
                old(self).used() as int,
                data@,
            ),
            forall|min_seq: u64, max_seq: u64, before: Seq<u8>| #[trigger]
                old(self).holds(min_seq, max_seq, before) ==> final(self).holds(
                    if seq.0 < min_seq {
                        seq.0
                    } else {
                        min_seq
                    },
                    if seq.1 > max_seq {
                        seq.1
                    } else {
                        max_seq
                    },
                    before + data@,
                ),
    {
        let new_size: usize = self.len + data.len();
        if new_size > self.buf.len() {
            self.buf.resize(new_size, 0u8);
        }
        assert(self.buf@ =~= stretched(old(self).buf@, new_size as int));
        let ghost wide = self.buf@;
        self.set_min_seq(seq.0);
        self.set_max_seq(seq.1);
        let ghost marked = self.buf@;
        let at: usize = self.len;
        self.len += copy_slice_at(self.buf.as_mut_slice(), at, data);
        proof {
            assert forall|min_seq: u64, max_seq: u64, before: Seq<u8>| #[trigger]
                old(self).holds(min_seq, max_seq, before) implies self.holds(
                if seq.0 < min_seq {
                    seq.0
                } else {
                    min_seq
                },
                if seq.1 > max_seq {
                    seq.1
                } else {
                    max_seq
                },
                before + data@,
            ) by {
                lemma_added(
                    old(self).buf@,
                    wide,
                    marked,
                    self.buf@,
                    at as int,
                    seq,
                    data@,
                    min_seq,
                    max_seq,
                    before,
                );
            }
        }
    }

    /// Closes the transaction: sets its length, seals it with the hash of what is before the
    /// hash, and returns its bytes.
    pub fn commit(&mut self) -> (bytes: &[u8])
        requires
            old(self).wf(),
            old(self).used() + Transaction::HASH_SIZE <= old(self).raw().len(),
            old(self).used() + Transaction::HASH_SIZE <= u32::MAX,
        ensures
            final(self).wf(),
            final(self).used() == old(self).used() + Transaction::HASH_SIZE,
            ({
                let used = old(self).used() as int;
                let sized = splice(old(self).raw(), 0, le32_bytes((used + 4) as u32));
                final(self).raw() == splice(
                    sized,
                    used,
                    le32_bytes(crc32c_of(sized.take(used))),
                )
            }),
            bytes@ == final(self).bytes(),
            forall|min_seq: u64, max_seq: u64, data: Seq<u8>| #[trigger]
                old(self).holds(min_seq, max_seq, data) ==> bytes@ == txn_bytes(
                    min_seq,
                    max_seq,
                    data,
                ),
    {
        let used: usize = self.len;
        u32_write_at(self.buf.as_mut_slice(), 0, used as u32 + 4);
        let ghost sized = self.buf@;
        let hash: u32 = crc32c(&self.buf[0..used]);
        proof {
            assert(sized.subrange(0, used as int) =~= sized.take(used as int));
            let sealed = splice(sized, used as int, le32_bytes(hash));
            assert forall|min_seq: u64, max_seq: u64, data: Seq<u8>| #[trigger]
                old(self).holds(min_seq, max_seq, data) implies sealed.take(used + 4) == txn_bytes(
                min_seq,
                max_seq,
                data,
            ) by {
                lemma_committed(
                    old(self).buf@,
                    sized,
                    sealed,
                    used as int,
                    min_seq,
                    max_seq,
                    data,
                );
            }
        }
        self.seal(hash)
    }

    /// Puts the hash behind what the transaction has so far, and returns its bytes.
    pub fn seal(&mut self, hash: u32) -> (bytes: &[u8])
        requires
            old(self).wf(),
            old(self).used() + Transaction::HASH_SIZE <= old(self).raw().len(),
        ensures
            final(self).wf(),
            final(self).used() == old(self).used() + Transaction::HASH_SIZE,
            final(self).raw() == splice(
                old(self).raw(),
                old(self).used() as int,
                le32_bytes(hash),
            ),
            bytes@ == final(self).bytes(),
    {
        let used: usize = self.len;
        assert(used + 4 <= self.buf.len());
        self.len += u32_write_at(self.buf.as_mut_slice(), used, hash);
        let len: usize = self.len;
        let bytes = &self.buf[0..len];
        assert(bytes@ =~= self.bytes());
        bytes
    }

    /// How many bytes the transaction takes so far, and how many the buffer has.
    pub fn size(&self) -> (size: (usize, usize))
        ensures
            size == (self.used() as usize, self.raw().len() as usize),
    {
        (self.len, self.buf.len())
    }

    /// The transaction of the first `frame_len` bytes of `src`, if its stored hash is
    /// `computed_hash`.
    pub fn accept(src: &[u8], frame_len: usize, computed_hash: u32) -> (txn: Result<
        Transaction,
        Error,
    >)
        requires
            Transaction::MIN_SIZE <= frame_len <= src@.len(),
        ensures
            if le32(src@, frame_len - 4) != computed_hash {
                txn == Err::<Transaction, Error>(Error::FrameCorrupted)
            } else {
                &&& txn is Ok
                &&& txn->Ok_0.wf()
                &&& txn->Ok_0.used() == frame_len
                &&& txn->Ok_0.raw() == src@.take(frame_len as int)
            },
    {
        let whole = &src[0..frame_len];
        let (_, stored_hash) = u32_last_chunk(whole);
        assert(le32(whole@, frame_len - 4) == le32(src@, frame_len - 4));
        if stored_hash != computed_hash {
            return Err(Error::FrameCorrupted);
        }
        let mut buf: Vec<u8> = Vec::new();
        buf.extend_from_slice(whole);
        assert(buf@ =~= src@.take(frame_len as int));
        Ok(Transaction { len: frame_len, buf })
    }

    /// The transaction that `src` begins with.
    pub fn decode(src: &[u8]) -> (txn: Result<Transaction, Error>)
        ensures
            match txn_fault(src@) {
                Some(e) => txn == Err::<Transaction, Error>(e),
                None => {
                    &&& txn is Ok
                    &&& txn->Ok_0.wf()
                    &&& txn->Ok_0.used() == le32(src@, 0)
                    &&& txn->Ok_0.raw() == src@.take(le32(src@, 0) as int)
                },
            },
            txn is Ok <==> {
                &&& src@.len() >= 24
                &&& 24 <= le32(src@, 0) <= src@.len()
                &&& le32(src@, le32(src@, 0) - 4) == crc32c_of(src@.take(le32(src@, 0) - 4))
            },
    {
        if src.len() < Transaction::MIN_SIZE {
            return Err(Error::TransactionTooShort);
        }
        let (len, _) = u32_first_chunk(src);
        let frame_len: usize = len as usize;
        if frame_len < Transaction::MIN_SIZE {
            return Err(Error::FrameLengthOutOfRange { len });
        }
        if src.len() < frame_len {
            return Err(Error::FrameOverrunsBuffer);
        }
        let computed_hash: u32 = crc32c(&src[0..frame_len - Transaction::HASH_SIZE]);
        assert(src@.subrange(0, frame_len - 4) =~= src@.take(frame_len - 4));
        Transaction::accept(src, frame_len, computed_hash)
    }
}

/// What adding data does to the header and to the data.
#[verifier::spinoff_prover]
#[verifier::rlimit(60)]
proof fn lemma_added(
    start: Seq<u8>,
    wide: Seq<u8>,
    marked: Seq<u8>,
    end: Seq<u8>,
    used: int,
    seq: (u64, u64),
    data: Seq<u8>,
    min_seq: u64,
    max_seq: u64,
    before: Seq<u8>,
)
    requires
        20 <= used <= start.len(),
        used == 20 + before.len(),
        start.take(used).subrange(4, 20) == le64_bytes(min_seq) + le64_bytes(max_seq),
        start.take(used).skip(20) == before,
        wide == stretched(start, used + data.len()),
        marked == with_max(with_min(wide, seq.0), seq.1),
        end == splice(marked, used, data),
    ensures
        ({
            let lo = if seq.0 < min_seq {
                seq.0
            } else {
                min_seq
            };
            let hi = if seq.1 > max_seq {
                seq.1
            } else {
                max_seq
            };
            let after = end.take(used + data.len());
            &&& after.subrange(4, 20) == le64_bytes(lo) + le64_bytes(hi)
            &&& after.skip(20) == before + data
        }),
{
    let old_marks = le64_bytes(min_seq) + le64_bytes(max_seq);
    assert forall|i: int| 4 <= i < 20 implies #[trigger] wide[i] == old_marks[i - 4] by {
        assert(start.take(used).subrange(4, 20)[i - 4] == start[i]);
    }
    assert forall|i: int| 20 <= i < used implies #[trigger] wide[i] == before[i - 20] by {
        assert(start.take(used).skip(20)[i - 20] == start[i]);
    }
    assert(wide.subrange(4, 12) =~= le64_bytes(min_seq));
    lemma_le64_of_bytes(wide, 4, min_seq);
    let first = with_min(wide, seq.0);
    let lo = if seq.0 < min_seq {
        seq.0
    } else {
        min_seq
    };
    let hi = if seq.1 > max_seq {
        seq.1
    } else {
        max_seq
    };
    assert(first.subrange(4, 12) =~= le64_bytes(lo));
    assert(first.subrange(12, 20) =~= le64_bytes(max_seq));
    lemma_le64_of_bytes(first, 12, max_seq);
    assert(marked.subrange(4, 12) =~= first.subrange(4, 12));
    assert(marked.subrange(12, 20) =~= le64_bytes(hi));
    let after = end.take(used + data.len());
    assert(after.subrange(4, 20) =~= marked.subrange(4, 12) + marked.subrange(12, 20));
    assert(after.skip(20) =~= before + data) by {
        assert forall|i: int| 0 <= i < before.len() implies #[trigger] after.skip(20)[i]
            == before[i] by {
            assert(wide[i + 20] == before[i]);
        }
    }
}

/// What a commit makes of the header and the data.
proof fn lemma_committed(
    start: Seq<u8>,
    sized: Seq<u8>,
    end: Seq<u8>,
    used: int,
    min_seq: u64,
    max_seq: u64,
    data: Seq<u8>,
)
    requires
        used == 20 + data.len(),
        used + 4 <= start.len(),
        used + 4 <= u32::MAX,
        start.take(used).subrange(4, 20) == le64_bytes(min_seq) + le64_bytes(max_seq),
        start.take(used).skip(20) == data,
        sized == splice(start, 0, le32_bytes((used + 4) as u32)),
        end == splice(sized, used, le32_bytes(crc32c_of(sized.take(used)))),
    ensures
        end.take(used + 4) == txn_bytes(min_seq, max_seq, data),
{
    let body = txn_body(min_seq, max_seq, data);
    let marks = le64_bytes(min_seq) + le64_bytes(max_seq);
    assert forall|i: int| 0 <= i < used implies #[trigger] sized[i] == body[i] by {
        if 4 <= i < 20 {
            assert(start.take(used).subrange(4, 20)[i - 4] == start[i]);
            assert(marks[i - 4] == body[i]);
        } else if i >= 20 {
            assert(start.take(used).skip(20)[i - 20] == start[i]);
        }
    }
    assert(sized.take(used) =~= body);
    assert(end.take(used + 4) =~= txn_bytes(min_seq, max_seq, data));
}

/// A transaction that was committed is decoded as those bytes, and gives back its sequences and
/// its data, whatever follows it.
pub proof fn law_transaction_round_trip(min_seq: u64, max_seq: u64, data: Seq<u8>, tail: Seq<u8>)
    requires
        data.len() + Transaction::MIN_SIZE <= u32::MAX,
    ensures
        ({
            let bytes = txn_bytes(min_seq, max_seq, data);
            let src = bytes + tail;
            &&& bytes.len() == data.len() + Transaction::MIN_SIZE
            &&& txn_fault(src) is None
            &&& src.take(le32(src, 0) as int) == bytes
            &&& le32(src, 0) == bytes.len()
            &&& le64(src, 4) == min_seq
            &&& le64(src, 12) == max_seq
            &&& src.subrange(20, le32(src, 0) - 4) == data
        }),
{
    let bytes = txn_bytes(min_seq, max_seq, data);
    let src = bytes + tail;
    let body = txn_body(min_seq, max_seq, data);
    let len = data.len() as int + 24;
    assert(body.len() == data.len() + 20);
    assert(src.subrange(0, 4) =~= le32_bytes(len as u32));
    lemma_le32_of_bytes(src, 0, len as u32);
    assert(src.subrange(4, 12) =~= le64_bytes(min_seq));
    lemma_le64_of_bytes(src, 4, min_seq);
    assert(src.subrange(12, 20) =~= le64_bytes(max_seq));
    lemma_le64_of_bytes(src, 12, max_seq);
    assert(src.take(len - 4) =~= body);
    assert(src.subrange(len - 4, len) =~= le32_bytes(crc32c_of(body)));
    lemma_le32_of_bytes(src, len - 4, crc32c_of(body));
    assert(src.take(len) =~= bytes);
    assert(src.subrange(20, len - 4) =~= data);
}

// -- the scan ----------------------------------------------------------------------------

/// A transaction as a scan finds it: its bytes and where they begin.
#[verifier::ext_equal]
pub struct Found {
    pub offset: int,
    pub bytes: Seq<u8>,
}

/// The part of a log that a scan looks at for the transaction at `pos`.
pub open spec fn window(log: Seq<u8>, pos: int) -> Seq<u8> {
    read_from(log, pos, Transaction::MAX_SIZE as int)
}

/// The transaction that some bytes begin with.
#[verifier::opaque]
pub open spec fn txn_at(src: Seq<u8>, offset: int) -> Found {
    Found { offset, bytes: src.take(le32(src, 0) as int) }
}

/// The transactions that a log holds from `pos` on: one after the other, each intact, no larger
/// than the largest size, and with a largest sequence past that of the one before it, which is
/// `last_seq`.
pub open spec fn txns_from(log: Seq<u8>, pos: int, last_seq: u64) -> Seq<Found>
    decreases log.len() - pos,
{
    if pos < 0 || pos >= log.len() || !txn_intact(window(log, pos)) {
        Seq::empty()
    } else {
        let txn = txn_at(window(log, pos), pos);
        let max_seq = le64(txn.bytes, 12);
        if last_seq >= max_seq || txn.bytes.len() == 0 || pos + txn.bytes.len() > log.len() {
            Seq::empty()
        } else {
            seq![txn] + txns_from(log, pos + txn.bytes.len(), max_seq)
        }
    }
}

/// The transactions that a log holds.
pub open spec fn txns_in(log: Seq<u8>) -> Seq<Found> {
    txns_from(log, 0, 0)
}

/// A transaction and its offset are what was found: it is as long as it says, and ends there.
pub open spec fn found_as(given: Transaction, offset: u64, txn: Found) -> bool {
    &&& given.wf()
    &&& given.used() == txn.bytes.len()
    &&& given.raw() == txn.bytes
    &&& given.bytes() == txn.bytes
    &&& offset == txn.offset
}

/// The callback was called with a transaction and returned `out`.
pub open spec fn handed<F>(f: F, txn: Found, out: Result<(), Error>) -> bool
    where F: FnMut(&Transaction, u64) -> Result<(), Error>
{
    exists|given: &Transaction, offset: u64|
        found_as(*given, offset, txn) && #[trigger] call_ensures(f, (given, offset), out)
}

/// The callback may be called with every transaction.
pub open spec fn txns_welcome<F>(f: F) -> bool
    where F: FnMut(&Transaction, u64) -> Result<(), Error>
{
    forall|given: &Transaction, offset: u64| #[trigger]
        callable_with::<F, &Transaction, u64, Result<(), Error>>(f, given, offset)
}

/// The callback got the first `n` transactions and accepted each of them.
pub open spec fn accepted<F>(f: F, txns: Seq<Found>, n: int) -> bool
    where F: FnMut(&Transaction, u64) -> Result<(), Error>
{
    &&& 0 <= n <= txns.len()
    &&& forall|i: int| 0 <= i < n ==> handed(f, #[trigger] txns[i], Ok(()))
}

/// An intact transaction is the same in more of the same bytes.
proof fn lemma_more_bytes(src: Seq<u8>, all: Seq<u8>, offset: int)
    requires
        src.len() <= all.len(),
        src == all.take(src.len() as int),
        txn_intact(src),
    ensures
        txn_intact(all),
        txn_at(all, offset) == txn_at(src, offset),
        24 <= txn_at(src, offset).bytes.len() <= src.len(),
{
    reveal(txn_intact);
    reveal(txn_at);
    let len = le32(src, 0) as int;
    assert forall|i: int| 0 <= i < src.len() implies src[i] == all[i] by {
        assert(src[i] == all.take(src.len() as int)[i]);
    }
    assert(le32(all, 0) == le32(src, 0));
    assert(le32(all, len - 4) == le32(src, len - 4));
    assert(all.take(len - 4) =~= src.take(len - 4));
    assert(all.take(len) =~= src.take(len));
}

/// The next transaction of a log: the scan ends there, or goes on behind it.
proof fn lemma_next_txn(log: Seq<u8>, at: int, last_seq: u64, src: Seq<u8>)
    requires
        0 <= at <= log.len(),
        src.len() <= window(log, at).len(),
        src == window(log, at).take(src.len() as int),
        txn_intact(src),
    ensures
        ({
            let txn = txn_at(src, at);
            let max_seq = le64(txn.bytes, 12);
            &&& 24 <= txn.bytes.len() <= src.len()
            &&& txns_from(log, at, last_seq) == if last_seq >= max_seq {
                Seq::empty()
            } else {
                seq![txn] + txns_from(log, at + txn.bytes.len(), max_seq)
            }
        }),
{
    lemma_more_bytes(src, window(log, at), at);
}

/// The transaction that `src` begins with, if it is intact.
fn intact_txn(src: &[u8]) -> (txn: Option<Transaction>)
    ensures
        match txn {
            Some(txn) => {
                &&& txn_intact(src@)
                &&& txn.wf()
                &&& txn.bytes() == txn_at(src@, 0).bytes
                &&& txn.used() == txn.bytes().len()
                &&& txn.raw() == txn.bytes()
            },
            None => !txn_intact(src@),
        },
{
    proof {
        reveal(txn_intact);
        reveal(txn_at);
    }
    match Transaction::decode(src) {
        Ok(txn) => {
            assert(txn.bytes() =~= txn_at(src@, 0).bytes);
            assert(txn.raw() =~= txn.bytes());
            Some(txn)
        },
        Err(_) => None,
    }
}

proof fn lemma_moved(src: Seq<u8>, offset: int)
    ensures
        txn_at(src, offset) == (Found { offset, bytes: txn_at(src, 0).bytes }),
{
    reveal(txn_at);
}

/// A scan of a log, transaction by transaction.
pub struct TransactionScan<R: Reader> {
    source: R,
    /// The chunk that was last read, as far as `got` goes, which begins at `pos`.
    buf: Vec<u8>,
    pos: u64,
    got: usize,
    /// How far the scan got in the chunk.
    at: usize,
    last_seq: u64,
    ended: bool,
}

impl<R: Reader> TransactionScan<R> {
    pub closed spec fn wf(&self) -> bool {
        let log = self.source.bytes();
        &&& self.buf@.len() == Transaction::MAX_SIZE
        &&& self.at <= self.got <= Transaction::MAX_SIZE
        &&& self.got > 0 ==> {
            &&& self.buf@.take(self.got as int) == window(log, self.pos as int)
            &&& self.pos + self.got <= log.len() <= u64::MAX
        }
    }

    /// What the scan reads from.
    pub closed spec fn source(&self) -> R {
        self.source
    }

    /// The transactions that are still to come.
    pub closed spec fn left(&self) -> Seq<Found> {
        if self.ended {
            Seq::empty()
        } else {
            txns_from(self.source.bytes(), self.pos + self.at, self.last_seq)
        }
    }

    pub fn new(source: R) -> (scan: TransactionScan<R>)
        ensures
            scan.wf(),
            scan.source() == source,
            scan.left() == txns_in(source.bytes()),
    {
        TransactionScan {
            source,
            buf: vec![0u8;Transaction::MAX_SIZE],
            pos: 0,
            got: 0,
            at: 0,
            last_seq: 0,
            ended: false,
        }
    }

    /// The next transaction of the log and its offset, if there is one. A read that fails can be
    /// tried again.
    pub fn next(&mut self) -> (next: Result<Option<(Transaction, u64)>, Error>)
        requires
            old(self).wf(),
        ensures
            final(self).wf(),
            final(self).source() == old(self).source(),
            match next {
                Ok(Some((txn, offset))) => {
                    &&& old(self).left().len() > 0
                    &&& found_as(txn, offset, old(self).left()[0])
                    &&& final(self).left() == old(self).left().skip(1)
                },
                Ok(None) => old(self).left().len() == 0 && final(self).left() == old(self).left(),
                Err(e) => old(self).source().fails_with(e) && final(self).left() == old(
                    self,
                ).left(),
            },
    {
        let ghost log = self.source.bytes();
        loop
            invariant
                self.wf(),
                log == self.source.bytes(),
                self.source == old(self).source,
                self.left() == old(self).left(),
            decreases
                    if self.at == 0 && self.got > 0 {
                        0int
                    } else {
                        1int
                    },
        {
            if self.ended {
                return Ok(None);
            }
            let ghost last_seq = self.last_seq;
            if self.at < self.got {
                let src = &self.buf[self.at..self.got];
                let ghost from = self.pos + self.at;
                assert(src@ =~= window(log, from).take(src@.len() as int)) by {
                    let chunk = self.buf@.take(self.got as int);
                    assert(chunk.len() == self.got);
                    assert forall|i: int| 0 <= i < src@.len() implies #[trigger] src@[i]
                        == window(log, from).take(src@.len() as int)[i] by {
                        assert(src@[i] == chunk[self.at + i]);
                    }
                }
                if let Some(txn) = intact_txn(src) {
                    proof {
                        lemma_next_txn(log, from, last_seq, src@);
                        lemma_moved(src@, from);
                    }
                    let max_seq: u64 = txn.get_max_seq();
                    if self.last_seq >= max_seq {
                        self.ended = true;
                        return Ok(None);
                    }
                    let offset: u64 = self.pos + self.at as u64;
                    proof {
                        let more = self.left();
                        assert(more.skip(1) =~= txns_from(log, from + txn.len, max_seq));
                        assert(more[0] == txn_at(src@, from));
                    }
                    self.last_seq = max_seq;
                    self.at = self.at + txn.len;
                    return Ok(Some((txn, offset)));
                }
                if self.at == 0 {
                    // A whole chunk, and nothing intact at its front.
                    proof {
                        assert(src@ =~= window(log, from));
                        assert(txns_from(log, from, last_seq) =~= Seq::empty());
                    }
                    self.ended = true;
                    return Ok(None);
                }
            }
            self.pos = self.pos + self.at as u64;
            self.at = 0;
            self.got = 0;
            let got: usize = match self.source.read_at(self.pos, self.buf.as_mut_slice()) {
                Ok(got) => got,
                Err(e) => {
                    return Err(e);
                },
            };
            if got == 0 {
                assert(txns_from(log, self.pos as int, last_seq) =~= Seq::empty());
                self.ended = true;
                return Ok(None);
            }
            self.got = got;
            assert(self.buf@.take(got as int) =~= window(log, self.pos as int));
        }
    }
}

impl<'a> Noted for &'a Transaction {
    type Note = Transaction;

    open spec fn note(self) -> Transaction {
        *self
    }
}

/// A call of a callback with a transaction and its offset, and what it returned.
pub type TxnCall = (Transaction, u64, Result<(), Error>);

/// The calls that a scan of a log made until it came to `scanned`: one for each of its
/// transactions, in their order, up to the first that was not accepted. If all that were made were
/// accepted, either there were no more or a read failed.
pub open spec fn replayed(txns: Seq<Found>, made: Seq<TxnCall>, scanned: Result<(), Error>) -> bool {
    &&& made.len() <= txns.len()
    &&& forall|i: int|
        0 <= i < made.len() ==> found_as((#[trigger] made[i]).0, made[i].1, txns[i])
    &&& forall|i: int| 0 <= i < made.len() - 1 ==> (#[trigger] made[i]).2 == Ok::<(), Error>(())
    &&& match scanned {
        Ok(()) => made.len() == txns.len() && (made.len() > 0 ==> made.last().2 == Ok::<
            (),
            Error,
        >(())),
        Err(e) => made.len() > 0 && made.last().2 is Err ==> made.last().2 == Err::<(), Error>(e),
    }
}

/// The last call was not accepted.
pub open spec fn refused(made: Seq<TxnCall>) -> bool {
    made.len() > 0 && made.last().2 is Err
}

impl Transaction {
    /// Hands every transaction of the log to the callback, in order and with its offset, until the
    /// callback fails.
    pub fn replay<R: Reader, F>(r: R, calls: &mut Calls<F, TxnCall>) -> (scanned: Result<(), Error>)
        where F: FnMut(&Transaction, u64) -> Result<(), Error>
        requires
            txns_welcome(old(calls).callback()),
        ensures
            final(calls).callback() == old(calls).callback(),
            exists|made: Seq<TxnCall>|
                {
                    &&& final(calls).made() == old(calls).made() + made
                    &&& #[trigger] replayed(txns_in(r.bytes()), made, scanned)
                    &&& scanned is Err && !refused(made) ==> r.fails_with(scanned->Err_0)
                    &&& calls_of(old(calls).callback(), txns_in(r.bytes()), made)
                },
    {
        let ghost f = calls.callback();
        let ghost before = calls.made();
        let ghost txns = txns_in(r.bytes());
        let ghost mut made: Seq<TxnCall> = Seq::empty();
        let mut scan = TransactionScan::new(r);
        assert(before + made =~= before);
        assert(txns.skip(0) =~= txns);
        loop
            invariant
                calls.callback() == f,
                f == old(calls).callback(),
                before == old(calls).made(),
                txns_welcome(f),
                txns == txns_in(r.bytes()),
                scan.wf(),
                scan.source() == r,
                calls.made() == before + made,
                made.len() <= txns.len(),
                scan.left() == txns.skip(made.len() as int),
                replayed(txns.take(made.len() as int), made, Ok(())),
                calls_of(f, txns, made),
            decreases txns.len() - made.len(),
        {
            let ghost n = made.len() as int;
            assert forall|i: int| 0 <= i < n implies found_as((#[trigger] made[i]).0, made[i].1, txns[i])
                && made[i].2 == Ok::<(), Error>(()) by {
                assert(txns.take(n)[i] == txns[i]);
            }
            match scan.next() {
                Err(e) => {
                    assert(replayed(txns, made, Err(e)));
                    return Err(e);
                },
                Ok(None) => {
                    assert(replayed(txns, made, Ok(())));
                    return Ok(());
                },
                Ok(Some((txn, offset))) => {
                    let out = calls.call_with(&txn, offset);
                    proof {
                        let was = made;
                        assert(txns.skip(n)[0] == txns[n]);
                        assert(txns.skip(n).skip(1) =~= txns.skip(n + 1));
                        made = was.push((txn, offset, out));
                        assert(before + made =~= (before + was).push((txn, offset, out)));
                        assert(handed(f, txns[n], out));
                        assert forall|i: int| 0 <= i < made.len() implies found_as(
                            (#[trigger] made[i]).0,
                            made[i].1,
                            txns[i],
                        ) && handed(f, txns[i], made[i].2) && (i < n ==> made[i].2 == Ok::<
                            (),
                            Error,
                        >(())) by {
                            if i < n {
                                assert(made[i] == was[i]);
                            }
                        }
                    }
                    match out {
                        Ok(unit) => {
                            assert(unit == ());
                            assert forall|i: int| 0 <= i < made.len() implies found_as(
                                (#[trigger] made[i]).0,
                                made[i].1,
                                txns.take(n + 1)[i],
                            ) by {}
                        },
                        Err(e) => {
                            assert(replayed(txns, made, Err(e)));
                            return Err(e);
                        },
                    }
                },
            }
        }
    }

    /// Hands every transaction of the log to `f`, in order and with its offset, until `f` fails.
    pub fn scan_all<R: Reader, F>(r: R, f: F) -> (scanned: Result<(), Error>)
        where F: FnMut(&Transaction, u64) -> Result<(), Error>
        requires
            txns_welcome(f),
        ensures
            exists|n: int| #[trigger]
                accepted(f, txns_in(r.bytes()), n) && match scanned {
                    Ok(()) => n == txns_in(r.bytes()).len(),
                    Err(e) => r.fails_with(e) || n < txns_in(r.bytes()).len() && handed(
                        f,
                        txns_in(r.bytes())[n],
                        Err(e),
                    ),
                },
            exists|made: Seq<TxnCall>|
                {
                    &&& #[trigger] all_calls(f, made)
                    &&& replayed(txns_in(r.bytes()), made, scanned)
                    &&& scanned is Err && !refused(made) ==> r.fails_with(scanned->Err_0)
                },
    {
        let ghost txns = txns_in(r.bytes());
        let mut calls: Calls<F, TxnCall> = Calls::new(f);
        let scanned = Transaction::replay(r, &mut calls);
        proof {
            let made = calls.made();
            assert(Seq::<TxnCall>::empty() + made =~= made);
            assert(replayed(txns, made, scanned));
            let n = if refused(made) {
                made.len() - 1
            } else {
                made.len() as int
            };
            assert forall|i: int| 0 <= i < n implies handed(f, #[trigger] txns[i], Ok(())) by {
                assert(handed(f, txns[i], made[i].2));
                if i < made.len() - 1 {
                    assert(made[i].2 == Ok::<(), Error>(()));
                } else {
                    assert(made[i] == made.last());
                    assert(made.last().2->Ok_0 == ());
                    assert(made[i].2 == Ok::<(), Error>(()));
                }
            }
            if refused(made) {
                assert(handed(f, txns[n], made[n].2));
            }
            assert(accepted(f, txns, n));
        }
        calls.finish();
        scanned
    }
}

/// Every call that was made could be made.
pub open spec fn calls_of<F>(f: F, txns: Seq<Found>, made: Seq<TxnCall>) -> bool
    where F: FnMut(&Transaction, u64) -> Result<(), Error>
{
    forall|i: int|
        #![trigger made[i]]
        #![trigger txns[i]]
        0 <= i < made.len() ==> handed(f, txns[i], made[i].2)
}

/// Transactions, each its two sequences and its data, one after the other.
pub open spec fn log_of(txns: Seq<(u64, u64, Seq<u8>)>) -> Seq<u8>
    decreases txns.len(),
{
    if txns.len() == 0 {
        Seq::empty()
    } else {
        txn_bytes(txns[0].0, txns[0].1, txns[0].2) + log_of(txns.skip(1))
    }
}

/// Those transactions as a scan reports them, from an offset on.
pub open spec fn reported(txns: Seq<(u64, u64, Seq<u8>)>, offset: int) -> Seq<Found>
    decreases txns.len(),
{
    if txns.len() == 0 {
        Seq::empty()
    } else {
        let bytes = txn_bytes(txns[0].0, txns[0].1, txns[0].2);
        seq![Found { offset, bytes }] + reported(txns.skip(1), offset + bytes.len())
    }
}

/// The largest sequences ascend from `last_seq` on, and no transaction is too large.
pub open spec fn well_sequenced(txns: Seq<(u64, u64, Seq<u8>)>, last_seq: u64) -> bool
    decreases txns.len(),
{
    txns.len() > 0 ==> {
        &&& last_seq < txns[0].1
        &&& txns[0].2.len() + Transaction::MIN_SIZE <= Transaction::MAX_SIZE
        &&& well_sequenced(txns.skip(1), txns[0].1)
    }
}

/// The last largest sequence of some transactions.
pub open spec fn last_seq_of(txns: Seq<(u64, u64, Seq<u8>)>, last_seq: u64) -> u64 {
    if txns.len() == 0 {
        last_seq
    } else {
        txns.last().1
    }
}

/// A log goes on with a transaction that was committed: a scan finds it there.
proof fn lemma_scan_one(log: Seq<u8>, at: int, txn: (u64, u64, Seq<u8>), tail: Seq<u8>, last_seq: u64)
    requires
        0 <= at <= log.len(),
        log.skip(at) == txn_bytes(txn.0, txn.1, txn.2) + tail,
        last_seq < txn.1,
        txn.2.len() + Transaction::MIN_SIZE <= Transaction::MAX_SIZE,
    ensures
        ({
            let bytes = txn_bytes(txn.0, txn.1, txn.2);
            txns_from(log, at, last_seq) == seq![Found { offset: at, bytes }] + txns_from(
                log,
                at + bytes.len(),
                txn.1,
            )
        }),
{
    reveal(txn_intact);
    reveal(txn_at);
    let bytes = txn_bytes(txn.0, txn.1, txn.2);
    let w = window(log, at);
    law_transaction_round_trip(txn.0, txn.1, txn.2, tail);
    let rest = w.skip(bytes.len() as int);
    assert(log.skip(at).len() == log.len() - at);
    assert(w =~= bytes + rest) by {
        assert forall|i: int| 0 <= i < w.len() implies w[i] == log.skip(at)[i] by {}
    }
    law_transaction_round_trip(txn.0, txn.1, txn.2, rest);
    assert(le64(bytes, 12) == le64(bytes + rest, 12));
}

proof fn lemma_scan_behind(
    head: Seq<u8>,
    txns: Seq<(u64, u64, Seq<u8>)>,
    tail: Seq<u8>,
    last_seq: u64,
)
    requires
        well_sequenced(txns, last_seq),
    ensures
        ({
            let log = head + log_of(txns) + tail;
            let end = (head + log_of(txns)).len() as int;
            txns_from(log, head.len() as int, last_seq) == reported(txns, head.len() as int)
                + txns_from(log, end, last_seq_of(txns, last_seq))
        }),
    decreases txns.len(),
{
    let log = head + log_of(txns) + tail;
    let at = head.len() as int;
    let end = (head + log_of(txns)).len() as int;
    if txns.len() == 0 {
        assert(head + log_of(txns) =~= head);
        assert(reported(txns, at) + txns_from(log, end, last_seq) =~= txns_from(log, at, last_seq));
    } else {
        let first = txns[0];
        let rest = txns.skip(1);
        let bytes = txn_bytes(first.0, first.1, first.2);
        assert(log.skip(at) =~= bytes + (log_of(rest) + tail));
        lemma_scan_one(log, at, first, log_of(rest) + tail, last_seq);
        assert(log =~= (head + bytes) + log_of(rest) + tail);
        assert(head + log_of(txns) =~= (head + bytes) + log_of(rest));
        lemma_scan_behind(head + bytes, rest, tail, first.1);
        let last = last_seq_of(txns, last_seq);
        assert(last_seq_of(rest, first.1) == last) by {
            if rest.len() > 0 {
                assert(rest.last() == txns.last());
            } else {
                assert(txns.last() == txns[0]);
            }
        }
        assert(txns_from(log, at, last_seq) =~= reported(txns, at) + txns_from(log, end, last));
    }
}

/// A scan finds every transaction that was committed, in order and at its offset, as long as
/// their largest sequences ascend, and whatever it finds behind them is behind all of them.
pub proof fn law_scan_finds_transactions(txns: Seq<(u64, u64, Seq<u8>)>, tail: Seq<u8>)
    requires
        well_sequenced(txns, 0),
    ensures
        txns_in(log_of(txns) + tail) == reported(txns, 0) + txns_from(
            log_of(txns) + tail,
            log_of(txns).len() as int,
            last_seq_of(txns, 0),
        ),
{
    lemma_scan_behind(Seq::empty(), txns, tail, 0);
    assert(Seq::<u8>::empty() + log_of(txns) =~= log_of(txns));
}

/// A torn tail hides nothing of what is intact before it: where what a scan sees behind the
/// transactions is not an intact one, it finds the transactions and nothing else.
pub proof fn law_torn_tail_is_cut(txns: Seq<(u64, u64, Seq<u8>)>, tail: Seq<u8>)
    requires
        well_sequenced(txns, 0),
        !txn_intact(window(tail, 0)),
    ensures
        txns_in(log_of(txns) + tail) == reported(txns, 0),
{
    law_scan_finds_transactions(txns, tail);
    let log = log_of(txns) + tail;
    let end = log_of(txns).len() as int;
    assert(window(log, end) =~= window(tail, 0));
    assert(txns_from(log, end, last_seq_of(txns, 0)) =~= Seq::empty());
    assert(reported(txns, 0) + Seq::<Found>::empty() =~= reported(txns, 0));
}

} // verus!
