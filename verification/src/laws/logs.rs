//! What reads bring, what scans find, and which calls they make.

use crate::checksum::crc32c_of;
use crate::data::transaction as txn;
use crate::data::transaction::{found_as, txn_at, txn_intact, txns_from, txns_in, Found, TxnCall};
use crate::error::Error;
use crate::le::{le32, le64};
use crate::storage::frame as framed;
use crate::storage::frame::{
    frame_at, frame_intact, frames_from, frames_in, FrameCall, FrameView,
};
use crate::storage::writer::{
    all_told, alike, Cmd, Committer, ReadHandle, DEFAULT_QUEUED_BYTES, DEFAULT_READ_CONCURRENCY,
    MAX_BATCH,
};
use crate::storage::{
    filled, followed, next_chunk, read_from, walk_ended, walked, ChunkCall, Reader, Step, Storage,
};
use vstd::math::{max, min};
use vstd::prelude::*;

verus! {

// -- reads -------------------------------------------------------------------------------

/// A read brings as many bytes as the buffer takes and as there are, whichever is less, and nothing
/// else of the buffer changes.
pub proof fn law_read(bytes: Seq<u8>, offset: int, buf: Seq<u8>)
    requires
        0 <= offset,
    ensures
        ({
            let got = read_from(bytes, offset, buf.len() as int);
            let after = filled(buf, got);
            &&& got.len() == min(buf.len() as int, max(bytes.len() - offset, 0))
            &&& after.len() == buf.len()
            &&& forall|i: int| 0 <= i < got.len() ==> #[trigger] after[i] == bytes[offset + i]
            &&& forall|i: int| got.len() <= i < buf.len() ==> #[trigger] after[i] == buf[i]
        }),
{
}

/// A read through a handle that succeeds brings exactly as many bytes as the buffer takes, as there
/// are before the watermark and as the source has, whichever is least: the buffer is filled unless
/// the watermark or the data ends first. Nothing else of the buffer changes.
pub proof fn law_clamped_read<R: Reader>(
    handle: ReadHandle<R>,
    offset: u64,
    before: Seq<u8>,
    after: Seq<u8>,
    n: usize,
)
    requires
        handle.reads(offset, before, after, Ok(n)),
    ensures
        n == min(
            before.len() as int,
            min(max(handle.mark() - offset, 0), max(handle.source().len() - offset, 0)),
        ),
        after.len() == before.len(),
        after.skip(n as int) == before.skip(n as int),
        n > 0 ==> after.take(n as int) == handle.source().subrange(offset as int, offset + n),
{
    assert(after.skip(n as int) =~= before.skip(n as int));
    if n > 0 {
        assert(after.take(n as int) =~= handle.source().subrange(offset as int, offset + n));
    }
}

/// A read through a handle is cut to what is before the watermark.
pub proof fn law_clamp<R: Reader>(handle: ReadHandle<R>, offset: u64, cap: nat)
    ensures
        handle.clamped(offset, cap) == min(cap as int, max(handle.mark() - offset, 0)),
{
}

/// A read through a handle fails only where there is something to read before the watermark, and
/// touches nothing past it.
pub proof fn law_failed_read<R: Reader>(
    handle: ReadHandle<R>,
    offset: u64,
    before: Seq<u8>,
    after: Seq<u8>,
    e: Error,
)
    requires
        handle.reads(offset, before, after, Err(e)),
    ensures
        handle.fails_with(e),
        before.len() > 0,
        offset < handle.mark(),
        after.len() == before.len(),
        forall|i: int|
            0 <= i < before.len() && offset + i >= handle.mark() ==> #[trigger] after[i]
                == before[i],
{
}

// -- scans of frames ---------------------------------------------------------------------

/// At `at` stands a whole frame: `brzy`, a length between 20 and 8 MiB that the log goes on for, and
/// before its end the hash of all bytes before that.
pub open spec fn is_frame(log: Seq<u8>, at: int) -> bool {
    let len = le32(log, at + 4) as int;
    &&& 0 <= at && at + 20 <= log.len()
    &&& le32(log, at) == 0x797a_7262
    &&& 20 <= len <= 0x80_0000
    &&& at + len <= log.len()
    &&& le32(log, at + len - 4) == crc32c_of(log.subrange(at, at + len - 4))
}

proof fn lemma_is_frame(log: Seq<u8>, at: int)
    requires
        0 <= at < log.len(),
    ensures
        frame_intact(log.skip(at)) <==> is_frame(log, at),
        is_frame(log, at) ==> {
            let f = frame_at(log.skip(at), at);
            &&& f.offset == at
            &&& f.len == le32(log, at + 4)
            &&& f.seq == le64(log, at + 8)
            &&& f.payload == log.subrange(at + 16, at + f.len - 4)
        },
{
    reveal(frame_intact);
    reveal(frame_at);
    let raw = log.skip(at);
    if raw.len() >= 20 {
        assert(le32(raw, 0) == le32(log, at));
        assert(le32(raw, 4) == le32(log, at + 4));
        assert(le64(raw, 8) == le64(log, at + 8));
        let len = le32(raw, 4) as int;
        if 20 <= len <= raw.len() {
            assert(le32(raw, len - 4) == le32(log, at + len - 4));
            assert(raw.take(len - 4) =~= log.subrange(at, at + len - 4));
            assert(raw.subrange(16, len - 4) =~= log.subrange(at + 16, at + len - 4));
        }
    }
}

/// Where the scan stands behind some frames, and the sequence of the last of them.
spec fn behind_frames(pos: int, last_seq: u64, frames: Seq<FrameView>) -> (int, u64) {
    if frames.len() == 0 {
        (pos, last_seq)
    } else {
        (frames.last().offset + frames.last().len, frames.last().seq)
    }
}

proof fn lemma_frames_found(log: Seq<u8>, pos: int, last_seq: u64)
    requires
        0 <= pos <= log.len(),
    ensures
        ({
            let fs = frames_from(log, pos, last_seq);
            let (end, last) = behind_frames(pos, last_seq, fs);
            &&& fs.len() > 0 ==> fs[0].offset == pos && fs[0].seq > last_seq
            &&& forall|i: int|
                0 <= i < fs.len() ==> {
                    let f = #[trigger] fs[i];
                    &&& is_frame(log, f.offset)
                    &&& f.len == le32(log, f.offset + 4)
                    &&& f.seq == le64(log, f.offset + 8)
                    &&& f.payload == log.subrange(f.offset + 16, f.offset + f.len - 4)
                }
            &&& forall|i: int, j: int|
                #![trigger fs[i], fs[j]]
                0 <= i < fs.len() && j == i + 1 && j < fs.len() ==> fs[j].offset == fs[i].offset
                    + fs[i].len && fs[j].seq > fs[i].seq
            &&& !(is_frame(log, end) && le64(log, end + 8) > last)
        }),
    decreases log.len() - pos,
{
    let fs = frames_from(log, pos, last_seq);
    if pos < log.len() {
        lemma_is_frame(log, pos);
        if is_frame(log, pos) {
            let first = frame_at(log.skip(pos), pos);
            if first.seq > last_seq {
                let rest = frames_from(log, pos + first.len, first.seq);
                lemma_frames_found(log, pos + first.len, first.seq);
                assert(fs == seq![first] + rest);
                assert forall|i: int| 0 <= i < fs.len() implies {
                    let f = #[trigger] fs[i];
                    &&& is_frame(log, f.offset)
                    &&& f.len == le32(log, f.offset + 4)
                    &&& f.seq == le64(log, f.offset + 8)
                    &&& f.payload == log.subrange(f.offset + 16, f.offset + f.len - 4)
                } by {
                    if i > 0 {
                        assert(fs[i] == rest[i - 1]);
                    }
                }
                assert forall|i: int, j: int|
                    #![trigger fs[i], fs[j]]
                    0 <= i < fs.len() && j == i + 1 && j < fs.len() implies fs[j].offset
                    == fs[i].offset + fs[i].len && fs[j].seq > fs[i].seq by {
                    assert(fs[j] == rest[j - 1]);
                    if i > 0 {
                        assert(fs[i] == rest[i - 1]);
                    }
                }
                if rest.len() > 0 {
                    assert(fs.last() == rest.last());
                } else {
                    assert(fs.last() == first);
                }
            }
        }
    }
}

/// The frames that a log holds are whole frames of it, from its front on one right behind the other,
/// with sequences that ascend from 1 at least. What follows the last of them is no whole frame, or
/// one whose sequence does not ascend.
pub proof fn law_frames_found(log: Seq<u8>)
    ensures
        ({
            let fs = frames_in(log);
            let end = if fs.len() == 0 {
                0
            } else {
                fs.last().offset + fs.last().len
            };
            let last = if fs.len() == 0 {
                0
            } else {
                fs.last().seq
            };
            &&& fs.len() > 0 ==> fs[0].offset == 0 && fs[0].seq > 0
            &&& forall|i: int|
                0 <= i < fs.len() ==> {
                    let f = #[trigger] fs[i];
                    &&& is_frame(log, f.offset)
                    &&& f.len == le32(log, f.offset + 4)
                    &&& f.seq == le64(log, f.offset + 8)
                    &&& f.payload == log.subrange(f.offset + 16, f.offset + f.len - 4)
                }
            &&& forall|i: int, j: int|
                #![trigger fs[i], fs[j]]
                0 <= i < fs.len() && j == i + 1 && j < fs.len() ==> fs[j].offset == fs[i].offset
                    + fs[i].len && fs[j].seq > fs[i].seq
            &&& !(is_frame(log, end) && le64(log, end + 8) > last)
        }),
{
    lemma_frames_found(log, 0, 0);
}

/// A scan of frames that comes to its end has made one call for each whole frame of the log, in
/// their order: the first at offset 0, each of the others right behind the one before it, so none
/// twice and none left out.
pub proof fn law_frames_replayed(log: Seq<u8>, made: Seq<FrameCall>)
    requires
        framed::replayed(frames_in(log), made, Ok(())),
    ensures
        made.len() > 0 ==> made[0].0.offset == 0 && made[0].0.seq > 0,
        forall|i: int|
            0 <= i < made.len() ==> {
                let f = (#[trigger] made[i]).0;
                &&& is_frame(log, f.offset)
                &&& f.len == le32(log, f.offset + 4)
                &&& f.seq == le64(log, f.offset + 8)
                &&& f.payload == log.subrange(f.offset + 16, f.offset + f.len - 4)
                &&& made[i].1 is Ok
            },
        forall|i: int, j: int|
            #![trigger made[i], made[j]]
            0 <= i < made.len() && j == i + 1 && j < made.len() ==> made[j].0.offset
                == made[i].0.offset + made[i].0.len && made[j].0.seq > made[i].0.seq,
        ({
            let end = if made.len() == 0 {
                0
            } else {
                made.last().0.offset + made.last().0.len
            };
            let last = if made.len() == 0 {
                0
            } else {
                made.last().0.seq
            };
            !(is_frame(log, end) && le64(log, end + 8) > last)
        }),
{
    law_frames_found(log);
    let fs = frames_in(log);
    assert forall|i: int| 0 <= i < made.len() implies (#[trigger] made[i]).0 == fs[i]
        && made[i].1 is Ok by {
        if i == made.len() - 1 {
            assert(made[i] == made.last());
        }
    }
    if made.len() > 0 {
        assert(made.last().0 == fs[made.len() - 1]);
    }
    assert forall|i: int, j: int|
        #![trigger made[i], made[j]]
        0 <= i < made.len() && j == i + 1 && j < made.len() implies made[j].0.offset
        == made[i].0.offset + made[i].0.len && made[j].0.seq > made[i].0.seq by {
        assert(made[i].0 == fs[i] && made[j].0 == fs[j]);
    }
}

/// A scan that fails has made its calls for the first frames of the log all the same, one for each
/// and in their order. All of them but perhaps the last were accepted; if the last was not, its
/// error is that of the scan.
pub proof fn law_frame_replay_stops(log: Seq<u8>, made: Seq<FrameCall>, e: Error)
    requires
        framed::replayed(frames_in(log), made, Err(e)),
    ensures
        made.len() <= frames_in(log).len(),
        forall|i: int|
            0 <= i < made.len() ==> {
                &&& (#[trigger] made[i]).0 == frames_in(log)[i]
                &&& i < made.len() - 1 ==> made[i].1 is Ok
                &&& made[i].1 is Err ==> made[i].1->Err_0 == e
            },
{
    assert forall|i: int| 0 <= i < made.len() implies {
        &&& (#[trigger] made[i]).0 == frames_in(log)[i]
        &&& i < made.len() - 1 ==> made[i].1 is Ok
        &&& made[i].1 is Err ==> made[i].1->Err_0 == e
    } by {
        if i == made.len() - 1 {
            assert(made[i] == made.last());
        }
    }
}

// -- scans of transactions ---------------------------------------------------------------

/// At `at` stands a whole transaction: a length between 24 and the largest that the log goes on for,
/// and before its end the hash of all bytes before that.
pub open spec fn is_transaction(log: Seq<u8>, at: int) -> bool {
    let len = le32(log, at) as int;
    &&& 0 <= at && at + 24 <= log.len()
    &&& 24 <= len <= 0x40_0018
    &&& at + len <= log.len()
    &&& le32(log, at + len - 4) == crc32c_of(log.subrange(at, at + len - 4))
}

proof fn lemma_is_transaction(log: Seq<u8>, at: int)
    requires
        0 <= at < log.len(),
    ensures
        txn_intact(txn::window(log, at)) <==> is_transaction(log, at),
        is_transaction(log, at) ==> {
            let t = txn_at(txn::window(log, at), at);
            &&& t.offset == at
            &&& t.bytes == log.subrange(at, at + le32(log, at))
            &&& le64(t.bytes, 12) == le64(log, at + 12)
        },
{
    reveal(txn_intact);
    reveal(txn_at);
    let src = txn::window(log, at);
    assert(src.len() == min(0x40_0018, log.len() - at));
    assert forall|i: int| 0 <= i < src.len() implies src[i] == log[at + i] by {}
    if src.len() >= 24 {
        assert(le32(src, 0) == le32(log, at));
        let len = le32(src, 0) as int;
        if 24 <= len <= src.len() {
            assert(le32(src, len - 4) == le32(log, at + len - 4));
            assert(src.take(len - 4) =~= log.subrange(at, at + len - 4));
            assert(src.take(len) =~= log.subrange(at, at + len));
            assert(le64(src.take(len), 12) == le64(log, at + 12));
        }
    }
}

spec fn behind_txns(pos: int, last_seq: u64, txns: Seq<Found>) -> (int, u64) {
    if txns.len() == 0 {
        (pos, last_seq)
    } else {
        (txns.last().offset + txns.last().bytes.len(), le64(txns.last().bytes, 12))
    }
}

proof fn lemma_transactions_found(log: Seq<u8>, pos: int, last_seq: u64)
    requires
        0 <= pos <= log.len(),
    ensures
        ({
            let ts = txns_from(log, pos, last_seq);
            let (end, last) = behind_txns(pos, last_seq, ts);
            &&& ts.len() > 0 ==> ts[0].offset == pos && le64(ts[0].bytes, 12) > last_seq
            &&& forall|i: int|
                0 <= i < ts.len() ==> {
                    let t = #[trigger] ts[i];
                    &&& is_transaction(log, t.offset)
                    &&& t.bytes == log.subrange(t.offset, t.offset + le32(log, t.offset))
                }
            &&& forall|i: int, j: int|
                #![trigger ts[i], ts[j]]
                0 <= i < ts.len() && j == i + 1 && j < ts.len() ==> ts[j].offset == ts[i].offset
                    + ts[i].bytes.len() && le64(ts[j].bytes, 12) > le64(ts[i].bytes, 12)
            &&& !(is_transaction(log, end) && le64(log, end + 12) > last)
        }),
    decreases log.len() - pos,
{
    let ts = txns_from(log, pos, last_seq);
    if pos < log.len() {
        lemma_is_transaction(log, pos);
        if is_transaction(log, pos) {
            let first = txn_at(txn::window(log, pos), pos);
            let max_seq = le64(first.bytes, 12);
            if max_seq > last_seq {
                let rest = txns_from(log, pos + first.bytes.len(), max_seq);
                lemma_transactions_found(log, pos + first.bytes.len(), max_seq);
                assert(ts == seq![first] + rest);
                assert forall|i: int| 0 <= i < ts.len() implies {
                    let t = #[trigger] ts[i];
                    &&& is_transaction(log, t.offset)
                    &&& t.bytes == log.subrange(t.offset, t.offset + le32(log, t.offset))
                } by {
                    if i > 0 {
                        assert(ts[i] == rest[i - 1]);
                    }
                }
                assert forall|i: int, j: int|
                    #![trigger ts[i], ts[j]]
                    0 <= i < ts.len() && j == i + 1 && j < ts.len() implies ts[j].offset
                    == ts[i].offset + ts[i].bytes.len() && le64(ts[j].bytes, 12) > le64(
                    ts[i].bytes,
                    12,
                ) by {
                    assert(ts[j] == rest[j - 1]);
                    if i > 0 {
                        assert(ts[i] == rest[i - 1]);
                    }
                }
                if rest.len() > 0 {
                    assert(ts.last() == rest.last());
                } else {
                    assert(ts.last() == first);
                }
            }
        }
    }
}

/// The transactions that a log holds are whole transactions of it, from its front on one right
/// behind the other, with largest sequences that ascend from 1 at least. What follows the last of
/// them is no whole transaction, or one whose largest sequence does not ascend.
pub proof fn law_transactions_found(log: Seq<u8>)
    ensures
        ({
            let ts = txns_in(log);
            let end = if ts.len() == 0 {
                0
            } else {
                ts.last().offset + ts.last().bytes.len()
            };
            let last = if ts.len() == 0 {
                0
            } else {
                le64(ts.last().bytes, 12)
            };
            &&& ts.len() > 0 ==> ts[0].offset == 0 && le64(ts[0].bytes, 12) > 0
            &&& forall|i: int|
                0 <= i < ts.len() ==> {
                    let t = #[trigger] ts[i];
                    &&& is_transaction(log, t.offset)
                    &&& t.bytes == log.subrange(t.offset, t.offset + le32(log, t.offset))
                }
            &&& forall|i: int, j: int|
                #![trigger ts[i], ts[j]]
                0 <= i < ts.len() && j == i + 1 && j < ts.len() ==> ts[j].offset == ts[i].offset
                    + ts[i].bytes.len() && le64(ts[j].bytes, 12) > le64(ts[i].bytes, 12)
            &&& !(is_transaction(log, end) && le64(log, end + 12) > last)
        }),
{
    lemma_transactions_found(log, 0, 0);
}

/// A scan of transactions that comes to its end has made one call for each whole transaction of the
/// log, in their order: the first at offset 0, each of the others right behind the one before it, so
/// none twice and none left out. Each was called with the bytes of its transaction.
pub proof fn law_transactions_replayed(log: Seq<u8>, made: Seq<TxnCall>)
    requires
        txn::replayed(txns_in(log), made, Ok(())),
    ensures
        made.len() > 0 ==> made[0].1 == 0,
        forall|i: int|
            0 <= i < made.len() ==> {
                let (t, at, out) = #[trigger] made[i];
                &&& is_transaction(log, at as int)
                &&& t.bytes() == log.subrange(at as int, at + le32(log, at as int))
                &&& t.raw() == t.bytes()
                &&& out is Ok
            },
        forall|i: int, j: int|
            #![trigger made[i], made[j]]
            0 <= i < made.len() && j == i + 1 && j < made.len() ==> made[j].1 == made[i].1 + le32(
                log,
                made[i].1 as int,
            ) && le64(log, made[j].1 + 12) > le64(log, made[i].1 + 12),
        ({
            let end = if made.len() == 0 {
                0
            } else {
                made.last().1 + le32(log, made.last().1 as int)
            };
            let last = if made.len() == 0 {
                0
            } else {
                le64(log, made.last().1 + 12)
            };
            !(is_transaction(log, end) && le64(log, end + 12) > last)
        }),
{
    law_transactions_found(log);
    let ts = txns_in(log);
    assert forall|i: int| 0 <= i < made.len() implies {
        let (t, at, out) = #[trigger] made[i];
        &&& at == ts[i].offset
        &&& t.bytes() == ts[i].bytes
        &&& t.raw() == ts[i].bytes
        &&& out is Ok
        &&& is_transaction(log, at as int)
        &&& ts[i].bytes.len() == le32(log, at as int)
        &&& le64(ts[i].bytes, 12) == le64(log, at + 12)
    } by {
        assert(found_as(made[i].0, made[i].1, ts[i]));
        if i == made.len() - 1 {
            assert(made[i] == made.last());
        }
    }
    if made.len() > 0 {
        assert(made[0].1 == ts[0].offset);
        assert(made.last() == made[made.len() - 1]);
        assert(ts.last() == ts[made.len() - 1]);
    }
    assert forall|i: int, j: int|
        #![trigger made[i], made[j]]
        0 <= i < made.len() && j == i + 1 && j < made.len() implies made[j].1 == made[i].1 + le32(
        log,
        made[i].1 as int,
    ) && le64(log, made[j].1 + 12) > le64(log, made[i].1 + 12) by {
        assert(ts[i].offset == made[i].1 && ts[j].offset == made[j].1);
    }
}

/// A scan that fails has made its calls for the first transactions of the log all the same, one for
/// each and in their order. All of them but perhaps the last were accepted; if the last was not, its
/// error is that of the scan.
pub proof fn law_replay_stops(log: Seq<u8>, made: Seq<TxnCall>, e: Error)
    requires
        txn::replayed(txns_in(log), made, Err(e)),
    ensures
        made.len() <= txns_in(log).len(),
        forall|i: int|
            0 <= i < made.len() ==> {
                &&& (#[trigger] made[i]).1 == txns_in(log)[i].offset
                &&& made[i].0.bytes() == txns_in(log)[i].bytes
                &&& i < made.len() - 1 ==> made[i].2 is Ok
                &&& made[i].2 is Err ==> made[i].2->Err_0 == e
            },
{
    assert forall|i: int| 0 <= i < made.len() implies {
        &&& (#[trigger] made[i]).1 == txns_in(log)[i].offset
        &&& made[i].0.bytes() == txns_in(log)[i].bytes
        &&& i < made.len() - 1 ==> made[i].2 is Ok
        &&& made[i].2 is Err ==> made[i].2->Err_0 == e
    } by {
        assert(found_as(made[i].0, made[i].1, txns_in(log)[i]));
        if i == made.len() - 1 {
            assert(made[i] == made.last());
        }
    }
}

// -- scans in chunks ---------------------------------------------------------------------

/// A scan whose callback always goes on behind the chunk sees all of the data, chunk by chunk: call
/// `i` is at `i` times the size of the buffer, every chunk but the last fills the buffer, and the
/// scan ends where the data does.
pub proof fn law_walk_sees_everything(
    bytes: Seq<u8>,
    cap: int,
    made: Seq<ChunkCall>,
    end: Result<u64, Error>,
)
    requires
        cap > 0,
        walked(bytes, cap, made),
        walk_ended(bytes, made, end),
        forall|i: int|
            0 <= i < made.len() ==> (#[trigger] made[i]).2 is Ok && made[i].2->Ok_0 is Continue
                && (made[i].2->Ok_0)->Continue_0 == made[i].0 + made[i].1.len(),
    ensures
        end == Ok::<u64, Error>(bytes.len() as u64),
        forall|i: int|
            0 <= i < made.len() ==> {
                &&& (#[trigger] made[i]).0 == i * cap
                &&& made[i].1 == bytes.subrange(i * cap, min((i + 1) * cap, bytes.len() as int))
            },
        (made.len() - 1) * cap < bytes.len() <= made.len() * cap,
{
    assert forall|i: int| 0 <= i < made.len() implies (#[trigger] made[i]).0 == i * cap by {
        lemma_walk_at(bytes, cap, made, i);
    }
    assert forall|i: int| 0 <= i < made.len() implies (#[trigger] made[i]).1 == bytes.subrange(
        i * cap,
        min((i + 1) * cap, bytes.len() as int),
    ) by {
        assert((i + 1) * cap == i * cap + cap) by (nonlinear_arith);
        assert(made[i].1 =~= bytes.subrange(i * cap, min((i + 1) * cap, bytes.len() as int)));
    }
    let n = made.len() as int;
    if n == 0 {
        assert(-1 * cap < 0) by (nonlinear_arith)
            requires
                cap > 0,
        ;
        assert(0 * cap == 0);
    } else {
        assert(made.last() == made[n - 1]);
        assert((n - 1 + 1) * cap == (n - 1) * cap + cap) by (nonlinear_arith);
        assert(next_chunk(made) == Some((made[n - 1].0 + made[n - 1].1.len()) as u64));
    }
}

proof fn lemma_walk_at(bytes: Seq<u8>, cap: int, made: Seq<ChunkCall>, i: int)
    requires
        cap > 0,
        walked(bytes, cap, made),
        forall|i: int|
            0 <= i < made.len() ==> (#[trigger] made[i]).2 is Ok && made[i].2->Ok_0 is Continue
                && (made[i].2->Ok_0)->Continue_0 == made[i].0 + made[i].1.len(),
        0 <= i < made.len(),
    ensures
        made[i].0 == i * cap,
    decreases i,
{
    if i > 0 {
        lemma_walk_at(bytes, cap, made, i - 1);
        let j = i - 1;
        assert(made[j].0 < made[i].0 && made[j].2 == Ok::<Step, Error>(
            Step::Continue(made[i].0),
        ));
        assert(made[i].0 < bytes.len());
        assert((j + 1) * cap == j * cap + cap) by (nonlinear_arith);
    } else {
        assert(0 * cap == 0);
    }
}

/// A scan goes on where the callback said if that is further on, refuses to if it is not, and ends
/// if it said so.
pub proof fn law_followed(resume: u64, pos: u64)
    ensures
        followed(Step::Stop, pos) == Ok::<Option<u64>, Error>(None),
        resume > pos ==> followed(Step::Continue(resume), pos) == Ok::<Option<u64>, Error>(
            Some(resume),
        ),
        resume <= pos ==> followed(Step::Continue(resume), pos) == Err::<Option<u64>, Error>(
            Error::ScanNotAdvancing { resume, pos },
        ),
{
}

/// A scan ends with what the last call said: where that call was if it said to stop, its own error
/// if it had one, and an error of the scan if it said to go on at a place that is not further on.
/// Otherwise it ends where the data does or behind.
pub proof fn law_walk_ends(
    bytes: Seq<u8>,
    cap: int,
    made: Seq<ChunkCall>,
    end: Result<u64, Error>,
)
    requires
        cap > 0,
        walked(bytes, cap, made),
        walk_ended(bytes, made, end),
    ensures
        made.len() == 0 ==> bytes.len() == 0 && end == Ok::<u64, Error>(0),
        made.len() > 0 ==> made[0].0 == 0,
        forall|i: int, j: int|
            #![trigger made[i], made[j]]
            0 <= i < made.len() && j == i + 1 && j < made.len() ==> made[j].0 > made[i].0
                && made[i].2 == Ok::<Step, Error>(Step::Continue(made[j].0)),
        forall|i: int|
            0 <= i < made.len() ==> (#[trigger] made[i]).1.len() == min(
                cap,
                bytes.len() - made[i].0,
            ),
        made.len() > 0 ==> match made.last().2 {
            Ok(Step::Stop) => end == Ok::<u64, Error>(made.last().0),
            Ok(Step::Continue(resume)) => if resume <= made.last().0 {
                end == Err::<u64, Error>(Error::ScanNotAdvancing { resume, pos: made.last().0 })
            } else {
                resume >= bytes.len() && end == Ok::<u64, Error>(resume)
            },
            Err(e) => end == Err::<u64, Error>(e),
        },
{
}

// -- the writer --------------------------------------------------------------------------

/// A batch is full from 4 MiB on. By default 32 reads run at once and 32 MiB wait to be written.
pub proof fn law_writer_sizes()
    ensures
        MAX_BATCH == 0x40_0000,
        DEFAULT_READ_CONCURRENCY == 32,
        DEFAULT_QUEUED_BYTES == 0x200_0000,
{
}

/// An append adds its bytes to a batch and a sync adds none; for either one waits who asked.
pub proof fn law_commands<A>(data: Vec<u8>, ack: A)
    ensures
        (Cmd::Append { data, ack }).bytes() == data@,
        (Cmd::Append { data, ack }).waiter() == ack,
        (Cmd::<A>::Sync { ack }).bytes().len() == 0,
        (Cmd::<A>::Sync { ack }).waiter() == ack,
{
}

/// Everybody who waited for a batch gets one answer, in the order in which they asked: that it is
/// written, or an error with the class, the code and the text of the one that it failed with.
pub proof fn law_all_told<A>(
    waiters: Seq<A>,
    acks: Seq<(A, Result<(), Error>)>,
    answer: Result<(), Error>,
)
    requires
        all_told(waiters, acks, answer),
    ensures
        acks.len() == waiters.len(),
        forall|i: int|
            0 <= i < acks.len() ==> {
                &&& (#[trigger] acks[i]).0 == waiters[i]
                &&& acks[i].1 is Ok <==> answer is Ok
                &&& answer is Err ==> {
                    &&& acks[i].1->Err_0.spec_kind() == answer->Err_0.spec_kind()
                    &&& acks[i].1->Err_0.spec_code() == answer->Err_0.spec_code()
                    &&& acks[i].1->Err_0.text() == answer->Err_0.text()
                }
            },
{
}

/// Two errors are alike if and only if they have the same class, code and text.
pub proof fn law_alike(a: Error, b: Error)
    ensures
        alike(a, b) <==> a.spec_kind() == b.spec_kind() && a.spec_code() == b.spec_code()
            && a.text() == b.text(),
{
}

/// Readers see the log up to the watermark.
pub proof fn law_seen<S: Storage, A>(c: Committer<S, A>)
    ensures
        c.seen() == c.log().take(c.mark() as int),
{
}

} // verus!
