//! Frames: `[u32 magic][u32 len][u64 seq][payload][u32 hash]`.
//!
//! A frame is one transaction. The payload can be any number of records, but a frame has a
//! largest size. The hash is that of the complete frame before it, header and payload.

use super::{read_from, Reader};
use crate::calls::{all_calls, callable, Calls, Noted};
use crate::checksum::{crc32c, crc32c_of};
use crate::data::util::{
    copy_slice_at, u32_from_pos, u32_write_at, u64_from_pos, u64_write_at,
};
use crate::error::Error;
use crate::le::{
    le32, le32_bytes, le64, le64_bytes, lemma_le32_of_bytes, lemma_le64_of_bytes, splice,
};
use vstd::prelude::*;

verus! {

/// The bytes `brzy`.
pub const FRAME_MAGIC: u32 = 0x797a_7262;

/// `[u32 magic][u32 len][u64 seq]`.
pub const HEADER_LEN: usize = 16;

pub const HASH_SIZE: usize = 4;

pub const FRAME_MAX_SIZE: u32 = 0x80_0000;

pub const MIN_FRAME_LEN: usize = HEADER_LEN + HASH_SIZE;

/// A frame larger than a chunk could never be decoded: the scan would find nothing at its offset,
/// stop, and silently discard it and everything after it.
pub const SCAN_BUF_SIZE: usize = 0x80_0000;

/// How long a frame of so many payload bytes is.
pub open spec fn frame_total(payload_len: int) -> int {
    HEADER_LEN + payload_len + HASH_SIZE
}

/// The header and the payload of a frame.
pub open spec fn frame_body(seq: u64, payload: Seq<u8>) -> Seq<u8> {
    le32_bytes(FRAME_MAGIC) + le32_bytes(frame_total(payload.len() as int) as u32) + le64_bytes(
        seq,
    ) + payload
}

/// The bytes of a frame.
pub open spec fn frame_bytes(seq: u64, payload: Seq<u8>) -> Seq<u8> {
    frame_body(seq, payload) + le32_bytes(crc32c_of(frame_body(seq, payload)))
}

/// How long a frame of so many payload bytes is, or the largest number if that is longer.
pub fn frame_len(payload_len: usize) -> (len: u32)
    ensures
        len == if frame_total(payload_len as int) > u32::MAX {
            u32::MAX as int
        } else {
            frame_total(payload_len as int)
        },
{
    if payload_len as u64 > u32::MAX as u64 - MIN_FRAME_LEN as u64 {
        return u32::MAX;
    }
    (HEADER_LEN as u64 + payload_len as u64 + HASH_SIZE as u64) as u32
}

/// Writes a frame to the front of `target` and returns how many bytes that took.
pub fn frame_encode_into(target: &mut [u8], seq: u64, payload: &[u8]) -> (written: Result<
    usize,
    Error,
>)
    ensures
        final(target)@.len() == old(target)@.len(),
        ({
            let total = frame_total(payload@.len() as int);
            let len = if total > u32::MAX {
                u32::MAX
            } else {
                total as u32
            };
            if len > FRAME_MAX_SIZE {
                &&& written == Err::<usize, Error>(Error::FrameTooBig { len })
                &&& final(target)@ == old(target)@
            } else if old(target)@.len() < total {
                &&& written == Err::<usize, Error>(
                    Error::FrameBufferTooSmall { have: old(target)@.len() as usize, need: len },
                )
                &&& final(target)@ == old(target)@
            } else {
                &&& written == Ok::<usize, Error>(total as usize)
                &&& final(target)@ == splice(old(target)@, 0, frame_bytes(seq, payload@))
            }
        }),
{
    let frame_len: u32 = frame_len(payload.len());
    if frame_len > FRAME_MAX_SIZE {
        return Err(Error::FrameTooBig { len: frame_len });
    }
    if target.len() < frame_len as usize {
        return Err(Error::FrameBufferTooSmall { have: target.len(), need: frame_len });
    }
    u32_write_at(target, 0, FRAME_MAGIC);
    u32_write_at(target, 4, frame_len);
    u64_write_at(target, 8, seq);
    let seal_offset: usize = HEADER_LEN + payload.len();
    copy_slice_at(target, HEADER_LEN, payload);
    let ghost body = frame_body(seq, payload@);
    assert(target@.subrange(0, seal_offset as int) =~= body);
    let hash: u32 = crc32c(&target[0..seal_offset]);
    u32_write_at(target, seal_offset, hash);
    assert(target@ =~= splice(old(target)@, 0, frame_bytes(seq, payload@)));
    Ok(frame_len as usize)
}

/// A frame as it was found in a log.
#[derive(Debug)]
pub struct Frame<'a> {
    pub offset: u64,
    pub seq: u64,
    pub len: u32,
    pub payload: &'a [u8],
}

/// What a frame says.
#[verifier::ext_equal]
pub struct FrameView {
    pub offset: int,
    pub seq: u64,
    pub len: u32,
    pub payload: Seq<u8>,
}

impl<'a> View for Frame<'a> {
    type V = FrameView;

    open spec fn view(&self) -> FrameView {
        FrameView {
            offset: self.offset as int,
            seq: self.seq,
            len: self.len,
            payload: self.payload@,
        }
    }
}

impl<'a> Default for Frame<'a> {
    fn default() -> (frame: Frame<'a>)
        ensures
            frame@ == (FrameView { offset: 0, seq: 0, len: 0, payload: Seq::empty() }),
    {
        let frame = Frame { offset: 0, seq: 0, len: 0, payload: &[] };
        assert(frame@.payload =~= Seq::empty());
        frame
    }
}

/// What is wrong with the frame that some bytes begin with, before its hash is looked at.
pub open spec fn frame_fault(raw: Seq<u8>) -> Option<Error> {
    if raw.len() < MIN_FRAME_LEN {
        Some(Error::FrameTooShort)
    } else if le32(raw, 0) != FRAME_MAGIC {
        Some(Error::FrameMagicMissing)
    } else if le32(raw, 4) < MIN_FRAME_LEN || le32(raw, 4) > FRAME_MAX_SIZE {
        Some(Error::FrameLengthOutOfRange { len: le32(raw, 4) })
    } else if raw.len() < le32(raw, 4) {
        Some(Error::FrameOverrunsBuffer)
    } else {
        None
    }
}

/// The frame that some bytes begin with, at an offset, if nothing is wrong with it but perhaps
/// its hash.
#[verifier::opaque]
pub open spec fn frame_at(raw: Seq<u8>, offset: int) -> FrameView {
    FrameView {
        offset,
        seq: le64(raw, 8),
        len: le32(raw, 4),
        payload: raw.subrange(16, le32(raw, 4) - 4),
    }
}

/// The stored hash is that of the header and the payload.
pub open spec fn frame_hash_ok(raw: Seq<u8>) -> bool {
    le32(raw, le32(raw, 4) - 4) == crc32c_of(raw.take(le32(raw, 4) - 4))
}

/// Some bytes begin with an intact frame.
#[verifier::opaque]
pub open spec fn frame_intact(raw: Seq<u8>) -> bool {
    frame_fault(raw) is None && frame_hash_ok(raw)
}

/// Whether the stored hash of a frame of `total` bytes, which `raw` begins with, is
/// `computed_hash`.
pub fn check_frame_hash(raw: &[u8], total: u32, computed_hash: u32) -> (checked: Result<(), Error>)
    requires
        HASH_SIZE <= total <= raw@.len(),
    ensures
        checked == if le32(raw@, total - 4) == computed_hash {
            Ok::<(), Error>(())
        } else {
            Err(Error::FrameCorrupted)
        },
{
    let stored_hash: u32 = u32_from_pos(raw, total as usize - HASH_SIZE);
    if stored_hash != computed_hash {
        return Err(Error::FrameCorrupted);
    }
    Ok(())
}

/// Reads the frame that `raw` begins with into `frame`. A frame whose hash is wrong is read too,
/// but not accepted.
pub fn frame_decode_into<'a>(raw: &'a [u8], frame: &mut Frame<'a>) -> (decoded: Result<(), Error>)
    ensures
        match frame_fault(raw@) {
            Some(e) => decoded == Err::<(), Error>(e) && *final(frame) == *old(frame),
            None => {
                &&& final(frame)@ == frame_at(raw@, old(frame).offset as int)
                &&& final(frame).offset == old(frame).offset
                &&& decoded == if frame_hash_ok(raw@) {
                    Ok::<(), Error>(())
                } else {
                    Err(Error::FrameCorrupted)
                }
            },
        },
        decoded is Ok <==> {
            &&& raw@.len() >= 20
            &&& le32(raw@, 0) == 0x797a_7262
            &&& 20 <= le32(raw@, 4) <= 0x80_0000
            &&& le32(raw@, 4) <= raw@.len()
            &&& le32(raw@, le32(raw@, 4) - 4) == crc32c_of(raw@.take(le32(raw@, 4) - 4))
        },
        decoded is Ok ==> {
            &&& final(frame).len == le32(raw@, 4)
            &&& final(frame).seq == le64(raw@, 8)
            &&& final(frame).payload@ == raw@.subrange(16, le32(raw@, 4) - 4)
        },
{
    proof {
        reveal(frame_at);
    }
    if raw.len() < MIN_FRAME_LEN {
        return Err(Error::FrameTooShort);
    }
    let magic: u32 = u32_from_pos(raw, 0);
    if magic != FRAME_MAGIC {
        return Err(Error::FrameMagicMissing);
    }
    let total: u32 = u32_from_pos(raw, 4);
    if (total as usize) < MIN_FRAME_LEN || total > FRAME_MAX_SIZE {
        return Err(Error::FrameLengthOutOfRange { len: total });
    }
    if raw.len() < total as usize {
        return Err(Error::FrameOverrunsBuffer);
    }
    frame.len = total;
    frame.seq = u64_from_pos(raw, 8);
    let seal_offset: usize = total as usize - HASH_SIZE;
    frame.payload = &raw[HEADER_LEN..seal_offset];
    let computed_hash: u32 = crc32c(&raw[0..seal_offset]);
    assert(raw@.subrange(0, seal_offset as int) =~= raw@.take(seal_offset as int));
    check_frame_hash(raw, total, computed_hash)
}

/// A frame that was encoded is decoded as that frame, whatever follows it.
pub proof fn law_frame_round_trip(seq: u64, payload: Seq<u8>, tail: Seq<u8>)
    requires
        frame_total(payload.len() as int) <= FRAME_MAX_SIZE,
    ensures
        ({
            let raw = frame_bytes(seq, payload) + tail;
            &&& frame_bytes(seq, payload).len() == frame_total(payload.len() as int)
            &&& frame_intact(raw)
            &&& forall|offset: int| #[trigger]
                frame_at(raw, offset) == (FrameView {
                    offset,
                    seq,
                    len: frame_total(payload.len() as int) as u32,
                    payload,
                })
        }),
{
    reveal(frame_at);
    reveal(frame_intact);
    let raw = frame_bytes(seq, payload) + tail;
    let body = frame_body(seq, payload);
    let total = frame_total(payload.len() as int);
    assert(raw.subrange(0, 4) =~= le32_bytes(FRAME_MAGIC));
    lemma_le32_of_bytes(raw, 0, FRAME_MAGIC);
    assert(raw.subrange(4, 8) =~= le32_bytes(total as u32));
    lemma_le32_of_bytes(raw, 4, total as u32);
    assert(raw.subrange(8, 16) =~= le64_bytes(seq));
    lemma_le64_of_bytes(raw, 8, seq);
    assert(raw.take(total - 4) =~= body);
    assert(raw.subrange(total - 4, total) =~= le32_bytes(crc32c_of(body)));
    lemma_le32_of_bytes(raw, total - 4, crc32c_of(body));
    assert(raw.subrange(16, total - 4) =~= payload);
}

// -- the scan ----------------------------------------------------------------------------

/// The frames that a log holds from `pos` on: one after the other, each intact and with a larger
/// sequence than the one before it, which has `last_seq`.
pub open spec fn frames_from(log: Seq<u8>, pos: int, last_seq: u64) -> Seq<FrameView>
    decreases log.len() - pos,
{
    if pos < 0 || pos >= log.len() || !frame_intact(log.skip(pos)) {
        Seq::empty()
    } else {
        let frame = frame_at(log.skip(pos), pos);
        if last_seq >= frame.seq || frame.len == 0 || pos + frame.len > log.len() {
            Seq::empty()
        } else {
            seq![frame] + frames_from(log, pos + frame.len, frame.seq)
        }
    }
}

/// The frames that a log holds.
pub open spec fn frames_in(log: Seq<u8>) -> Seq<FrameView> {
    frames_from(log, 0, 0)
}

/// The callback was called with a frame and returned `out`.
pub open spec fn handed<F>(f: F, frame: FrameView, out: Result<(), Error>) -> bool
    where F: FnMut(&Frame) -> Result<(), Error>
{
    exists|given: &Frame| given@ == frame && #[trigger] call_ensures(f, (given,), out)
}

/// The callback may be called with every frame.
pub open spec fn frames_welcome<F>(f: F) -> bool
    where F: FnMut(&Frame) -> Result<(), Error>
{
    forall|given: &Frame| #[trigger] callable::<F, &Frame, Result<(), Error>>(f, given)
}

/// The callback got the first `n` frames and accepted each of them.
pub open spec fn accepted<F>(f: F, frames: Seq<FrameView>, n: int) -> bool
    where F: FnMut(&Frame) -> Result<(), Error>
{
    &&& 0 <= n <= frames.len()
    &&& forall|i: int| 0 <= i < n ==> handed(f, #[trigger] frames[i], Ok(()))
}

/// An intact frame is the same in more of the same bytes.
proof fn lemma_more_bytes(raw: Seq<u8>, all: Seq<u8>, offset: int)
    requires
        raw.len() <= all.len(),
        raw == all.take(raw.len() as int),
        frame_intact(raw),
    ensures
        frame_intact(all),
        frame_at(all, offset) == frame_at(raw, offset),
{
    reveal(frame_at);
    reveal(frame_intact);
    let total = le32(raw, 4) as int;
    assert forall|i: int| 0 <= i < raw.len() implies raw[i] == all[i] by {
        assert(raw[i] == all.take(raw.len() as int)[i]);
    }
    assert(le32(all, 0) == le32(raw, 0) && le32(all, 4) == le32(raw, 4));
    assert(le64(all, 8) == le64(raw, 8));
    assert(le32(all, total - 4) == le32(raw, total - 4));
    assert(all.take(total - 4) =~= raw.take(total - 4));
    assert(all.subrange(16, total - 4) =~= raw.subrange(16, total - 4));
}

/// What is not an intact frame in a whole chunk is none in more of the same bytes: a chunk holds
/// the largest frame.
proof fn lemma_chunk_suffices(raw: Seq<u8>, all: Seq<u8>)
    requires
        raw == read_from(all, 0, SCAN_BUF_SIZE as int),
        !frame_intact(raw),
    ensures
        !frame_intact(all),
{
    reveal(frame_at);
    reveal(frame_intact);
    if raw.len() < all.len() && frame_intact(all) {
        let total = le32(all, 4) as int;
        assert forall|i: int| 0 <= i < raw.len() implies raw[i] == all[i] by {}
        assert(le32(all, 0) == le32(raw, 0) && le32(all, 4) == le32(raw, 4));
        assert(le32(all, total - 4) == le32(raw, total - 4));
        assert(all.take(total - 4) =~= raw.take(total - 4));
    } else if raw.len() >= all.len() {
        assert(raw =~= all);
    }
}

/// The next frame of a log: the scan ends there, or goes on behind it.
proof fn lemma_next_frame(log: Seq<u8>, at: int, last_seq: u64, raw: Seq<u8>)
    requires
        0 <= at <= log.len(),
        raw.len() <= log.len() - at,
        raw == log.subrange(at, at + raw.len()),
        frame_intact(raw),
    ensures
        ({
            let frame = frame_at(raw, at);
            &&& MIN_FRAME_LEN <= frame.len <= raw.len()
            &&& frame.payload == raw.subrange(HEADER_LEN as int, frame.len - HASH_SIZE)
            &&& frames_from(log, at, last_seq) == if last_seq >= frame.seq {
                Seq::empty()
            } else {
                seq![frame] + frames_from(log, at + frame.len, frame.seq)
            }
        }),
{
    reveal(frame_at);
    reveal(frame_intact);
    let rest = log.skip(at);
    assert(raw =~= rest.take(raw.len() as int));
    lemma_more_bytes(raw, rest, at);
}

/// Nothing intact at the front of a chunk: the log holds no more frames.
proof fn lemma_no_more_frames(log: Seq<u8>, at: int, last_seq: u64)
    requires
        0 <= at,
        at >= log.len() || !frame_intact(read_from(log, at, SCAN_BUF_SIZE as int)),
    ensures
        frames_from(log, at, last_seq) == Seq::<FrameView>::empty(),
{
    if at < log.len() {
        let data = read_from(log, at, SCAN_BUF_SIZE as int);
        assert(data =~= read_from(log.skip(at), 0, SCAN_BUF_SIZE as int));
        lemma_chunk_suffices(data, log.skip(at));
    }
}

/// The frame that `raw` begins with, if it is intact.
fn intact_frame<'a>(raw: &'a [u8]) -> (frame: Option<Frame<'a>>)
    ensures
        match frame {
            Some(frame) => frame_intact(raw@) && frame@ == frame_at(raw@, 0),
            None => !frame_intact(raw@),
        },
{
    proof {
        reveal(frame_intact);
    }
    let mut frame = Frame::default();
    match frame_decode_into(raw, &mut frame) {
        Ok(()) => Some(frame),
        Err(_) => None,
    }
}

/// A frame is the same wherever it stands, but for its offset.
proof fn lemma_moved(raw: Seq<u8>, offset: int)
    ensures
        frame_at(raw, offset) == (FrameView { offset, ..frame_at(raw, 0) }),
{
    reveal(frame_at);
}

/// A scan of a log, frame by frame.
pub struct FrameScan<R: Reader> {
    source: R,
    /// The chunk that was last read, as far as `got` goes, which begins at `pos`.
    buf: Vec<u8>,
    pos: u64,
    got: usize,
    /// How far the scan got in the chunk.
    at: usize,
    last_seq: u64,
    ended: bool,
}

impl<R: Reader> FrameScan<R> {
    pub closed spec fn wf(&self) -> bool {
        let log = self.source.bytes();
        &&& self.buf@.len() == SCAN_BUF_SIZE
        &&& self.at <= self.got <= SCAN_BUF_SIZE
        &&& self.got > 0 ==> {
            &&& self.buf@.take(self.got as int) == read_from(
                log,
                self.pos as int,
                SCAN_BUF_SIZE as int,
            )
            &&& self.pos + self.got <= log.len() <= u64::MAX
        }
    }

    /// What the scan reads from.
    pub closed spec fn source(&self) -> R {
        self.source
    }

    /// The frames that are still to come.
    pub closed spec fn left(&self) -> Seq<FrameView> {
        if self.ended {
            Seq::empty()
        } else {
            frames_from(self.source.bytes(), self.pos + self.at, self.last_seq)
        }
    }

    pub fn new(source: R) -> (scan: FrameScan<R>)
        ensures
            scan.wf(),
            scan.source() == source,
            scan.left() == frames_in(source.bytes()),
    {
        FrameScan {
            source,
            buf: vec![0u8;SCAN_BUF_SIZE],
            pos: 0,
            got: 0,
            at: 0,
            last_seq: 0,
            ended: false,
        }
    }

    /// Steps past the next frame. Returns where in the chunk it begins, its sequence and its
    /// length.
    fn locate(&mut self) -> (found: Result<Option<(usize, u64, u32)>, Error>)
        requires
            old(self).wf(),
        ensures
            final(self).wf(),
            final(self).source() == old(self).source(),
            match found {
                Ok(Some((start, seq, len))) => {
                    let frame = old(self).left()[0];
                    &&& old(self).left().len() > 0
                    &&& final(self).left() == old(self).left().skip(1)
                    &&& start + len <= final(self).buf@.len()
                    &&& MIN_FRAME_LEN <= len
                    &&& frame.offset == final(self).pos + start <= u64::MAX
                    &&& frame.seq == seq
                    &&& frame.len == len
                    &&& frame.payload == final(self).buf@.subrange(
                        start + HEADER_LEN,
                        start + len - HASH_SIZE,
                    )
                },
                Ok(None) => old(self).left().len() == 0 && final(self).left() == old(self).left(),
                Err(e) => old(self).source().fails_with(e) && final(self).left() == old(
                    self,
                ).left(),
            },
    {
        let ghost log = self.source.bytes();
        loop
            invariant
                self.wf(),
                log == self.source.bytes(),
                self.source == old(self).source,
                self.left() == old(self).left(),
            decreases
                    if self.at == 0 && self.got > 0 {
                        0int
                    } else {
                        1int
                    },
        {
            if self.ended {
                return Ok(None);
            }
            let ghost last_seq = self.last_seq;
            if self.at < self.got {
                let raw = &self.buf[self.at..self.got];
                let ghost from = self.pos + self.at;
                assert(raw@ =~= log.subrange(from, from + raw@.len())) by {
                    let chunk = self.buf@.take(self.got as int);
                    assert(chunk.len() == self.got);
                    assert(chunk =~= log.subrange(self.pos as int, self.pos + self.got));
                    assert forall|i: int| 0 <= i < raw@.len() implies #[trigger] raw@[i]
                        == log.subrange(from, from + raw@.len())[i] by {
                        assert(raw@[i] == chunk[self.at + i]);
                    }
                }
                if let Some(frame) = intact_frame(raw) {
                    let (seq, len) = (frame.seq, frame.len);
                    proof {
                        lemma_next_frame(log, from, last_seq, raw@);
                        lemma_moved(raw@, from);
                    }
                    if self.last_seq >= seq {
                        self.ended = true;
                        return Ok(None);
                    }
                    let start: usize = self.at;
                    proof {
                        let more = self.left();
                        assert(more.skip(1) =~= frames_from(log, from + len, seq));
                        assert(more[0] == frame_at(raw@, from));
                        assert(raw@.subrange(16, len - 4) =~= self.buf@.subrange(
                            start + 16,
                            start + len - 4,
                        ));
                    }
                    self.last_seq = seq;
                    self.at = start + len as usize;
                    return Ok(Some((start, seq, len)));
                }
                if self.at == 0 {
                    // A whole chunk, and nothing intact at its front.
                    proof {
                        assert(raw@ =~= read_from(log, from, SCAN_BUF_SIZE as int));
                        lemma_no_more_frames(log, from, last_seq);
                    }
                    self.ended = true;
                    return Ok(None);
                }
            }
            self.pos = self.pos + self.at as u64;
            self.at = 0;
            self.got = 0;
            let got: usize = match self.source.read_at(self.pos, self.buf.as_mut_slice()) {
                Ok(got) => got,
                Err(e) => {
                    return Err(e);
                },
            };
            if got == 0 {
                proof {
                    lemma_no_more_frames(log, self.pos as int, last_seq);
                }
                self.ended = true;
                return Ok(None);
            }
            self.got = got;
            assert(self.buf@.take(got as int) =~= read_from(
                log,
                self.pos as int,
                SCAN_BUF_SIZE as int,
            ));
        }
    }

    /// The next frame of the log, if there is one. A read that fails can be tried again.
    pub fn next(&mut self) -> (next: Result<Option<Frame<'_>>, Error>)
        requires
            old(self).wf(),
        ensures
            final(self).wf(),
            final(self).source() == old(self).source(),
            match next {
                Ok(Some(frame)) => {
                    &&& old(self).left().len() > 0
                    &&& frame@ == old(self).left()[0]
                    &&& final(self).left() == old(self).left().skip(1)
                },
                Ok(None) => old(self).left().len() == 0 && final(self).left() == old(self).left(),
                Err(e) => old(self).source().fails_with(e) && final(self).left() == old(
                    self,
                ).left(),
            },
    {
        match self.locate() {
            Ok(Some((start, seq, len))) => Ok(
                Some(
                    Frame {
                        offset: self.pos + start as u64,
                        seq,
                        len,
                        payload: &self.buf[start + HEADER_LEN..start + len as usize - HASH_SIZE],
                    },
                ),
            ),
            Ok(None) => Ok(None),
            Err(e) => Err(e),
        }
    }
}

impl<'a, 'b> Noted for &'a Frame<'b> {
    type Note = FrameView;

    open spec fn note(self) -> FrameView {
        self@
    }
}

/// A call of a callback with a frame, and what it returned.
pub type FrameCall = (FrameView, Result<(), Error>);

/// The calls that a scan of a log made until it came to `scanned`: one for each of its frames, in
/// their order, up to the first that was not accepted. If all that were made were accepted, either
/// there were no more or a read failed.
pub open spec fn replayed(
    frames: Seq<FrameView>,
    made: Seq<FrameCall>,
    scanned: Result<(), Error>,
) -> bool {
    &&& made.len() <= frames.len()
    &&& forall|i: int| 0 <= i < made.len() ==> (#[trigger] made[i]).0 == frames[i]
    &&& forall|i: int| 0 <= i < made.len() - 1 ==> (#[trigger] made[i]).1 == Ok::<(), Error>(())
    &&& match scanned {
        Ok(()) => made.len() == frames.len() && (made.len() > 0 ==> made.last().1 == Ok::<
            (),
            Error,
        >(())),
        Err(e) => made.len() > 0 && made.last().1 is Err ==> made.last().1 == Err::<(), Error>(e),
    }
}

/// The last call was not accepted.
pub open spec fn refused(made: Seq<FrameCall>) -> bool {
    made.len() > 0 && made.last().1 is Err
}

/// Every call that was made could be made.
pub open spec fn calls_of<F>(f: F, frames: Seq<FrameView>, made: Seq<FrameCall>) -> bool
    where F: FnMut(&Frame) -> Result<(), Error>
{
    forall|i: int|
        #![trigger made[i]]
        #![trigger frames[i]]
        0 <= i < made.len() ==> handed(f, frames[i], made[i].1)
}

/// Hands every frame of the log to the callback, in order, until the callback fails.
pub fn frame_replay<R: Reader, F>(r: R, calls: &mut Calls<F, FrameCall>) -> (scanned: Result<
    (),
    Error,
>) where F: FnMut(&Frame) -> Result<(), Error>
    requires
        frames_welcome(old(calls).callback()),
    ensures
        final(calls).callback() == old(calls).callback(),
        exists|made: Seq<FrameCall>|
            {
                &&& final(calls).made() == old(calls).made() + made
                &&& #[trigger] replayed(frames_in(r.bytes()), made, scanned)
                &&& scanned is Err && !refused(made) ==> r.fails_with(scanned->Err_0)
                &&& calls_of(old(calls).callback(), frames_in(r.bytes()), made)
            },
{
    let ghost f = calls.callback();
    let ghost before = calls.made();
    let ghost frames = frames_in(r.bytes());
    let ghost mut made: Seq<FrameCall> = Seq::empty();
    let mut scan = FrameScan::new(r);
    assert(before + made =~= before);
    assert(frames.skip(0) =~= frames);
    loop
        invariant
            calls.callback() == f,
            f == old(calls).callback(),
            before == old(calls).made(),
            frames_welcome(f),
            frames == frames_in(r.bytes()),
            scan.wf(),
            scan.source() == r,
            calls.made() == before + made,
            made.len() <= frames.len(),
            scan.left() == frames.skip(made.len() as int),
            replayed(frames.take(made.len() as int), made, Ok(())),
            calls_of(f, frames, made),
        decreases frames.len() - made.len(),
    {
        let ghost n = made.len() as int;
        assert forall|i: int| 0 <= i < n implies (#[trigger] made[i]).0 == frames[i] && made[i].1
            == Ok::<(), Error>(()) by {
            assert(frames.take(n)[i] == frames[i]);
        }
        match scan.next() {
            Err(e) => {
                assert(replayed(frames, made, Err(e)));
                return Err(e);
            },
            Ok(None) => {
                assert(replayed(frames, made, Ok(())));
                return Ok(());
            },
            Ok(Some(frame)) => {
                let ghost view = frame@;
                let out = calls.call(&frame);
                proof {
                    let was = made;
                    assert(frames.skip(n)[0] == frames[n]);
                    assert(frames.skip(n).skip(1) =~= frames.skip(n + 1));
                    made = was.push((view, out));
                    assert(before + made =~= (before + was).push((view, out)));
                    assert(handed(f, frames[n], out));
                    assert forall|i: int| 0 <= i < made.len() implies (#[trigger] made[i]).0
                        == frames[i] && handed(f, frames[i], made[i].1) && (i < n ==> made[i].1
                        == Ok::<(), Error>(())) by {
                        if i < n {
                            assert(made[i] == was[i]);
                        }
                    }
                }
                match out {
                    Ok(unit) => {
                        assert(unit == ());
                        assert forall|i: int| 0 <= i < made.len() implies (#[trigger] made[i]).0
                            == frames.take(n + 1)[i] by {}
                    },
                    Err(e) => {
                        assert(replayed(frames, made, Err(e)));
                        return Err(e);
                    },
                }
            },
        }
    }
}

/// Hands every frame of the log to `f`, in order, until `f` fails.
pub fn frame_scan_all<R: Reader, F>(r: R, f: F) -> (scanned: Result<(), Error>)
    where F: FnMut(&Frame) -> Result<(), Error>
    requires
        frames_welcome(f),
    ensures
        exists|n: int| #[trigger]
            accepted(f, frames_in(r.bytes()), n) && match scanned {
                Ok(()) => n == frames_in(r.bytes()).len(),
                Err(e) => r.fails_with(e) || n < frames_in(r.bytes()).len() && handed(
                    f,
                    frames_in(r.bytes())[n],
                    Err(e),
                ),
            },
        exists|made: Seq<FrameCall>|
            {
                &&& #[trigger] all_calls(f, made)
                &&& replayed(frames_in(r.bytes()), made, scanned)
                &&& scanned is Err && !refused(made) ==> r.fails_with(scanned->Err_0)
            },
{
    let ghost frames = frames_in(r.bytes());
    let mut calls: Calls<F, FrameCall> = Calls::new(f);
    let scanned = frame_replay(r, &mut calls);
    proof {
        let made = calls.made();
        assert(Seq::<FrameCall>::empty() + made =~= made);
        assert(replayed(frames, made, scanned));
        let n = if refused(made) {
            made.len() - 1
        } else {
            made.len() as int
        };
        assert forall|i: int| 0 <= i < n implies handed(f, #[trigger] frames[i], Ok(())) by {
            assert(handed(f, frames[i], made[i].1));
            if i < made.len() - 1 {
                assert(made[i].1 == Ok::<(), Error>(()));
            } else {
                assert(made[i] == made.last());
                assert(made.last().1->Ok_0 == ());
                assert(made[i].1 == Ok::<(), Error>(()));
            }
        }
        if refused(made) {
            assert(handed(f, frames[n], made[n].1));
        }
        assert(accepted(f, frames, n));
    }
    calls.finish();
    scanned
}

/// Frames, each a sequence and a payload, one after the other.
pub open spec fn log_of(frames: Seq<(u64, Seq<u8>)>) -> Seq<u8>
    decreases frames.len(),
{
    if frames.len() == 0 {
        Seq::empty()
    } else {
        frame_bytes(frames[0].0, frames[0].1) + log_of(frames.skip(1))
    }
}

/// Those frames as a scan reports them, from an offset on.
pub open spec fn reported(frames: Seq<(u64, Seq<u8>)>, offset: int) -> Seq<FrameView>
    decreases frames.len(),
{
    if frames.len() == 0 {
        Seq::empty()
    } else {
        let (seq, payload) = frames[0];
        let len = frame_total(payload.len() as int);
        seq![FrameView { offset, seq, len: len as u32, payload }] + reported(
            frames.skip(1),
            offset + len,
        )
    }
}

/// The sequences ascend from `last_seq` on, and no frame is too large.
pub open spec fn well_sequenced(frames: Seq<(u64, Seq<u8>)>, last_seq: u64) -> bool
    decreases frames.len(),
{
    frames.len() > 0 ==> {
        &&& last_seq < frames[0].0
        &&& frame_total(frames[0].1.len() as int) <= FRAME_MAX_SIZE
        &&& well_sequenced(frames.skip(1), frames[0].0)
    }
}

/// The last sequence of some frames.
pub open spec fn last_seq_of(frames: Seq<(u64, Seq<u8>)>, last_seq: u64) -> u64 {
    if frames.len() == 0 {
        last_seq
    } else {
        frames.last().0
    }
}

proof fn lemma_scan_behind(
    head: Seq<u8>,
    frames: Seq<(u64, Seq<u8>)>,
    tail: Seq<u8>,
    last_seq: u64,
)
    requires
        well_sequenced(frames, last_seq),
    ensures
        ({
            let log = head + log_of(frames) + tail;
            let end = (head + log_of(frames)).len() as int;
            frames_from(log, head.len() as int, last_seq) == reported(frames, head.len() as int)
                + frames_from(log, end, last_seq_of(frames, last_seq))
        }),
    decreases frames.len(),
{
    let log = head + log_of(frames) + tail;
    let at = head.len() as int;
    if frames.len() == 0 {
        let end = (head + log_of(frames)).len() as int;
        assert(head + log_of(frames) =~= head);
        assert(reported(frames, at) + frames_from(log, end, last_seq) =~= frames_from(
            log,
            at,
            last_seq,
        ));
    } else {
        let (seq, payload) = frames[0];
        let rest = frames.skip(1);
        let bytes = frame_bytes(seq, payload);
        let raw = log.skip(at);
        law_frame_round_trip(seq, payload, log_of(rest) + tail);
        assert(raw =~= bytes + (log_of(rest) + tail));
        let frame = frame_at(raw, at);
        assert(log =~= (head + bytes) + log_of(rest) + tail);
        assert(head + log_of(frames) =~= (head + bytes) + log_of(rest));
        assert(frames_from(log, at, last_seq) == seq![frame] + frames_from(
            log,
            at + frame.len,
            frame.seq,
        ));
        lemma_scan_behind(head + bytes, rest, tail, seq);
        let end = (head + log_of(frames)).len() as int;
        let last = last_seq_of(frames, last_seq);
        assert(last_seq_of(rest, seq) == last) by {
            if rest.len() > 0 {
                assert(rest.last() == frames.last());
            } else {
                assert(frames.last() == frames[0]);
            }
        }
        assert(frames_from(log, at, last_seq) =~= reported(frames, at) + frames_from(
            log,
            end,
            last,
        ));
    }
}

/// A scan finds every frame that was written, in order and at its offset, as long as their
/// sequences ascend, and whatever it finds behind them is behind all of them.
pub proof fn law_scan_finds_frames(frames: Seq<(u64, Seq<u8>)>, tail: Seq<u8>)
    requires
        well_sequenced(frames, 0),
    ensures
        frames_in(log_of(frames) + tail) == reported(frames, 0) + frames_from(
            log_of(frames) + tail,
            log_of(frames).len() as int,
            last_seq_of(frames, 0),
        ),
{
    lemma_scan_behind(Seq::empty(), frames, tail, 0);
    assert(Seq::<u8>::empty() + log_of(frames) =~= log_of(frames));
}

/// A torn tail hides nothing of what is intact before it: where the bytes behind the frames are
/// not an intact frame, a scan finds the frames and nothing else.
pub proof fn law_torn_tail_is_cut(frames: Seq<(u64, Seq<u8>)>, tail: Seq<u8>)
    requires
        well_sequenced(frames, 0),
        !frame_intact(tail),
    ensures
        frames_in(log_of(frames) + tail) == reported(frames, 0),
{
    law_scan_finds_frames(frames, tail);
    let log = log_of(frames) + tail;
    let end = log_of(frames).len() as int;
    assert(log.skip(end) =~= tail);
    assert(frames_from(log, end, last_seq_of(frames, 0)) =~= Seq::empty());
    assert(reported(frames, 0) + Seq::<FrameView>::empty() =~= reported(frames, 0));
}

} // verus!
