//! Append-only storage: one writer, many readers.
//!
//! [`Storage`] takes `&mut self` for writes; [`Reader`] takes `&self` for reads. That asymmetry is
//! the whole thing: it is why writes are serialized onto a single thread and reads are not
//! serialized at all.
//!
//! # Invariants
//!
//! - `visible <= pos <= file size`. `pos` is private to the writer; `visible` is published only
//!   after a batch is durable. The gap between them is the crash-losable window, and readers are
//!   fenced out of it.
//! - Poison on failure. A failed `append` leaves `pos` unknown, so the writer records the error
//!   and fails everything after it. `visible` simply stops advancing, hiding the bad tail.
//! - Recovery is derived, not stored. See [`frame`].

pub mod file;
pub mod frame;
pub mod journal;
pub mod writer;

use crate::calls::{all_calls, callable_with, Calls};
use crate::error::Error;
use vstd::prelude::*;

verus! {

/// What a scan should do next.
#[derive(Debug, Clone, Copy, PartialEq, Eq, Structural)]
pub enum Step {
    /// Keep going, reading from this absolute offset next.
    ///
    /// It has to be strictly past the offset the callback was handed, or the same bytes come back
    /// forever. [`Reader::scan_all`] rejects anything else rather than spinning on it.
    Continue(u64),
    /// Stop here.
    ///
    /// [`Reader::scan_all`] then reports the offset the final chunk started at, since a callback
    /// that stops partway through one cannot say how far into it it got.
    Stop,
}

/// The write side. Blocking, and exclusively owned by the writer.
///
/// Implementations see opaque bytes: framing is applied before `append` is called. The one
/// exception is recovery, which has to understand frames in order to find the last intact one.
pub trait Storage: Sized {
    type Reader: Reader;

    /// The bytes of the log, as far as its length goes. An implementation says what they are.
    open spec fn log(&self) -> Seq<u8> {
        arbitrary()
    }

    /// An error that a write can end with. An implementation says which those are.
    open spec fn fails_with(&self, e: Error) -> bool {
        arbitrary()
    }

    /// Appends `data` and makes it durable. A failure leaves the log that was there, but maybe with
    /// something behind it.
    fn append(&mut self, data: &[u8]) -> (written: Result<u64, Error>)
        ensures
            match written {
                Ok(n) => {
                    &&& n == data@.len()
                    &&& final(self).log() == old(self).log() + data@
                    &&& final(self).log().len() <= u64::MAX
                },
                Err(e) => {
                    &&& old(self).fails_with(e)
                    &&& old(self).log().is_prefix_of(final(self).log())
                },
            },
    ;

    /// The length of the log.
    fn len(&self) -> (len: u64)
        ensures
            len == self.log().len(),
    ;

    fn is_empty(&self) -> (empty: bool)
        ensures
            empty == (self.log().len() == 0),
    ;

    /// Cuts the log at `offset`, which must not be past its end. However it goes, what is before
    /// `offset` stays.
    fn truncate(&mut self, offset: u64) -> (cut: Result<(), Error>)
        ensures
            old(self).log().len() < offset ==> cut is Err && final(self).log() == old(self).log(),
            offset <= old(self).log().len() ==> match cut {
                Ok(()) => final(self).log() == old(self).log().take(offset as int),
                Err(e) => {
                    &&& old(self).fails_with(e)
                    &&& offset <= final(self).log().len()
                    &&& final(self).log().take(offset as int) == old(self).log().take(offset as int)
                },
            },
    ;

    /// A read handle onto the same data. Behind the log it may see what a failed append left there.
    fn reader(&self) -> (reader: Self::Reader)
        ensures
            self.log().is_prefix_of(reader.bytes()),
    ;
}

/// What a read at `offset` into a buffer of `cap` bytes brings.
pub open spec fn read_from(bytes: Seq<u8>, offset: int, cap: int) -> Seq<u8> {
    if offset >= bytes.len() {
        Seq::empty()
    } else if bytes.len() - offset < cap {
        bytes.skip(offset)
    } else {
        bytes.subrange(offset, offset + cap)
    }
}

/// The buffer after a read.
pub open spec fn filled(buf: Seq<u8>, read: Seq<u8>) -> Seq<u8> {
    read + buf.skip(read.len() as int)
}

/// The callback was called with the chunk at an offset and said what to do next.
pub open spec fn visited<F>(f: F, bytes: Seq<u8>, cap: int, offset: u64, out: Result<Step, Error>) -> bool
    where F: FnMut(u64, &[u8]) -> Result<Step, Error>
{
    exists|chunk: &[u8]|
        chunk@ == read_from(bytes, offset as int, cap) && #[trigger] call_ensures(
            f,
            (offset, chunk),
            out,
        )
}

/// The callback may be called with every chunk.
pub open spec fn visitable<F>(f: F) -> bool
    where F: FnMut(u64, &[u8]) -> Result<Step, Error>
{
    forall|offset: u64, chunk: &[u8]| #[trigger]
        callable_with::<F, u64, &[u8], Result<Step, Error>>(f, offset, chunk)
}

/// A call of a scan at `pos` that said to go on at `resume`, which is further on.
pub open spec fn resumed<F>(f: F, bytes: Seq<u8>, cap: int, pos: u64, resume: u64) -> bool
    where F: FnMut(u64, &[u8]) -> Result<Step, Error>
{
    &&& pos < resume
    &&& pos < bytes.len()
    &&& visited(f, bytes, cap, pos, Ok(Step::Continue(resume)))
}

/// The calls of a scan that went on from each of them: the first is at offset 0, and each of the
/// others where the one before it said.
pub open spec fn went_on<F>(f: F, bytes: Seq<u8>, cap: int, resumes: Seq<u64>) -> bool
    where F: FnMut(u64, &[u8]) -> Result<Step, Error>
{
    &&& resumes.len() > 0
    &&& resumes[0] == 0
    &&& forall|i: int, j: int|
        #![trigger resumes[i], resumes[j]]
        0 <= i < resumes.len() && j == i + 1 && j < resumes.len() ==> resumed(
            f,
            bytes,
            cap,
            resumes[i],
            resumes[j],
        )
}

/// How a scan that got as far as the last of `resumes` ended, if no read failed.
pub open spec fn scan_ended<F>(
    f: F,
    bytes: Seq<u8>,
    cap: int,
    resumes: Seq<u64>,
    out: Result<u64, Error>,
) -> bool
    where F: FnMut(u64, &[u8]) -> Result<Step, Error>
{
    let pos = resumes.last();
    match out {
        Ok(end) => {
            &&& end == pos
            &&& pos >= bytes.len() || visited(f, bytes, cap, pos, Ok(Step::Stop))
        },
        Err(e) => {
            ||| pos < bytes.len() && visited(f, bytes, cap, pos, Err(e))
            ||| exists|resume: u64|
                #![trigger visited(f, bytes, cap, pos, Ok(Step::Continue(resume)))]
                {
                    &&& resume <= pos < bytes.len()
                    &&& visited(f, bytes, cap, pos, Ok(Step::Continue(resume)))
                    &&& e == (Error::ScanNotAdvancing { resume, pos })
                }
        },
    }
}

/// Where a scan at `pos` goes on after what the callback said: nowhere, or further on.
pub open spec fn followed(step: Step, pos: u64) -> Result<Option<u64>, Error> {
    match step {
        Step::Stop => Ok(None),
        Step::Continue(resume) => if resume <= pos {
            Err(Error::ScanNotAdvancing { resume, pos })
        } else {
            Ok(Some(resume))
        },
    }
}

/// Where a scan at `pos` goes on after what the callback said, if it does.
///
/// A resume point that does not advance would hand the callback the same bytes forever. `read_at`
/// only reports `0` at the end of the data, so nothing else would ever end the scan.
pub fn follow(step: Step, pos: u64) -> (next: Result<Option<u64>, Error>)
    ensures
        next == followed(step, pos),
{
    match step {
        Step::Stop => Ok(None),
        Step::Continue(resume) => {
            if resume <= pos {
                return Err(Error::ScanNotAdvancing { resume, pos });
            }
            Ok(Some(resume))
        },
    }
}

/// A call of a callback with an offset and the chunk there, and what it returned.
pub type ChunkCall = (u64, Seq<u8>, Result<Step, Error>);

/// Where a scan that made these calls goes on: where the last of them said, if that is further on.
pub open spec fn next_chunk(made: Seq<ChunkCall>) -> Option<u64> {
    if made.len() == 0 {
        Some(0)
    } else {
        match made.last().2 {
            Ok(Step::Continue(resume)) => if resume > made.last().0 {
                Some(resume)
            } else {
                None
            },
            _ => None,
        }
    }
}

/// The calls of a scan with a buffer of `cap` bytes: the first at the front of the data, each of
/// the others where the one before it said, which is further on, and each with the chunk there.
pub open spec fn walked(bytes: Seq<u8>, cap: int, made: Seq<ChunkCall>) -> bool {
    &&& made.len() > 0 ==> made[0].0 == 0
    &&& forall|i: int|
        0 <= i < made.len() ==> {
            &&& (#[trigger] made[i]).0 < bytes.len()
            &&& made[i].1 == read_from(bytes, made[i].0 as int, cap)
        }
    &&& forall|i: int, j: int|
        #![trigger made[i], made[j]]
        0 <= i < made.len() && j == i + 1 && j < made.len() ==> made[i].0 < made[j].0
            && made[i].2 == Ok::<Step, Error>(Step::Continue(made[j].0))
}

/// How a scan that made these calls ended, if no read failed: at the end of the data, or with what
/// the last call said.
pub open spec fn walk_ended(
    bytes: Seq<u8>,
    made: Seq<ChunkCall>,
    end: Result<u64, Error>,
) -> bool {
    match next_chunk(made) {
        Some(pos) => pos >= bytes.len() && end == Ok::<u64, Error>(pos),
        None => end == match made.last().2 {
            Ok(Step::Stop) => Ok::<u64, Error>(made.last().0),
            Ok(Step::Continue(resume)) => Err(
                Error::ScanNotAdvancing { resume, pos: made.last().0 },
            ),
            Err(e) => Err(e),
        },
    }
}

/// The read side. Blocking, positional, and shared freely.
pub trait Reader: Sized {
    /// The bytes that can be read, which do not change while a handle is read from: a handle onto a
    /// log that grows is one onto what the log was, as far as that goes. An implementation says
    /// what they are.
    open spec fn bytes(&self) -> Seq<u8> {
        arbitrary()
    }

    /// An error that a read can end with. An implementation says which those are.
    open spec fn fails_with(&self, e: Error) -> bool {
        arbitrary()
    }

    /// Read at `offset` into `buf`, returning the byte count. `0` means end of data.
    ///
    /// Implementations must fill `buf` unless the data ends first. `pread` is allowed to come up
    /// short, so this is a real obligation, not a restatement: the recovery scan decodes frames
    /// out of one chunk at a time, and a read that stopped early mid-log would be
    /// indistinguishable from a torn tail and would cut the log there.
    fn read_at(&self, offset: u64, buf: &mut [u8]) -> (read: Result<usize, Error>)
        ensures
            self.bytes().len() <= u64::MAX,
            final(buf)@.len() == old(buf)@.len(),
            match read {
                Ok(n) => {
                    let got = read_from(self.bytes(), offset as int, old(buf)@.len() as int);
                    &&& n == got.len()
                    &&& final(buf)@ == filled(old(buf)@, got)
                },
                Err(e) => self.fails_with(e),
            },
    ;

    /// Read from byte zero in `buf`-sized chunks, handing each to `f`.
    ///
    /// `f` owns the cursor: it receives the absolute offset the chunk starts at and says where to
    /// resume with [`Step::Continue`]. That is what lets a callback parsing records leave a
    /// partial one at the end of a chunk and pick it up whole on the next read, since chunk
    /// boundaries fall wherever the buffer happens to end.
    ///
    /// Returns the offset the scan reached.
    fn scan_all<F>(&self, buf: &mut [u8], f: F) -> (end: Result<u64, Error>)
        where F: FnMut(u64, &[u8]) -> Result<Step, Error>
        requires
            visitable(f),
        ensures
            old(buf)@.len() == 0 ==> end == Err::<u64, Error>(Error::ScanBufferEmpty),
            old(buf)@.len() > 0 ==> exists|resumes: Seq<u64>| #[trigger]
                went_on(f, self.bytes(), old(buf)@.len() as int, resumes) && (scan_ended(
                    f,
                    self.bytes(),
                    old(buf)@.len() as int,
                    resumes,
                    end,
                ) || end is Err && self.fails_with(end->Err_0)),
            old(buf)@.len() == 0 ==> all_calls(f, Seq::<ChunkCall>::empty()),
            old(buf)@.len() > 0 ==> exists|made: Seq<ChunkCall>|
                {
                    &&& #[trigger] all_calls(f, made)
                    &&& walked(self.bytes(), old(buf)@.len() as int, made)
                    &&& walk_ended(self.bytes(), made, end) || next_chunk(made) is Some && end
                        is Err && self.fails_with(end->Err_0)
                },
    {
        let mut pos: u64 = 0;
        let ghost mut resumes: Seq<u64> = seq![0u64];
        let mut calls: Calls<F, ChunkCall> = Calls::new(f);
        if buf.len() == 0 {
            calls.finish();
            return Err(Error::ScanBufferEmpty);
        }
        loop
            invariant
                calls.callback() == f,
                walked(self.bytes(), buf@.len() as int, calls.made()),
                next_chunk(calls.made()) == Some(pos),
                visitable(f),
                buf@.len() == old(buf)@.len(),
                buf@.len() > 0,
                resumes.len() > 0,
                resumes.last() == pos,
                went_on(f, self.bytes(), buf@.len() as int, resumes),
            decreases u64::MAX - pos,
        {
            let n: usize = match self.read_at(pos, buf) {
                Ok(n) => n,
                Err(e) => {
                    calls.finish();
                    return Err(e);
                },
            };
            if n == 0 {
                calls.finish();
                return Ok(pos);
            }
            let chunk = &buf[0..n];
            assert(chunk@ =~= read_from(self.bytes(), pos as int, buf@.len() as int));
            let ghost before = calls.made();
            let out = calls.call_with(pos, chunk);
            proof {
                let made = calls.made();
                assert forall|i: int| 0 <= i < made.len() implies {
                    &&& (#[trigger] made[i]).0 < self.bytes().len()
                    &&& made[i].1 == read_from(self.bytes(), made[i].0 as int, buf@.len() as int)
                } by {
                    if i < before.len() {
                        assert(made[i] == before[i]);
                    }
                }
                assert forall|i: int, j: int|
                    #![trigger made[i], made[j]]
                    0 <= i < made.len() && j == i + 1 && j < made.len() implies made[i].0
                    < made[j].0 && made[i].2 == Ok::<Step, Error>(Step::Continue(made[j].0)) by {
                    assert(made[i] == before[i]);
                    if j < before.len() {
                        assert(made[j] == before[j]);
                    } else {
                        assert(before[i] == before.last());
                    }
                }
            }
            let step = match out {
                Err(e) => {
                    calls.finish();
                    return Err(e);
                },
                Ok(step) => step,
            };
            assert(visited(f, self.bytes(), buf@.len() as int, resumes.last(), Ok(step)));
            match follow(step, pos) {
                Err(e) => {
                    assert(step is Continue);
                    calls.finish();
                    return Err(e);
                },
                Ok(None) => {
                    calls.finish();
                    return Ok(pos);
                },
                Ok(Some(resume)) => {
                    assert(step == Step::Continue(resume));
                    proof {
                        let longer = resumes.push(resume);
                        assert forall|i: int, j: int|
                            #![trigger longer[i], longer[j]]
                            0 <= i < longer.len() && j == i + 1 && j < longer.len() implies resumed(
                            f,
                            self.bytes(),
                            buf@.len() as int,
                            longer[i],
                            longer[j],
                        ) by {
                            if j < resumes.len() {
                                assert(longer[i] == resumes[i] && longer[j] == resumes[j]);
                            }
                        }
                        resumes = longer;
                    }
                    pos = resume;
                },
            }
        }
    }
}

} // verus!
