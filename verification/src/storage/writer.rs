//! The group-committing writer and what readers may see of its work.
//!
//! Commands are absorbed into a batch, the batch is appended at once, and everybody who waits for
//! a part of it gets the same answer.

use super::frame::FRAME_MAX_SIZE;
use super::journal::{Journal, StoreCall};
use super::{filled, read_from, Reader, Storage};
use crate::error::{Error, ErrorKind};
use vstd::prelude::*;
use vstd::string::*;

verus! {

/// Soft cap on a group commit. Once the scratch buffer reaches this, the loop stops absorbing and
/// writes what it has.
pub const MAX_BATCH: usize = 0x40_0000;

/// Blocking reads in flight, by default. Bounded because a pool of blocking threads is far larger
/// than what a disk can usefully service at once.
pub const DEFAULT_READ_CONCURRENCY: usize = 32;

/// Bytes that wait for the writer, by default.
pub const DEFAULT_QUEUED_BYTES: usize = 0x200_0000;

/// What the writer is asked to do, and by whom.
pub enum Cmd<A> {
    Append { data: Vec<u8>, ack: A },
    /// Contributes no bytes; just forces the batch it lands in to sync.
    Sync { ack: A },
}

impl<A> Cmd<A> {
    /// The bytes that the command adds to a batch.
    pub open spec fn bytes(self) -> Seq<u8> {
        match self {
            Cmd::Append { data, .. } => data@,
            Cmd::Sync { .. } => Seq::empty(),
        }
    }

    /// Who waits for the command.
    pub open spec fn waiter(self) -> A {
        match self {
            Cmd::Append { ack, .. } => ack,
            Cmd::Sync { ack } => ack,
        }
    }
}

/// Two errors say the same.
pub open spec fn alike(a: Error, b: Error) -> bool {
    &&& a.spec_kind() == b.spec_kind()
    &&& a.spec_code() == b.spec_code()
    &&& a.text() == b.text()
}

/// An error that says the same: the batch fan-out needs one error per waiter.
pub fn clone_err(e: &Error) -> (copy: Error)
    ensures
        alike(copy, *e),
{
    Error::Outside { kind: e.kind(), code: e.code(), message: e.message() }
}

/// Everybody who waited gets the same answer.
pub open spec fn all_told<A>(
    waiters: Seq<A>,
    acks: Seq<(A, Result<(), Error>)>,
    answer: Result<(), Error>,
) -> bool {
    &&& acks.len() == waiters.len()
    &&& forall|i: int|
        0 <= i < acks.len() ==> (#[trigger] acks[i]).0 == waiters[i] && match answer {
            Ok(()) => acks[i].1 is Ok,
            Err(e) => acks[i].1 is Err && alike(acks[i].1->Err_0, e),
        }
}

/// The writer's side: the store, the batch that is being collected, the watermark up to which
/// readers may read, and the error that stopped the writer, if one did.
pub struct Committer<S: Storage, A> {
    store: Journal<S>,
    scratch: Vec<u8>,
    waiters: Vec<A>,
    visible: u64,
    poison: Option<Error>,
    /// Whether a failed batch may have left bytes behind the watermark.
    torn: bool,
}

impl<S: Storage, A> Committer<S, A> {
    /// The log of the store.
    pub closed spec fn log(&self) -> Seq<u8> {
        self.store.store().log()
    }

    /// What was asked of the store.
    pub closed spec fn asked(&self) -> Seq<StoreCall> {
        self.store.asked()
    }

    /// The bytes of the batch so far.
    pub closed spec fn batch(&self) -> Seq<u8> {
        self.scratch@
    }

    /// Those who wait for the batch.
    pub closed spec fn waiting(&self) -> Seq<A> {
        self.waiters@
    }

    /// The watermark.
    pub closed spec fn mark(&self) -> u64 {
        self.visible
    }

    /// The error that stopped the writer.
    pub closed spec fn stopped_by(&self) -> Option<Error> {
        self.poison
    }

    /// A failed batch may have left bytes behind the watermark.
    pub closed spec fn is_torn(&self) -> bool {
        self.torn
    }

    /// What readers may see: the log up to the watermark.
    pub open spec fn seen(&self) -> Seq<u8> {
        self.log().take(self.mark() as int)
    }

    /// An error that the store can end a write with.
    pub closed spec fn store_fails(&self, e: Error) -> bool {
        self.store.store().fails_with(e)
    }

    /// The watermark is not past the end of the log. Until an error stops the writer it is the
    /// end of the log, and nothing is left torn.
    pub closed spec fn wf(&self) -> bool {
        &&& self.visible <= self.store.store().log().len()
        &&& self.poison is None ==> self.visible == self.store.store().log().len() && !self.torn
    }

    /// Readers are never shown more than the log holds.
    pub proof fn law_seen_is_in_log(&self)
        requires
            self.wf(),
        ensures
            self.mark() <= self.log().len(),
            self.seen().len() == self.mark(),
    {
    }

    /// A writer over a store, with the whole log visible.
    pub fn new(store: S) -> (committer: Committer<S, A>)
        ensures
            committer.wf(),
            committer.log() == store.log(),
            committer.mark() == store.log().len(),
            committer.seen() == store.log(),
            committer.asked() == Seq::<StoreCall>::empty(),
            forall|e: Error| #[trigger] committer.store_fails(e) == store.fails_with(e),
            committer.batch() == Seq::<u8>::empty(),
            committer.waiting() == Seq::<A>::empty(),
            committer.stopped_by() is None,
            !committer.is_torn(),
    {
        let visible: u64 = store.len();
        let committer = Committer {
            store: Journal::new(store),
            scratch: Vec::new(),
            waiters: Vec::new(),
            visible,
            poison: None,
            torn: false,
        };
        assert(committer.seen() =~= store.log());
        committer
    }

    /// Takes a command into the batch.
    pub fn absorb(&mut self, cmd: Cmd<A>)
        requires
            old(self).wf(),
        ensures
            final(self).wf(),
            final(self).batch() == old(self).batch() + cmd.bytes(),
            final(self).waiting() == old(self).waiting().push(cmd.waiter()),
            final(self).log() == old(self).log(),
            final(self).asked() == old(self).asked(),
            final(self).mark() == old(self).mark(),
            final(self).stopped_by() == old(self).stopped_by(),
            final(self).is_torn() == old(self).is_torn(),
            forall|e: Error| #[trigger] final(self).store_fails(e) == old(self).store_fails(e),
    {
        match cmd {
            Cmd::Append { mut data, ack } => {
                self.scratch.append(&mut data);
                self.waiters.push(ack);
            },
            Cmd::Sync { ack } => {
                self.waiters.push(ack);
                assert(self.scratch@ =~= old(self).scratch@ + Seq::<u8>::empty());
            },
        }
    }

    /// Whether the batch takes another command.
    pub fn wants_more(&self) -> (more: bool)
        ensures
            more == (self.batch().len() < MAX_BATCH),
    {
        self.scratch.len() < MAX_BATCH
    }

    /// The watermark.
    pub fn visible(&self) -> (mark: u64)
        ensures
            mark == self.mark(),
    {
        self.visible
    }

    /// Ends the batch with what the store said to it, or would have said: once stopped, the
    /// writer does not ask. Returns the answers.
    fn conclude(&mut self, written: Result<u64, Error>) -> (acks: Vec<(A, Result<(), Error>)>)
        requires
            old(self).poison is None ==> (written matches Ok(n) ==> old(self).visible + n
                <= u64::MAX),
        ensures
            final(self).store == old(self).store,
            final(self).scratch@.len() == 0,
            final(self).waiters@.len() == 0,
            match old(self).poison {
                Some(e) => {
                    &&& all_told(old(self).waiters@, acks@, Err(e))
                    &&& final(self).visible == old(self).visible
                    &&& final(self).poison == old(self).poison
                    &&& final(self).torn == old(self).torn
                },
                None => match written {
                    Ok(n) => {
                        &&& all_told(old(self).waiters@, acks@, Ok(()))
                        &&& final(self).visible == old(self).visible + n
                        &&& final(self).poison is None
                        &&& final(self).torn == old(self).torn
                    },
                    Err(e) => {
                        &&& all_told(old(self).waiters@, acks@, Err(e))
                        &&& final(self).visible == old(self).visible
                        &&& final(self).poison == Some(e)
                        &&& final(self).torn
                    },
                },
            },
    {
        if self.poison.is_none() {
            match written {
                Ok(n) => {
                    self.visible = self.visible + n;
                },
                Err(e) => {
                    self.poison = Some(e);
                    self.torn = true;
                },
            }
        }
        let mut waiters: Vec<A> = Vec::new();
        std::mem::swap(&mut waiters, &mut self.waiters);
        self.scratch.clear();
        tell_all(waiters, &self.poison)
    }

    /// Appends the batch, once for everybody who waits for a part of it. A failure stops the
    /// writer: this batch and everything after it fails with the same error, and the watermark
    /// stays where it is.
    pub fn commit(&mut self) -> (acks: Vec<(A, Result<(), Error>)>)
        requires
            old(self).wf(),
        ensures
            final(self).wf(),
            final(self).batch() == Seq::<u8>::empty(),
            final(self).waiting() == Seq::<A>::empty(),
            match old(self).stopped_by() {
                Some(e) => {
                    &&& all_told(old(self).waiting(), acks@, Err(e))
                    &&& final(self).log() == old(self).log()
                    &&& final(self).asked() == old(self).asked()
                    &&& final(self).mark() == old(self).mark()
                    &&& final(self).stopped_by() == old(self).stopped_by()
                    &&& final(self).is_torn() == old(self).is_torn()
                },
                None => match final(self).stopped_by() {
                    None => {
                        &&& all_told(old(self).waiting(), acks@, Ok(()))
                        &&& final(self).log() == old(self).log() + old(self).batch()
                        &&& final(self).asked() == old(self).asked().push(
                            StoreCall::Append {
                                data: old(self).batch(),
                                written: Ok(old(self).batch().len() as u64),
                            },
                        )
                        &&& final(self).mark() == old(self).mark() + old(self).batch().len()
                        &&& final(self).seen() == old(self).seen() + old(self).batch()
                        &&& !final(self).is_torn()
                    },
                    Some(e) => {
                        &&& old(self).store_fails(e)
                        &&& final(self).asked() == old(self).asked().push(
                            StoreCall::Append { data: old(self).batch(), written: Err(e) },
                        )
                        &&& all_told(old(self).waiting(), acks@, Err(e))
                        &&& old(self).log().is_prefix_of(final(self).log())
                        &&& final(self).mark() == old(self).mark()
                        &&& final(self).seen() == old(self).seen()
                        &&& final(self).is_torn()
                    },
                },
            },
    {
        if self.poison.is_some() {
            let acks = self.conclude(Ok(0));
            assert(self.scratch@ =~= Seq::<u8>::empty());
            assert(self.waiters@ =~= Seq::<A>::empty());
            return acks;
        }
        let written = self.store.append(&self.scratch);
        let acks = self.conclude(written);
        proof {
            if self.poison is None {
                assert(self.seen() =~= old(self).seen() + old(self).batch());
            } else {
                let before = old(self).log();
                let after = self.log();
                assert(before =~= after.take(before.len() as int));
                assert(self.seen() =~= old(self).seen());
            }
        }
        assert(self.scratch@ =~= Seq::<u8>::empty());
        assert(self.waiters@ =~= Seq::<A>::empty());
        acks
    }

    /// Notes how the attempt to cut off a torn tail went.
    fn conclude_repair(&mut self, cut: Result<(), Error>)
        requires
            old(self).poison is Some,
        ensures
            final(self).store == old(self).store,
            final(self).scratch == old(self).scratch,
            final(self).waiters == old(self).waiters,
            final(self).visible == old(self).visible,
            final(self).torn == cut is Err,
            match cut {
                Ok(()) => final(self).poison == old(self).poison,
                Err(e) => {
                    &&& final(self).poison is Some
                    &&& final(self).poison->0.spec_kind() == ErrorKind::Other
                    &&& final(self).poison->0.spec_code() is None
                    &&& final(self).poison->0.text() == old(self).poison->0.text()
                        + "; repair failed: "@ + e.text()
                },
            },
    {
        match cut {
            Ok(()) => {
                self.torn = false;
            },
            Err(e) => {
                self.torn = true;
                if let Some(cause) = &self.poison {
                    let mut message = cause.message();
                    message.append("; repair failed: ");
                    message.append(e.message().as_str());
                    self.poison = Some(
                        Error::Outside { kind: ErrorKind::Other, code: None, message },
                    );
                }
            },
        }
    }

    /// Cuts off what a failed batch may have left behind the watermark. The writer stays stopped;
    /// where the cut fails, its error says so too.
    pub fn repair(&mut self)
        requires
            old(self).wf(),
        ensures
            final(self).wf(),
            final(self).batch() == old(self).batch(),
            final(self).waiting() == old(self).waiting(),
            final(self).mark() == old(self).mark(),
            final(self).seen() == old(self).seen(),
            final(self).stopped_by() is Some <==> old(self).stopped_by() is Some,
            !old(self).is_torn() ==> *final(self) == *old(self),
            old(self).is_torn() && !final(self).is_torn() ==> {
                &&& final(self).asked() == old(self).asked().push(
                    StoreCall::Truncate { offset: old(self).mark(), cut: Ok(()) },
                )
                &&& final(self).stopped_by() == old(self).stopped_by()
                &&& final(self).log() == old(self).seen()
            },
            old(self).is_torn() && final(self).is_torn() ==> {
                &&& final(self).stopped_by()->0.spec_kind() == ErrorKind::Other
                &&& final(self).stopped_by()->0.spec_code() is None
                &&& exists|why: Error|
                    {
                        &&& old(self).store_fails(why)
                        &&& final(self).stopped_by()->0.text() == old(self).stopped_by()->0.text()
                            + "; repair failed: "@ + #[trigger] why.text()
                        &&& final(self).asked() == old(self).asked().push(
                            StoreCall::Truncate { offset: old(self).mark(), cut: Err(why) },
                        )
                    }
            },
    {
        if !self.torn {
            return;
        }
        let cut = self.store.truncate(self.visible);
        assert(cut is Ok ==> cut->Ok_0 == () && cut == Ok::<(), Error>(()));
        self.conclude_repair(cut);
        assert(self.seen() =~= old(self).seen());
    }

    /// Ends the writer: the store, or the error that stopped it.
    pub fn finish(self) -> (store: Result<S, Error>)
        ensures
            match self.stopped_by() {
                None => store is Ok && store->Ok_0.log() == self.log(),
                Some(e) => store is Err && alike(store->Err_0, e),
            },
    {
        match self.poison {
            None => Ok(self.store.into_store()),
            Some(e) => Err(clone_err(&e)),
        }
    }
}

/// Gives everybody the same answer: the error, if there is one.
fn tell_all<A>(waiters: Vec<A>, error: &Option<Error>) -> (acks: Vec<(A, Result<(), Error>)>)
    ensures
        all_told(
            waiters@,
            acks@,
            match *error {
                None => Ok(()),
                Some(e) => Err(e),
            },
        ),
{
    let ghost all = waiters@;
    let mut rest = waiters;
    let mut acks: Vec<(A, Result<(), Error>)> = Vec::new();
    while rest.len() > 0
        invariant
            acks@.len() + rest@.len() == all.len(),
            rest@ == all.skip(acks@.len() as int),
            forall|i: int|
                0 <= i < acks@.len() ==> (#[trigger] acks@[i]).0 == all[i] && match *error {
                    None => acks@[i].1 is Ok,
                    Some(e) => acks@[i].1 is Err && alike(acks@[i].1->Err_0, e),
                },
        decreases rest@.len(),
    {
        let waiter = rest.remove(0);
        let answer: Result<(), Error> = match error {
            None => Ok(()),
            Some(e) => Err(clone_err(e)),
        };
        acks.push((waiter, answer));
        assert(rest@ =~= all.skip(acks@.len() as int));
    }
    acks
}

/// How many bytes a batch of one request waits for room for, if it is not too big.
pub fn append_permits(data: &Vec<u8>) -> (permits: Result<u32, Error>)
    ensures
        permits == if data@.len() > FRAME_MAX_SIZE {
            Err::<u32, Error>(Error::AppendTooBig)
        } else {
            Ok(data@.len() as u32)
        },
{
    if data.len() > FRAME_MAX_SIZE as usize {
        return Err(Error::AppendTooBig);
    }
    Ok(data.len() as u32)
}

/// What a request is answered: what the writer said to it, or that the writer is gone.
pub fn answered(ack: Option<Result<(), Error>>) -> (answer: Result<(), Error>)
    ensures
        match ack {
            Some(Ok(())) => answer is Ok,
            Some(Err(e)) => answer is Err && alike(answer->Err_0, e),
            None => answer == Err::<(), Error>(Error::WriterStopped),
        },
{
    match ack {
        Some(Ok(())) => Ok(()),
        Some(Err(e)) => Err(clone_err(&e)),
        None => Err(Error::WriterStopped),
    }
}

/// A reader and the watermark as it was when the handle was made. Every read is clamped to it, so
/// a reader can never observe bytes that a crash would take back.
pub struct ReadHandle<R> {
    inner: R,
    end: u64,
}

impl<R: Reader> ReadHandle<R> {
    /// What is read from.
    pub closed spec fn source(&self) -> Seq<u8> {
        self.inner.bytes()
    }

    /// The watermark.
    pub closed spec fn mark(&self) -> u64 {
        self.end
    }

    /// An error that a read can end with.
    pub closed spec fn fails_with(&self, e: Error) -> bool {
        self.inner.fails_with(e)
    }

    pub fn new(inner: R, end: u64) -> (handle: ReadHandle<R>)
        ensures
            handle.source() == inner.bytes(),
            handle.mark() == end,
            forall|e: Error| #[trigger] handle.fails_with(e) == inner.fails_with(e),
    {
        ReadHandle { inner, end }
    }

    pub fn len(&self) -> (len: u64)
        ensures
            len == self.mark(),
    {
        self.end
    }

    pub fn is_empty(&self) -> (empty: bool)
        ensures
            empty == (self.mark() == 0),
    {
        self.len() == 0
    }

    /// How many bytes of a read at `offset` for `cap` bytes are before the watermark.
    pub open spec fn clamped(&self, offset: u64, cap: nat) -> int {
        if offset >= self.mark() {
            0
        } else if self.mark() - offset < cap {
            self.mark() - offset
        } else {
            cap as int
        }
    }

    /// What a read comes to. It brings what there is from `offset` on, as long as neither the
    /// watermark nor the data nor the buffer ends, and leaves the rest of the buffer alone.
    pub open spec fn reads(
        &self,
        offset: u64,
        before: Seq<u8>,
        after: Seq<u8>,
        read: Result<usize, Error>,
    ) -> bool {
        &&& after.len() == before.len()
        &&& match read {
            Ok(n) => {
                &&& n <= before.len()
                &&& n > 0 ==> offset + n <= self.mark() && offset + n <= self.source().len()
                &&& n == before.len() || offset + n >= self.mark() || offset + n
                    >= self.source().len()
                &&& forall|i: int| 0 <= i < n ==> #[trigger] after[i] == self.source()[offset + i]
                &&& forall|i: int| n <= i < before.len() ==> #[trigger] after[i] == before[i]
            },
            Err(e) => {
                &&& self.fails_with(e)
                &&& before.len() > 0 && offset < self.mark()
                &&& forall|i: int|
                    self.mark() - offset <= i < before.len() ==> #[trigger] after[i] == before[i]
            },
        }
    }

    /// Reads at `offset` into `buf`, up to the watermark. Nothing of `buf` past that is touched.
    pub fn read_at(&self, offset: u64, buf: &mut [u8]) -> (read: Result<usize, Error>)
        ensures
            final(buf)@.len() == old(buf)@.len(),
            match read {
                Ok(n) => {
                    let got = read_from(
                        self.source(),
                        offset as int,
                        self.clamped(offset, old(buf)@.len()),
                    );
                    &&& n == got.len()
                    &&& final(buf)@ == filled(old(buf)@, got)
                    &&& n > 0 ==> offset + n <= self.mark()
                },
                Err(e) => {
                    let c = self.clamped(offset, old(buf)@.len());
                    &&& self.fails_with(e)
                    &&& c > 0
                    &&& final(buf)@.skip(c) == old(buf)@.skip(c)
                },
            },
            self.reads(offset, old(buf)@, final(buf)@, read),
    {
        let end: u64 = self.len();
        if offset >= end || buf.len() == 0 {
            proof {
                let got = read_from(
                    self.source(),
                    offset as int,
                    self.clamped(offset, old(buf)@.len()),
                );
                assert(got =~= Seq::empty());
                assert(buf@ =~= filled(old(buf)@, got));
                assert(self.reads(offset, old(buf)@, buf@, Ok(0)));
            }
            return Ok(0);
        }
        let want: usize = if end - offset < buf.len() as u64 {
            (end - offset) as usize
        } else {
            buf.len()
        };
        let ghost before = buf@;
        let (front, back) = buf.split_at_mut(want);
        let read = self.inner.read_at(offset, front);
        proof {
            assert(before.skip(want as int) =~= (front@ + back@).skip(want as int));
            if let Ok(n) = read {
                let got = read_from(self.source(), offset as int, want as int);
                assert(front@ + back@ =~= filled(before, got));
            }
        }
        read
    }
}

} // verus!
