//! What a single-file backend decides.
//!
//! All access to the file is positional, so the file cursor is never load-bearing and the length
//! kept here is the only thing that says where the end is. The file operations themselves are
//! done by whoever owns the file.

use crate::error::Error;
use vstd::prelude::*;

verus! {

/// What an append does to the file.
#[derive(Debug, Clone, Copy, PartialEq, Eq, Structural)]
pub enum AppendPlan {
    /// Nothing to write: just make what is there durable.
    SyncOnly,
    /// Write at this offset, then make it durable.
    WriteAt(u64),
}

/// The length of a file that only grows by whole appends.
#[derive(Debug)]
pub struct FileLog {
    len: u64,
}

impl FileLog {
    /// The length of the file.
    pub closed spec fn end(&self) -> u64 {
        self.len
    }

    /// A log over a file of `len` bytes.
    pub fn open(len: u64) -> (log: FileLog)
        ensures
            log.end() == len,
    {
        FileLog { len }
    }

    pub fn len(&self) -> (len: u64)
        ensures
            len == self.end(),
    {
        self.len
    }

    pub fn is_empty(&self) -> (empty: bool)
        ensures
            empty == (self.end() == 0),
    {
        self.len == 0
    }

    /// What has to be done to append `data`.
    pub fn plan_append(&self, data: &[u8]) -> (plan: AppendPlan)
        ensures
            plan == if data@.len() == 0 {
                AppendPlan::SyncOnly
            } else {
                AppendPlan::WriteAt(self.end())
            },
    {
        if data.len() == 0 {
            return AppendPlan::SyncOnly;
        }
        AppendPlan::WriteAt(self.len)
    }

    /// Ends an append with how it went: only what was written and made durable counts. Returns
    /// how many bytes that is.
    pub fn appended(&mut self, data: &[u8], outcome: Result<(), Error>) -> (written: Result<
        u64,
        Error,
    >)
        requires
            old(self).end() + data@.len() <= u64::MAX,
        ensures
            match outcome {
                Ok(()) => {
                    &&& written == Ok::<u64, Error>(data@.len() as u64)
                    &&& final(self).end() == old(self).end() + data@.len()
                },
                Err(e) => written == Err::<u64, Error>(e) && final(self).end() == old(self).end(),
            },
    {
        match outcome {
            Ok(()) => {
                self.len = self.len + data.len() as u64;
                Ok(data.len() as u64)
            },
            Err(e) => Err(e),
        }
    }

    /// Whether the log can be cut at `offset`: not past its end.
    pub fn check_truncate(&self, offset: u64) -> (checked: Result<(), Error>)
        ensures
            checked == if offset > self.end() {
                Err::<(), Error>(Error::TruncatePastEnd { offset, durable: self.end() })
            } else {
                Ok(())
            },
    {
        if offset > self.len {
            return Err(Error::TruncatePastEnd { offset, durable: self.len });
        }
        Ok(())
    }

    /// Ends a cut with how it went: a failed one leaves the length as it was.
    pub fn truncated(&mut self, offset: u64, outcome: Result<(), Error>) -> (cut: Result<
        (),
        Error,
    >)
        requires
            offset <= old(self).end(),
        ensures
            cut == outcome,
            final(self).end() == if outcome is Ok {
                offset
            } else {
                old(self).end()
            },
    {
        if outcome.is_ok() {
            self.len = offset;
        }
        outcome
    }
}

/// What one attempt to read brought.
#[derive(Debug)]
pub enum ReadOutcome {
    /// So many bytes, or the end of the data if there are none.
    Bytes(usize),
    /// The attempt was interrupted.
    Interrupted,
    Failed(Error),
}

/// How a read that has to fill its buffer goes on.
#[derive(Debug)]
pub enum FillStep {
    /// Read into the rest of the buffer, from here on.
    ReadFrom(usize),
    /// The buffer is full or the data ended.
    Done(usize),
    Failed(Error),
}

/// How a read goes on that has filled `pos` of `cap` bytes and then saw `outcome`. A short read is
/// no reason to stop: only the end of the data is.
pub fn fill_step(pos: usize, cap: usize, outcome: ReadOutcome) -> (step: FillStep)
    requires
        pos < cap,
        outcome matches ReadOutcome::Bytes(n) ==> n <= cap - pos,
    ensures
        step == match outcome {
            ReadOutcome::Bytes(n) => if n == 0 {
                FillStep::Done(pos)
            } else if pos + n < cap {
                FillStep::ReadFrom((pos + n) as usize)
            } else {
                FillStep::Done(cap)
            },
            ReadOutcome::Interrupted => FillStep::ReadFrom(pos),
            ReadOutcome::Failed(e) => FillStep::Failed(e),
        },
{
    match outcome {
        ReadOutcome::Bytes(n) => {
            if n == 0 {
                FillStep::Done(pos)
            } else if n < cap - pos {
                FillStep::ReadFrom(pos + n)
            } else {
                FillStep::Done(cap)
            }
        },
        ReadOutcome::Interrupted => FillStep::ReadFrom(pos),
        ReadOutcome::Failed(e) => FillStep::Failed(e),
    }
}

/// How a read into a buffer of `cap` bytes begins.
pub fn fill_start(cap: usize) -> (step: FillStep)
    ensures
        step == if cap == 0 {
            FillStep::Done(0)
        } else {
            FillStep::ReadFrom(0)
        },
{
    if cap == 0 {
        FillStep::Done(0)
    } else {
        FillStep::ReadFrom(0)
    }
}

} // verus!
