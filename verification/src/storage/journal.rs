//! A store, and the record of what was asked of it.

use super::Storage;
use crate::error::Error;
use vstd::prelude::*;

verus! {

/// What was asked of a store, and how it went.
pub enum StoreCall {
    Append { data: Seq<u8>, written: Result<u64, Error> },
    Truncate { offset: u64, cut: Result<(), Error> },
}

/// A store that can be written to only through here, and what was asked of it, in that order.
pub struct Journal<S: Storage> {
    store: S,
    asked: Ghost<Seq<StoreCall>>,
}

impl<S: Storage> Journal<S> {
    /// The store.
    pub closed spec fn store(&self) -> S {
        self.store
    }

    /// What was asked of the store.
    pub closed spec fn asked(&self) -> Seq<StoreCall> {
        self.asked@
    }

    pub fn new(store: S) -> (journal: Journal<S>)
        ensures
            journal.store() == store,
            journal.asked() == Seq::<StoreCall>::empty(),
    {
        Journal { store, asked: Ghost(Seq::empty()) }
    }

    /// The length of the log.
    pub fn len(&self) -> (len: u64)
        ensures
            len == self.store().log().len(),
    {
        self.store.len()
    }

    /// Has the store append `data`, once and as a whole.
    pub fn append(&mut self, data: &[u8]) -> (written: Result<u64, Error>)
        ensures
            final(self).asked() == old(self).asked().push(
                StoreCall::Append { data: data@, written },
            ),
            match written {
                Ok(n) => {
                    &&& n == data@.len()
                    &&& final(self).store().log() == old(self).store().log() + data@
                    &&& final(self).store().log().len() <= u64::MAX
                },
                Err(e) => {
                    &&& old(self).store().fails_with(e)
                    &&& old(self).store().log().is_prefix_of(final(self).store().log())
                },
            },
    {
        let written = self.store.append(data);
        self.asked = Ghost(self.asked@.push(StoreCall::Append { data: data@, written }));
        written
    }

    /// Has the store cut its log at `offset`.
    pub fn truncate(&mut self, offset: u64) -> (cut: Result<(), Error>)
        ensures
            final(self).asked() == old(self).asked().push(StoreCall::Truncate { offset, cut }),
            old(self).store().log().len() < offset ==> cut is Err && final(self).store().log()
                == old(self).store().log(),
            offset <= old(self).store().log().len() ==> match cut {
                Ok(()) => final(self).store().log() == old(self).store().log().take(offset as int),
                Err(e) => {
                    &&& old(self).store().fails_with(e)
                    &&& offset <= final(self).store().log().len()
                    &&& final(self).store().log().take(offset as int) == old(
                        self,
                    ).store().log().take(offset as int)
                },
            },
    {
        let cut = self.store.truncate(offset);
        self.asked = Ghost(self.asked@.push(StoreCall::Truncate { offset, cut }));
        cut
    }

    /// The store, to be used by others.
    pub fn into_store(self) -> (store: S)
        ensures
            store == self.store(),
    {
        self.store
    }
}

} // verus!
