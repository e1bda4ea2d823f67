//! Data files: a sequence number, records up to a largest size, and once sealed a footer of 21
//! bytes, `[u64 min_seq][u64 max_seq][u32 hash]['C']`.
//!
//! The file operations themselves are done by whoever owns the file.

use crate::checksum::{crc32c_append, crc32c_extend, crc32c_of};
use crate::data::util::{
    u16_from_pos, u16_write_at, u32_from_pos, u32_write_at, u64_from_pos, u64_write_at,
};
use crate::error::Error;
use crate::le::{
    le16, le16_bytes, le32, le32_bytes, le64, le64_bytes, lemma_le32_of_bytes, lemma_le64_of_bytes,
};
use crate::text::{decimal, with_number};
use vstd::prelude::*;

verus! {

pub const FOOTER_LEN: usize = 21;

/// The last byte of a sealed file.
pub const SEALED: u8 = 0x43;

/// How many bytes are hashed at once.
pub const HASH_CHUNK: usize = 5 * 1024 * 1024;

/// Writes between two syncs.
pub const SYNC_EVERY: u8 = 100;

#[derive(Debug)]
pub struct DbFile {
    pub seq: u16,
    pub written: usize,
    pub max_size: u64,
    pub min_seq: u64,
    pub max_seq: u64,
    pub write_ops: u8,
    pub hash: u32,
}

/// The footer of a sealed file.
pub open spec fn footer_bytes(min_seq: u64, max_seq: u64, hash: u32) -> Seq<u8> {
    le64_bytes(min_seq) + le64_bytes(max_seq) + le32_bytes(hash) + seq![SEALED]
}

/// The name of the file with a sequence number.
pub fn file_name(file_seq: u16) -> (name: String)
    ensures
        name@ == "data/"@ + decimal(file_seq as int) + ".breezy"@,
{
    with_number("data/", file_seq as u64, ".breezy")
}

impl DbFile {
    /// A fresh file of `size` bytes, and what it begins with.
    pub fn new(size: u64, file_seq: u16, rec_seq: u64) -> (created: (DbFile, [u8; 2]))
        ensures
            created.0 == (DbFile {
                seq: file_seq,
                written: 2,
                max_size: size,
                min_seq: rec_seq,
                max_seq: rec_seq,
                write_ops: 0,
                hash: 0,
            }),
            created.1@ == le16_bytes(file_seq),
    {
        let mut head: [u8; 2] = [0u8;2];
        u16_write_at(&mut head, 0, file_seq);
        assert(head@ =~= le16_bytes(file_seq));
        (
            DbFile {
                seq: file_seq,
                written: 2,
                max_size: size,
                min_seq: rec_seq,
                max_seq: rec_seq,
                write_ops: 0,
                hash: 0,
            },
            head,
        )
    }

    /// A sealed file of `size` bytes, by its first two bytes and its footer. Its hash is still to
    /// be checked.
    pub fn from_name(size: u64, head: &[u8], footer: &[u8]) -> (file: Result<DbFile, Error>)
        requires
            FOOTER_LEN <= size <= usize::MAX,
            head@.len() == 2,
            footer@.len() == FOOTER_LEN,
        ensures
            file == if footer@[20] != SEALED {
                Err::<DbFile, Error>(Error::FileNotSealed)
            } else {
                Ok(
                    DbFile {
                        seq: le16(head@, 0),
                        written: size as usize,
                        max_size: size,
                        min_seq: le64(footer@, 0),
                        max_seq: le64(footer@, 8),
                        write_ops: 0,
                        hash: le32(footer@, 16),
                    },
                )
            },
    {
        let seq: u16 = u16_from_pos(head, 0);
        if footer[20] != SEALED {
            return Err(Error::FileNotSealed);
        }
        Ok(
            DbFile {
                seq,
                written: size as usize,
                max_size: size,
                min_seq: u64_from_pos(footer, 0),
                max_seq: u64_from_pos(footer, 8),
                write_ops: 0,
                hash: u32_from_pos(footer, 16),
            },
        )
    }

    /// Whether the bytes of the file have the hash of its footer.
    pub fn check_hash(&self, computed: u32) -> (checked: Result<(), Error>)
        ensures
            checked == if computed != self.hash {
                Err::<(), Error>(Error::FileCorrupted)
            } else {
                Ok(())
            },
    {
        if computed != self.hash {
            return Err(Error::FileCorrupted);
        }
        Ok(())
    }

    /// Takes notice that `data` was written. Tells whether the file has to be synced now.
    pub fn write(&mut self, data: &[u8], seq: u64) -> (sync: bool)
        requires
            old(self).written + data@.len() <= usize::MAX,
            old(self).write_ops < u8::MAX,
        ensures
            *final(self) == (DbFile {
                written: (old(self).written + data@.len()) as usize,
                max_seq: seq,
                write_ops: (old(self).write_ops + 1) as u8,
                ..*old(self)
            }),
            sync == (final(self).write_ops >= SYNC_EVERY),
    {
        self.written = self.written + data.len();
        self.max_seq = seq;
        self.write_ops = self.write_ops + 1;
        self.write_ops >= SYNC_EVERY
    }

    /// Takes notice that the file was synced.
    pub fn synced(&mut self)
        ensures
            *final(self) == (DbFile { write_ops: 0, ..*old(self) }),
    {
        self.write_ops = 0;
    }

    /// Whether `len` more bytes leave room for the footer.
    pub fn has_space(&self, len: usize) -> (space: bool)
        requires
            FOOTER_LEN <= self.max_size <= usize::MAX,
            self.written + len <= usize::MAX,
        ensures
            space == (self.written + len < self.max_size - FOOTER_LEN),
    {
        self.written + len < self.max_size as usize - FOOTER_LEN
    }

    /// Seals the file, whose bytes have the hash `crc`: returns the footer, behind which the file
    /// ends.
    pub fn seal(&mut self, crc: u32) -> (footer: [u8; 21])
        requires
            old(self).written + FOOTER_LEN <= usize::MAX,
        ensures
            footer@ == footer_bytes(old(self).min_seq, old(self).max_seq, crc),
            *final(self) == (DbFile {
                written: (old(self).written + FOOTER_LEN) as usize,
                ..*old(self)
            }),
    {
        let mut footer: [u8; 21] = [0u8;21];
        u64_write_at(&mut footer, 0, self.min_seq);
        u64_write_at(&mut footer, 8, self.max_seq);
        u32_write_at(&mut footer, 16, crc);
        footer[20] = SEALED;
        assert(footer@ =~= footer_bytes(old(self).min_seq, old(self).max_seq, crc));
        self.written = self.written + FOOTER_LEN;
        footer
    }

    /// Starts the hash of what is in the file, without the footer if it has one.
    pub fn calc_hash(&self, without_footer: bool) -> (run: HashRun)
        requires
            without_footer ==> self.written >= FOOTER_LEN,
        ensures
            run.wf(),
            run.span() == (self.written, without_footer),
            run.so_far() == 0,
            run.awaited() == Some((0int, chunk_len(self.written as int, without_footer, 0))),
            forall|data: Seq<u8>| #[trigger] run.covers(data),
    {
        HashRun { size: self.written, without_footer, crc: 0, pos: 0, done: false }
    }
}

/// How many bytes are hashed next, from `pos` on.
pub open spec fn chunk_len(size: int, without_footer: bool, pos: int) -> int {
    if pos + HASH_CHUNK <= size {
        HASH_CHUNK as int
    } else if without_footer {
        size - pos - FOOTER_LEN
    } else {
        size - pos
    }
}

/// Whether the hash ends at `pos`.
pub open spec fn hash_ends(size: int, without_footer: bool, pos: int) -> bool {
    pos >= size || without_footer && pos + FOOTER_LEN >= size
}

/// How many bytes of a file are hashed: all of them, or those in front of the footer. A chunk that
/// ends in the footer is hashed to its end all the same.
pub open spec fn hashed_len(size: int, without_footer: bool) -> int {
    let whole = size / HASH_CHUNK as int * HASH_CHUNK;
    if !without_footer {
        size
    } else if whole > size - FOOTER_LEN {
        whole
    } else {
        size - FOOTER_LEN
    }
}

/// The hash of a file of `size` bytes, which are `data`.
pub open spec fn file_hash(data: Seq<u8>, size: int, without_footer: bool) -> u32 {
    crc32c_of(data.take(hashed_len(size, without_footer)))
}

/// From a chunk on, the hash ends with the last byte that is hashed or goes on with a chunk.
proof fn lemma_chunk_end(size: int, without_footer: bool, pos: int)
    requires
        0 <= pos <= size,
        pos % HASH_CHUNK as int == 0,
        without_footer ==> pos + FOOTER_LEN <= size,
    ensures
        ({
            let end = pos + chunk_len(size, without_footer, pos);
            if hash_ends(size, without_footer, end) {
                end == hashed_len(size, without_footer)
            } else {
                end % HASH_CHUNK as int == 0
            }
        }),
{
    assert(HASH_CHUNK == 5242880);
}

/// With no chunk that ends in the footer, what is in front of it is hashed.
proof fn lemma_hashed_sealed(len: int)
    requires
        0 <= len,
        (len + FOOTER_LEN) / HASH_CHUNK as int == len / HASH_CHUNK as int,
    ensures
        hashed_len(len + FOOTER_LEN, true) == len,
{
    assert(HASH_CHUNK == 5242880);
}

/// A hash that is being computed, one chunk after the other.
pub struct HashRun {
    size: usize,
    without_footer: bool,
    crc: u32,
    pos: usize,
    done: bool,
}

impl HashRun {
    pub closed spec fn wf(&self) -> bool {
        &&& self.pos <= self.size
        &&& self.without_footer && !self.done ==> self.pos + FOOTER_LEN <= self.size
        &&& !self.done && self.pos > 0 ==> !hash_ends(
            self.size as int,
            self.without_footer,
            self.pos as int,
        )
    }

    /// How long the file is, and whether its footer is left out.
    pub closed spec fn span(&self) -> (usize, bool) {
        (self.size, self.without_footer)
    }

    /// Where the next chunk begins, and how many bytes it has.
    pub closed spec fn awaited(&self) -> Option<(int, int)> {
        if self.done {
            None
        } else {
            Some(
                (
                    self.pos as int,
                    chunk_len(self.size as int, self.without_footer, self.pos as int),
                ),
            )
        }
    }

    /// The hash so far.
    pub closed spec fn so_far(&self) -> u32 {
        self.crc
    }

    /// Every chunk was read whole so far, from a file with these bytes.
    pub closed spec fn covers(&self, data: Seq<u8>) -> bool {
        &&& if self.pos == 0 && !self.done {
            self.crc == 0
        } else {
            self.crc == crc32c_of(data.take(self.pos as int))
        }
        &&& if self.done {
            self.pos == hashed_len(self.size as int, self.without_footer)
        } else {
            self.pos as int % HASH_CHUNK as int == 0
        }
    }

    /// The next chunk to read, or nothing once the hash is complete.
    pub fn next(&self) -> (chunk: Option<(usize, usize)>)
        requires
            self.wf(),
        ensures
            match chunk {
                Some((pos, len)) => self.awaited() == Some((pos as int, len as int)),
                None => self.awaited() is None,
            },
    {
        if self.done {
            return None;
        }
        let rest: usize = self.size - self.pos;
        let len: usize = if HASH_CHUNK <= rest {
            HASH_CHUNK
        } else if self.without_footer {
            rest - FOOTER_LEN
        } else {
            rest
        };
        Some((self.pos, len))
    }

    /// Takes in the buffer for the chunk, of which `n` bytes were read.
    pub fn absorb(&mut self, buf: &[u8], n: usize)
        requires
            old(self).wf(),
            old(self).awaited() is Some,
            buf@.len() == (old(self).awaited()->0).1,
            n <= buf@.len(),
            n == buf@.len() || n > 0,
        ensures
            final(self).wf(),
            final(self).span() == old(self).span(),
            final(self).so_far() == crc32c_extend(old(self).so_far(), buf@),
            ({
                let (size, without_footer) = old(self).span();
                let pos = (old(self).awaited()->0).0 + n;
                final(self).awaited() == if hash_ends(size as int, without_footer, pos) {
                    None
                } else {
                    Some((pos, chunk_len(size as int, without_footer, pos)))
                }
            }),
            forall|data: Seq<u8>|
                #![trigger old(self).covers(data)]
                old(self).covers(data) && old(self).span().0 <= data.len() && n == buf@.len()
                    && buf@ == data.subrange(
                    (old(self).awaited()->0).0,
                    (old(self).awaited()->0).0 + n,
                ) ==> final(self).covers(data),
    {
        self.crc = crc32c_append(self.crc, buf);
        self.pos = self.pos + n;
        self.done = self.pos >= self.size || self.without_footer && self.size - self.pos
            <= FOOTER_LEN;
        proof {
            assert forall|data: Seq<u8>|
                #![trigger old(self).covers(data)]
                old(self).covers(data) && old(self).span().0 <= data.len() && n == buf@.len()
                    && buf@ == data.subrange(
                    (old(self).awaited()->0).0,
                    (old(self).awaited()->0).0 + n,
                ) implies self.covers(data) by {
                lemma_chunk_end(self.size as int, self.without_footer, old(self).pos as int);
                let before = data.take(old(self).pos as int);
                assert(data.take(self.pos as int) =~= before + buf@);
                if old(self).pos == 0 {
                    assert(data.take(self.pos as int) =~= buf@);
                }
            }
        }
    }

    /// The hash.
    pub fn finish(&self) -> (crc: u32)
        requires
            self.awaited() is None,
        ensures
            crc == self.so_far(),
            forall|data: Seq<u8>| #[trigger]
                self.covers(data) ==> crc == file_hash(
                    data,
                    self.span().0 as int,
                    self.span().1,
                ),
    {
        self.crc
    }
}

/// A file that was sealed with the hash of its bytes is opened again: the footer gives back the
/// sequences and the hash, and the hash is that of the bytes. It takes that no chunk of the hash
/// ends in the footer.
pub proof fn law_sealed_file_opens(data: Seq<u8>, min_seq: u64, max_seq: u64)
    requires
        (data.len() + FOOTER_LEN) as int / HASH_CHUNK as int == data.len() as int
            / HASH_CHUNK as int,
    ensures
        ({
            let hash = file_hash(data, data.len() as int, false);
            let footer = footer_bytes(min_seq, max_seq, hash);
            &&& footer.len() == FOOTER_LEN
            &&& footer[20] == SEALED
            &&& le64(footer, 0) == min_seq
            &&& le64(footer, 8) == max_seq
            &&& le32(footer, 16) == hash
            &&& file_hash(data + footer, (data + footer).len() as int, true) == hash
        }),
{
    let hash = file_hash(data, data.len() as int, false);
    let footer = footer_bytes(min_seq, max_seq, hash);
    assert(footer.subrange(0, 8) =~= le64_bytes(min_seq));
    lemma_le64_of_bytes(footer, 0, min_seq);
    assert(footer.subrange(8, 16) =~= le64_bytes(max_seq));
    lemma_le64_of_bytes(footer, 8, max_seq);
    assert(footer.subrange(16, 20) =~= le32_bytes(hash));
    lemma_le32_of_bytes(footer, 16, hash);
    let n = data.len() as int;
    assert(data.take(hashed_len(n, false)) =~= data);
    lemma_hashed_sealed(n);
    assert((data + footer).take(n) =~= data);
}

} // verus!
