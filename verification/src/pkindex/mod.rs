//! Disk-persisted primary key index: a mutable B+tree over 4 kB pages.
//!
//! The index is a derived artifact, which can always be rebuilt by rescanning the frames, so it
//! carries no per-page checksums. A torn page is not something to detect and repair, it is
//! something to throw away. What the header does carry is a `clean` flag, made durable as 0
//! before the first mutation of an uptime window and back to 1 only by an explicit `flush`. An
//! index that opens dirty was not closed, so its contents mean nothing and the caller rebuilds.
//! Source length and frame count are stamped alongside it, so an index that opens clean but
//! belongs to a different file is rejected too.
//!
//! Page 0 is the header. The tree pages follow: leaves first, as a bulk load lays them out, then
//! whatever splits allocate. Interior entries are `(first_key_of_child, child_page)`, so a descent
//! goes to the last child whose separator is at most the search key, and a node split is a plain
//! array split. Deletion is lazy: the entry goes, the page stays.

pub mod builder;
pub mod bulk;
pub mod chain;
pub mod crash;
pub mod growth;
pub mod header;
pub mod index;
pub mod laws;
pub mod limits;
pub mod loading;
pub mod ops;
pub mod page;
pub mod pool;
pub mod tree;
