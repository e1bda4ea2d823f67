//! An append-only storage engine: record and frame codecs, a group-committing writer, an
//! external sort and a paged primary key index.

pub mod calls;
pub mod checksum;
pub mod data;
pub mod error;
pub mod extsort;
pub mod file;
pub mod frame;
pub mod heap;
pub mod laws;
pub mod le;
pub mod pkindex;
pub mod record;
pub mod sorting;
pub mod storage;
pub mod text;

pub use storage::{Reader, Step, Storage};
