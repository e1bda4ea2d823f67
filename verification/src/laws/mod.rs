//! What the contracts come to, in plain terms: bytes at offsets, sums and counts, instead of the
//! functions that the contracts are written with.

pub mod bytes;
pub mod codec;
pub mod errors;
pub mod files;
pub mod index;
pub mod logs;
pub mod pages;
pub mod schema;
pub mod sorting;
