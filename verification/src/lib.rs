//! A verified codec and traversal engine for the on-disk page format of an
//! LMDB-style paged B+Tree database file: word-size-parameterized binary
//! encoding of metadata and leaf pages, dual-meta-page selection, and
//! conversion between 32-bit and 64-bit builds of the format.

use vstd::prelude::*;

pub mod cli;
pub mod cursor;
pub mod db;
pub mod leaf;
pub mod meta;
pub mod model;
pub mod words;

verus! {

/// Size of every page in the file, in bytes.
pub const PAGE_SIZE: usize = 4096;

} // verus!
