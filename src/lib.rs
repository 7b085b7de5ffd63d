//! A read-only directory tree over the bytes of a tar archive.
//!
//! `parser` decodes the record stream (V7, POSIX ustar and GNU dialects),
//! `tree` folds the records into a directory tree and answers path queries.
use vstd::prelude::*;

pub mod parser;
pub mod tree;
pub mod builder;
pub mod fs;
pub mod theorems;

pub use fs::{FileType, FsError, Metadata, TarFS};

verus! {

} // verus!
