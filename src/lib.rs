//! A small file system with a flat root directory, hard links and
//! per-open cursors. Free space is kept in block bitmaps and every file
//! holds the data and index blocks that indexed addressing of its size
//! needs; file bytes live in memory beside those block numbers. A
//! write-back block cache over an in-memory device stands beside it.
use vstd::prelude::*;

pub mod bitmap;
pub mod block_cache;
pub mod layout;
pub mod efs;
pub mod file;
pub mod laws;

verus! {

/// Size in bytes of one device block.
pub const BLOCK_SZ: usize = 512;

} // verus!
