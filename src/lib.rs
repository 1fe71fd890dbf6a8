use vstd::prelude::*;

pub mod buffer_manager;
pub mod file_manager;
pub mod page;
pub mod replacer;

verus! {

/// Size in bytes of one disk block, and so of one buffer frame.
pub const BLOCK_SIZE: usize = 4096;

/// Number of blocks by which a file grows at a time.
pub const EXTENT_SIZE: usize = 16;

} // verus!
