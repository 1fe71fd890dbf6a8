use vstd::prelude::*;

use crate::{BLOCK_SIZE, EXTENT_SIZE};

verus! {

/// Why a file operation failed.
#[derive(Debug, PartialEq, Eq)]
pub enum FileManagerError {
    /// The operating system reported an I/O error, described by the message.
    IoErr(String),
    FileExists,
    FileNotFound,
    FileAlreadyOpen,
}

impl FileManagerError {
    /// A one-line description of the error.
    pub fn describe(&self) -> (r: String)
        ensures
            self is FileExists ==> r@ == "File already exists"@,
            self is FileNotFound ==> r@ == "File not found"@,
            self is FileAlreadyOpen ==> r@ == "File already open"@,
    {
        match self {
            FileManagerError::IoErr(_) => "IO error occurred".to_string(),
            FileManagerError::FileExists => "File already exists".to_string(),
            FileManagerError::FileNotFound => "File not found".to_string(),
            FileManagerError::FileAlreadyOpen => "File already open".to_string(),
        }
    }
}

/// Byte offset of block `block_number` in its file, or None when it does not fit
/// in a file offset.
pub fn block_offset(block_number: usize) -> (r: Option<u64>)
    ensures
        r is None <==> BLOCK_SIZE * block_number > u64::MAX,
        r matches Some(o) ==> o == BLOCK_SIZE * block_number,
{
    let n = block_number as u64;
    if n > u64::MAX / (BLOCK_SIZE as u64) {
        None
    } else {
        Some(n * (BLOCK_SIZE as u64))
    }
}

/// Number of bytes by which a file grows when blocks are allocated: one extent.
pub fn extent_bytes() -> (r: u64)
    ensures
        r == EXTENT_SIZE * BLOCK_SIZE,
{
    (EXTENT_SIZE as u64) * (BLOCK_SIZE as u64)
}

/// Length of a file of `len` bytes grown by one extent, and the index of the first
/// block that the growth made available; None when the length would not fit.
pub fn grow_by_extent(len: u64) -> (r: Option<(u64, u64)>)
    ensures
        r is None <==> len + EXTENT_SIZE * BLOCK_SIZE > u64::MAX,
        r matches Some((new_len, first)) ==> {
            &&& new_len == len + EXTENT_SIZE * BLOCK_SIZE
            &&& first == (len + BLOCK_SIZE - 1) / (BLOCK_SIZE as int)
        },
{
    let chunk = extent_bytes();
    if len > u64::MAX - chunk {
        None
    } else {
        let first = len / (BLOCK_SIZE as u64) + if len % (BLOCK_SIZE as u64) == 0 { 0 } else { 1 };
        assert(first == (len + BLOCK_SIZE - 1) / (BLOCK_SIZE as int)) by (nonlinear_arith)
            requires
                first == len / 4096 + if len % 4096 == 0 { 0int } else { 1int },
                BLOCK_SIZE == 4096,
        ;
        Some((len + chunk, first))
    }
}

} // verus!
