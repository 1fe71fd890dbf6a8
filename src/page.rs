use vstd::prelude::*;

use crate::BLOCK_SIZE;

verus! {

/// A block of a named file, as the file manager addresses it.
#[derive(Debug, PartialEq, Eq, Hash)]
pub struct Block {
    pub file_name: String,
    pub block_number: usize,
}

impl Block {
    pub fn new(table: String, block_number: usize) -> (r: Block)
        ensures
            r.file_name == table,
            r.block_number == block_number,
    {
        Block { file_name: table, block_number }
    }
}

/// The bytes of one block, as read from or written to a file.
pub struct Page {
    pub page_buffer: [u8; BLOCK_SIZE],
}

impl Page {
    pub fn new(page_buffer: [u8; BLOCK_SIZE]) -> (r: Page)
        ensures
            r.page_buffer == page_buffer,
    {
        Page { page_buffer }
    }
}

} // verus!
