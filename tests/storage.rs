use rustub::file_manager::{block_offset, extent_bytes, grow_by_extent, FileManagerError};
use rustub::page::{Block, Page};
use rustub::{BLOCK_SIZE, EXTENT_SIZE};

#[test]
fn block_offsets() {
    assert_eq!(block_offset(0), Some(0));
    assert_eq!(block_offset(3), Some(3 * 4096));
    assert_eq!(block_offset(usize::MAX), None);
}

#[test]
fn extent_growth() {
    assert_eq!(extent_bytes(), (EXTENT_SIZE * BLOCK_SIZE) as u64);
    assert_eq!(grow_by_extent(0), Some((extent_bytes(), 0)));
    assert_eq!(grow_by_extent(4096), Some((4096 + extent_bytes(), 1)));
    assert_eq!(grow_by_extent(4097), Some((4097 + extent_bytes(), 2)));
    assert_eq!(grow_by_extent(u64::MAX), None);
}

#[test]
fn error_descriptions() {
    assert_eq!(FileManagerError::FileExists.describe(), "File already exists");
    assert_eq!(FileManagerError::FileNotFound.describe(), "File not found");
    assert_eq!(FileManagerError::FileAlreadyOpen.describe(), "File already open");
    assert_eq!(FileManagerError::IoErr("x".to_string()).describe(), "IO error occurred");
}

#[test]
fn block_and_page_constructors() {
    let b = Block::new("t".to_string(), 5);
    assert_eq!(b.file_name, "t");
    assert_eq!(b.block_number, 5);
    let p = Page::new([3; BLOCK_SIZE]);
    assert_eq!(p.page_buffer[100], 3);
}
