use rustub::buffer_manager::{BufferError, BufferManager, Fetch};
use rustub::replacer::PageId;
use rustub::BLOCK_SIZE;

/// Drives one fetch to the end with a disk whose blocks all hold `fill`, counting
/// reads and writes. Returns the frame, or the error of the fetch.
fn get(bm: &mut BufferManager, id: &PageId, fill: u8, reads: &mut u32, writes: &mut u32) -> Result<usize, BufferError> {
    loop {
        match bm.fetch(id)? {
            Fetch::Hit(f) => return Ok(f),
            Fetch::Load => {
                *reads += 1;
                return bm.load(id, [fill; BLOCK_SIZE]);
            }
            Fetch::Flush(f, _victim) => {
                *writes += 1;
                bm.mark_flushed(f);
            }
        }
    }
}

#[test]
fn fetch_twice_returns_same_frame_and_reads_once() {
    let mut bm = BufferManager::new(2);
    let a = PageId::new("t", 1);
    let (mut reads, mut writes) = (0, 0);
    let f1 = get(&mut bm, &a, 7, &mut reads, &mut writes).unwrap();
    let f2 = get(&mut bm, &a, 7, &mut reads, &mut writes).unwrap();
    assert_eq!(f1, f2);
    assert_eq!(bm.pin_count(&a), Some(2));
    assert_eq!(reads, 1);
    assert_eq!(writes, 0);
    assert_eq!(bm.frame_data(f1)[0], 7);
    assert!(bm.frame_block(f1).unwrap().same(&a));
}

#[test]
fn fetch_beyond_capacity_with_all_pinned_is_exhausted() {
    let mut bm = BufferManager::new(3);
    let (mut reads, mut writes) = (0, 0);
    for i in 0..3u64 {
        get(&mut bm, &PageId::new("t", i), 0, &mut reads, &mut writes).unwrap();
    }
    let d = PageId::new("t", 3);
    assert!(matches!(bm.fetch(&d), Err(BufferError::BufferPoolExhausted)));
    assert_eq!(bm.load(&d, [0; BLOCK_SIZE]), Err(BufferError::BufferPoolExhausted));
    assert_eq!(bm.pin_count(&d), None);
}

#[test]
fn capacity_two_evicts_first_unpinned() {
    let mut bm = BufferManager::new(2);
    let (a, b, c) = (PageId::new("t", 0), PageId::new("t", 1), PageId::new("t", 2));
    let (mut reads, mut writes) = (0, 0);
    let fa = get(&mut bm, &a, 1, &mut reads, &mut writes).unwrap();
    bm.unpin(&a, false).unwrap();
    get(&mut bm, &b, 2, &mut reads, &mut writes).unwrap();
    bm.unpin(&b, false).unwrap();
    let fc = get(&mut bm, &c, 3, &mut reads, &mut writes).unwrap();
    assert_eq!(fc, fa);
    assert_eq!(bm.pin_count(&a), None);
    assert_eq!(bm.pin_count(&b), Some(0));
    assert_eq!(bm.pin_count(&c), Some(1));
    assert_eq!(writes, 0);
}

#[test]
fn pinned_frame_is_never_evicted() {
    let mut bm = BufferManager::new(2);
    let (a, b, c) = (PageId::new("t", 0), PageId::new("t", 1), PageId::new("t", 2));
    let (mut reads, mut writes) = (0, 0);
    let fa = get(&mut bm, &a, 1, &mut reads, &mut writes).unwrap();
    let fb = get(&mut bm, &b, 2, &mut reads, &mut writes).unwrap();
    bm.unpin(&b, false).unwrap();
    let fc = get(&mut bm, &c, 3, &mut reads, &mut writes).unwrap();
    assert_eq!(fc, fb);
    assert_ne!(fc, fa);
    assert_eq!(bm.pin_count(&a), Some(1));
    assert_eq!(bm.pin_count(&b), None);
}

#[test]
fn dirty_victim_is_flushed_exactly_once() {
    let mut bm = BufferManager::new(1);
    let (a, b) = (PageId::new("t", 0), PageId::new("t", 1));
    let (mut reads, mut writes) = (0, 0);
    let fa = get(&mut bm, &a, 1, &mut reads, &mut writes).unwrap();
    bm.unpin(&a, true).unwrap();
    match bm.fetch(&b) {
        Ok(Fetch::Flush(f, victim)) => {
            assert_eq!(f, fa);
            assert!(victim.same(&a));
        }
        _ => panic!("expected a flush of the dirty victim"),
    }
    assert_eq!(bm.load(&b, [2; BLOCK_SIZE]), Err(BufferError::FlushRequired));
    assert_eq!(bm.pin_count(&a), Some(0));
    bm.mark_flushed(fa);
    assert!(matches!(bm.fetch(&b), Ok(Fetch::Load)));
    assert_eq!(bm.load(&b, [2; BLOCK_SIZE]), Ok(fa));
    assert_eq!(bm.frame_data(fa)[BLOCK_SIZE - 1], 2);
}

#[test]
fn clean_victim_needs_no_flush() {
    let mut bm = BufferManager::new(1);
    let (a, b) = (PageId::new("t", 0), PageId::new("t", 1));
    let (mut reads, mut writes) = (0, 0);
    get(&mut bm, &a, 1, &mut reads, &mut writes).unwrap();
    bm.unpin(&a, false).unwrap();
    get(&mut bm, &b, 2, &mut reads, &mut writes).unwrap();
    assert_eq!(writes, 0);
    assert_eq!(reads, 2);
}

#[test]
fn flush_all_twice_writes_nothing_the_second_time() {
    let mut bm = BufferManager::new(3);
    let (a, b, c) = (PageId::new("t", 0), PageId::new("t", 1), PageId::new("u", 0));
    let (mut reads, mut writes) = (0, 0);
    for id in [&a, &b, &c] {
        get(&mut bm, id, 0, &mut reads, &mut writes).unwrap();
    }
    bm.unpin(&a, true).unwrap();
    bm.unpin(&c, true).unwrap();
    let dirty = bm.dirty_frames();
    assert_eq!(dirty.len(), 2);
    assert!(dirty[0] < dirty[1]);
    for f in dirty {
        bm.mark_flushed(f);
    }
    assert_eq!(bm.is_dirty(&a), Some(false));
    assert_eq!(bm.is_dirty(&c), Some(false));
    assert!(bm.dirty_frames().is_empty());
}

#[test]
fn delete_pinned_page_is_in_use_and_changes_nothing() {
    let mut bm = BufferManager::new(2);
    let a = PageId::new("t", 0);
    let (mut reads, mut writes) = (0, 0);
    get(&mut bm, &a, 0, &mut reads, &mut writes).unwrap();
    get(&mut bm, &a, 0, &mut reads, &mut writes).unwrap();
    bm.unpin(&a, true).unwrap();
    assert_eq!(bm.delete_page(&a), Err(BufferError::InUse));
    assert_eq!(bm.pin_count(&a), Some(1));
    assert_eq!(bm.is_dirty(&a), Some(true));
    bm.unpin(&a, false).unwrap();
    assert_eq!(bm.is_dirty(&a), Some(true));
    assert_eq!(bm.delete_page(&a), Ok(()));
    assert_eq!(bm.pin_count(&a), None);
    assert_eq!(bm.delete_page(&a), Err(BufferError::NotFound));
}

#[test]
fn unpin_errors() {
    let mut bm = BufferManager::new(2);
    let a = PageId::new("t", 0);
    assert_eq!(bm.unpin(&a, true), Err(BufferError::NotFound));
    let (mut reads, mut writes) = (0, 0);
    get(&mut bm, &a, 0, &mut reads, &mut writes).unwrap();
    assert_eq!(bm.unpin(&a, false), Ok(()));
    assert_eq!(bm.unpin(&a, false), Err(BufferError::InvalidUnpin));
    assert_eq!(bm.pin_count(&a), Some(0));
}

#[test]
fn flush_reports_dirty_frames_only() {
    let mut bm = BufferManager::new(2);
    let a = PageId::new("t", 0);
    assert_eq!(bm.flush(&a), Err(BufferError::NotFound));
    let (mut reads, mut writes) = (0, 0);
    let f = get(&mut bm, &a, 0, &mut reads, &mut writes).unwrap();
    assert_eq!(bm.flush(&a), Ok(None));
    bm.unpin(&a, true).unwrap();
    assert_eq!(bm.flush(&a), Ok(Some(f)));
    bm.mark_flushed(f);
    assert_eq!(bm.flush(&a), Ok(None));
}

#[test]
fn new_pool_is_empty_and_free() {
    let mut bm = BufferManager::new(4);
    assert_eq!(bm.capacity(), 4);
    assert!(bm.dirty_frames().is_empty());
    for f in 0..4 {
        assert!(bm.frame_block(f).is_none());
        assert!(bm.frame_data(f).iter().all(|b| *b == 0));
    }
    let a = PageId::new("t", 9);
    assert!(matches!(bm.fetch(&a), Ok(Fetch::Load)));
    assert_eq!(bm.load(&a, [5; BLOCK_SIZE]), Ok(0));
}

#[test]
fn zero_capacity_pool_is_exhausted() {
    let mut bm = BufferManager::new(0);
    let a = PageId::new("t", 0);
    assert!(matches!(bm.fetch(&a), Err(BufferError::BufferPoolExhausted)));
}

#[test]
fn written_bytes_are_what_a_flush_writes() {
    let mut bm = BufferManager::new(1);
    let a = PageId::new("t", 0);
    assert_eq!(bm.write_page(&a, [1; BLOCK_SIZE]), Err(BufferError::NotFound));
    let (mut reads, mut writes) = (0, 0);
    let f = get(&mut bm, &a, 0, &mut reads, &mut writes).unwrap();
    assert_eq!(bm.write_page(&a, [42; BLOCK_SIZE]), Ok(f));
    bm.unpin(&a, true).unwrap();
    let b = PageId::new("t", 1);
    match bm.fetch(&b) {
        Ok(Fetch::Flush(g, victim)) => {
            assert_eq!(g, f);
            assert!(victim.same(&a));
            assert!(bm.frame_data(g).iter().all(|x| *x == 42));
        }
        _ => panic!("expected a flush of the written frame"),
    }
}
