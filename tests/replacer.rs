use rustub::replacer::{Page, PageId, Replacer};
use rustub::BLOCK_SIZE;

#[test]
fn evicts_oldest_recency_first() {
    let mut r = Replacer::new(4);
    r.track(2, 30);
    r.track(0, 10);
    r.track(1, 20);
    assert_eq!(r.evict(), Some(0));
    assert_eq!(r.evict(), Some(1));
    assert_eq!(r.evict(), Some(2));
    assert_eq!(r.evict(), None);
}

#[test]
fn equal_recency_breaks_ties_by_lowest_frame() {
    let mut r = Replacer::new(4);
    r.track(3, 5);
    r.track(1, 5);
    r.track(2, 5);
    assert_eq!(r.evict(), Some(1));
    assert_eq!(r.evict(), Some(2));
}

#[test]
fn untrack_and_touch() {
    let mut r = Replacer::new(4);
    r.track(0, 1);
    r.track(1, 2);
    assert!(r.untrack(0));
    assert!(!r.untrack(0));
    r.touch(1, 9);
    r.touch(5, 0);
    r.track(2, 3);
    assert_eq!(r.evict(), Some(2));
    assert_eq!(r.evict(), Some(1));
    assert_eq!(r.evict(), None);
}

#[test]
fn frame_pin_unpin_reset() {
    let mut p = Page::new([9; BLOCK_SIZE], 4);
    assert_eq!(p.pin_count, 0);
    assert!(!p.unpin());
    p.pin(7);
    p.pin(8);
    assert_eq!(p.pin_count, 2);
    assert_eq!(p.access_time, 8);
    assert!(p.unpin());
    assert_eq!(p.pin_count, 1);
    p.update_access_time(11);
    assert_eq!(p.access_time, 11);
    p.is_dirty = true;
    p.reset();
    assert_eq!(p.pin_count, 0);
    assert!(!p.is_dirty);
    assert_eq!(p.access_time, 0);
    assert!(p.buffer.iter().all(|b| *b == 0));
}

#[test]
fn page_id_identity() {
    let a = PageId::new("orders", 3);
    assert_eq!(a.table_id, "orders");
    assert_eq!(a.page_id, 3);
    assert!(a.same(&a.duplicate()));
    assert!(!a.same(&PageId::new("orders", 4)));
    assert!(!a.same(&PageId::new("order", 3)));
}
