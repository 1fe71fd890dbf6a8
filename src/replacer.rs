use priority_queue::DoublePriorityQueue;
use vstd::prelude::*;

use crate::BLOCK_SIZE;

verus! {

#[verifier::external_type_specification]
#[verifier::external_body]
#[verifier::reject_recursive_types(I)]
#[verifier::reject_recursive_types(P)]
#[verifier::reject_recursive_types(H)]
pub struct ExDoublePriorityQueue<I, P, H>(DoublePriorityQueue<I, P, H>);

/// The eviction queue used by the replacer: frame index to (recency, frame index).
pub type FrameQueue = DoublePriorityQueue<u64, (u64, u64)>;

/// What a frame queue holds: each item with its priority.
pub uninterp spec fn queue_entries(q: FrameQueue) -> Map<u64, (u64, u64)>;

/// Lexicographic order on priorities, as std orders tuples.
pub open spec fn prio_le(a: (u64, u64), b: (u64, u64)) -> bool {
    a.0 < b.0 || (a.0 == b.0 && a.1 <= b.1)
}

/// Relies on DoublePriorityQueue::with_capacity: a new queue is empty.
#[verifier::external_body]
fn queue_with_capacity(capacity: usize) -> (r: FrameQueue)
    ensures
        queue_entries(r).is_empty(),
{
    DoublePriorityQueue::with_capacity(capacity)
}

/// Relies on DoublePriorityQueue::push: inserts the item, or replaces the priority
/// of an item already present and returns the old one.
#[verifier::external_body]
fn queue_push(q: &mut FrameQueue, item: u64, priority: (u64, u64)) -> (r: Option<(u64, u64)>)
    ensures
        queue_entries(*final(q)) == queue_entries(*old(q)).insert(item, priority),
        r == (if queue_entries(*old(q)).contains_key(item) {
            Some(queue_entries(*old(q))[item])
        } else {
            None
        }),
{
    q.push(item, priority)
}

/// Relies on DoublePriorityQueue::remove: takes out the given item if present.
#[verifier::external_body]
fn queue_remove(q: &mut FrameQueue, item: u64) -> (r: Option<(u64, (u64, u64))>)
    ensures
        queue_entries(*final(q)) == queue_entries(*old(q)).remove(item),
        r == (if queue_entries(*old(q)).contains_key(item) {
            Some((item, queue_entries(*old(q))[item]))
        } else {
            None
        }),
{
    q.remove(&item)
}

/// Relies on DoublePriorityQueue::pop_min: takes out an item of least priority,
/// or returns None when the queue is empty.
#[verifier::external_body]
fn queue_pop_min(q: &mut FrameQueue) -> (r: Option<(u64, (u64, u64))>)
    ensures
        r is None <==> queue_entries(*old(q)).is_empty(),
        r is None ==> queue_entries(*final(q)) == queue_entries(*old(q)),
        r matches Some((i, p)) ==> {
            &&& queue_entries(*old(q)).contains_key(i)
            &&& queue_entries(*old(q))[i] == p
            &&& forall|j: u64| #[trigger]
                queue_entries(*old(q)).contains_key(j) ==> prio_le(p, queue_entries(*old(q))[j])
            &&& queue_entries(*final(q)) == queue_entries(*old(q)).remove(i)
        },
{
    q.pop_min()
}

/// Tracks the frames that may be evicted: bound frames whose pin count is zero,
/// each with the recency marker it was given when it became eligible.
pub struct Replacer {
    container: FrameQueue,
}

impl Replacer {
    /// The eligible frames, each mapped to its priority `(recency, frame)`.
    pub closed spec fn entries(&self) -> Map<u64, (u64, u64)> {
        queue_entries(self.container)
    }

    /// Every priority carries its own frame index as tie breaker.
    pub open spec fn wf(&self) -> bool {
        forall|f: u64| #[trigger] self.entries().contains_key(f) ==> self.entries()[f].1 == f
    }

    pub fn new(capacity: usize) -> (r: Replacer)
        ensures
            r.entries().is_empty(),
            r.wf(),
    {
        Replacer { container: queue_with_capacity(capacity) }
    }

    /// Makes `frame` eligible for eviction with the given recency, or refreshes
    /// its recency if it already is.
    pub fn track(&mut self, frame: u64, recency: u64)
        requires
            old(self).wf(),
        ensures
            final(self).wf(),
            final(self).entries() == old(self).entries().insert(frame, (recency, frame)),
    {
        queue_push(&mut self.container, frame, (recency, frame));
    }

    /// Refreshes the recency of a frame that is already eligible; other frames
    /// are left as they are.
    pub fn touch(&mut self, frame: u64, recency: u64)
        requires
            old(self).wf(),
        ensures
            final(self).wf(),
            final(self).entries() == (if old(self).entries().contains_key(frame) {
                old(self).entries().insert(frame, (recency, frame))
            } else {
                old(self).entries()
            }),
    {
        let ghost before = self.entries();
        if queue_remove(&mut self.container, frame).is_some() {
            queue_push(&mut self.container, frame, (recency, frame));
        }
        proof {
            assert forall|f: u64| #[trigger] self.entries().contains_key(f) implies self.entries()[f].1
                == f by {
                if f != frame {
                    assert(before.contains_key(f));
                }
            }
            if !before.contains_key(frame) {
                assert(self.entries() =~= before);
            }
        }
    }

    /// Withdraws `frame` from eviction; returns whether it was eligible.
    pub fn untrack(&mut self, frame: u64) -> (r: bool)
        requires
            old(self).wf(),
        ensures
            final(self).wf(),
            final(self).entries() == old(self).entries().remove(frame),
            r == old(self).entries().contains_key(frame),
    {
        let ghost before = self.entries();
        let r = queue_remove(&mut self.container, frame).is_some();
        proof {
            assert forall|f: u64| #[trigger] self.entries().contains_key(f) implies self.entries()[f].1
                == f by {
                assert(before.contains_key(f));
            }
        }
        r
    }

    /// Removes and returns the eligible frame with the oldest recency, the lowest
    /// frame index among equal ones; None when no frame is eligible.
    pub fn evict(&mut self) -> (r: Option<u64>)
        requires
            old(self).wf(),
        ensures
            final(self).wf(),
            r is None <==> old(self).entries().is_empty(),
            r is None ==> final(self).entries() == old(self).entries(),
            r matches Some(f) ==> {
                &&& old(self).entries().contains_key(f)
                &&& forall|j: u64| #[trigger]
                    old(self).entries().contains_key(j) ==> prio_le(
                        old(self).entries()[f],
                        old(self).entries()[j],
                    )
                &&& final(self).entries() == old(self).entries().remove(f)
            },
    {
        let ghost before = self.entries();
        let r = match queue_pop_min(&mut self.container) {
            Some((f, _p)) => Some(f),
            None => None,
        };
        proof {
            assert forall|f: u64| #[trigger] self.entries().contains_key(f) implies self.entries()[f].1
                == f by {
                assert(before.contains_key(f));
            }
        }
        r
    }
}

/// Identity of a disk block: the table (file) it belongs to and its index there.
pub struct PageId {
    pub table_id: String,
    pub page_id: u64,
}

impl View for PageId {
    type V = (Seq<char>, u64);

    open spec fn view(&self) -> (Seq<char>, u64) {
        (self.table_id@, self.page_id)
    }
}

impl PageId {
    pub fn new(table_id: &str, page_id: u64) -> (r: PageId)
        ensures
            r@ == (table_id@, page_id),
    {
        PageId { table_id: table_id.to_string(), page_id }
    }

    /// A copy of this identity.
    pub fn duplicate(&self) -> (r: PageId)
        ensures
            r@ == self@,
    {
        PageId { table_id: self.table_id.clone(), page_id: self.page_id }
    }

    /// Whether both name the same block.
    pub fn same(&self, other: &PageId) -> (r: bool)
        ensures
            r == (self@ == other@),
    {
        self.page_id == other.page_id && self.table_id == other.table_id
    }
}

/// A block of zero bytes.
pub open spec fn zero_block() -> Seq<u8> {
    Seq::new(BLOCK_SIZE as nat, |i: int| 0u8)
}

/// One buffer frame: the bytes of a block and the frame's bookkeeping.
#[derive(Clone, Copy)]
pub struct Page {
    /// Set when the bytes were changed since they were last written out.
    pub is_dirty: bool,
    /// Number of holders that currently use the frame.
    pub pin_count: u32,
    pub buffer: [u8; BLOCK_SIZE],
    /// Recency marker of the last access.
    pub access_time: u64,
}

impl Page {
    pub fn new(buffer: [u8; BLOCK_SIZE], access_time: u64) -> (r: Page)
        ensures
            !r.is_dirty,
            r.pin_count == 0,
            r.buffer == buffer,
            r.access_time == access_time,
    {
        Page { is_dirty: false, pin_count: 0, buffer, access_time }
    }

    /// Clears the bookkeeping and zeroes the bytes.
    pub fn reset(&mut self)
        ensures
            !final(self).is_dirty,
            final(self).pin_count == 0,
            final(self).buffer@ == zero_block(),
            final(self).access_time == 0,
    {
        self.is_dirty = false;
        self.pin_count = 0;
        self.buffer = [0u8; BLOCK_SIZE];
        self.access_time = 0;
        assert(self.buffer@ =~= zero_block());
    }

    /// Adds one holder and records the access.
    pub fn pin(&mut self, access_time: u64)
        requires
            old(self).pin_count < u32::MAX,
        ensures
            final(self).pin_count == old(self).pin_count + 1,
            final(self).access_time == access_time,
            final(self).is_dirty == old(self).is_dirty,
            final(self).buffer == old(self).buffer,
    {
        self.pin_count = self.pin_count + 1;
        self.access_time = access_time;
    }

    /// Drops one holder; false, with nothing changed, when there is none.
    pub fn unpin(&mut self) -> (r: bool)
        ensures
            r == (old(self).pin_count > 0),
            final(self).pin_count == (if r { old(self).pin_count - 1 } else { old(self).pin_count as int }),
            final(self).access_time == old(self).access_time,
            final(self).is_dirty == old(self).is_dirty,
            final(self).buffer == old(self).buffer,
    {
        if self.pin_count > 0 {
            self.pin_count = self.pin_count - 1;
            true
        } else {
            false
        }
    }

    pub fn update_access_time(&mut self, access_time: u64)
        ensures
            *final(self) == (Page { access_time, ..*old(self) }),
    {
        self.access_time = access_time;
    }
}

} // verus!
