use vstd::prelude::*;

use crate::replacer::{prio_le, zero_block, Page, PageId, Replacer};
use crate::BLOCK_SIZE;

verus! {

/// Abstract identity of a block: table name and block index.
pub type BlockView = (Seq<char>, u64);

/// Abstract state of one frame.
pub struct FrameView {
    pub block: Option<BlockView>,
    pub pin_count: nat,
    pub dirty: bool,
    pub data: Seq<u8>,
    pub recency: u64,
}

/// Abstract state of the whole pool.
pub struct PoolView {
    pub frames: Seq<FrameView>,
    /// Frames bound to no block, used from the end.
    pub free: Seq<usize>,
    /// Frames that may be evicted, each with its priority `(recency, frame)`.
    pub evictable: Map<u64, (u64, u64)>,
    /// Recency marker handed to the next access.
    pub clock: u64,
}

/// The clock after one access; it stays at its bound once there.
pub open spec fn tick(c: u64) -> u64 {
    if c < u64::MAX {
        (c + 1) as u64
    } else {
        c
    }
}

impl PoolView {
    pub open spec fn holds(self, f: int, id: BlockView) -> bool {
        0 <= f < self.frames.len() && self.frames[f].block == Some(id)
    }

    pub open spec fn resident(self, id: BlockView) -> bool {
        exists|f: int| self.holds(f, id)
    }

    /// `f` is the frame the replacer gives up next.
    pub open spec fn oldest(self, f: int) -> bool {
        &&& 0 <= f < self.frames.len()
        &&& self.evictable.contains_key(f as u64)
        &&& forall|j: u64| #[trigger]
            self.evictable.contains_key(j) ==> prio_le(
                self.evictable[f as u64],
                self.evictable[j],
            )
    }

    /// The invariant of the pool: one frame per block; a frame is free exactly when
    /// it holds no block, and a free frame is clean and unpinned; a frame may be
    /// evicted exactly when it holds a block and is unpinned.
    pub open spec fn inv(self) -> bool {
        &&& self.frames.len() <= usize::MAX
        &&& forall|i: int, j: int|
            0 <= i < self.frames.len() && 0 <= j < self.frames.len()
                && #[trigger] self.frames[i].block is Some && self.frames[i].block
                == #[trigger] self.frames[j].block ==> i == j
        &&& forall|k: int|
            0 <= k < self.free.len() ==> #[trigger] self.free[k] < self.frames.len()
                && self.frames[self.free[k] as int].block is None
        &&& forall|k: int, l: int|
            0 <= k < l < self.free.len() ==> #[trigger] self.free[k] != #[trigger] self.free[l]
        &&& forall|i: int|
            0 <= i < self.frames.len() && (#[trigger] self.frames[i]).block is None ==> {
                &&& self.free.contains(i as usize)
                &&& self.frames[i].pin_count == 0
                &&& !self.frames[i].dirty
            }
        &&& forall|f: u64| #[trigger]
            self.evictable.contains_key(f) ==> {
                &&& f < self.frames.len()
                &&& self.frames[f as int].block is Some
                &&& self.frames[f as int].pin_count == 0
                &&& self.evictable[f] == (self.frames[f as int].recency, f)
            }
        &&& forall|i: int|
            0 <= i < self.frames.len() && (#[trigger] self.frames[i]).block is Some
                && self.frames[i].pin_count == 0 ==> self.evictable.contains_key(i as u64)
    }

    /// The pool after frame `f` gained a holder.
    pub open spec fn pin_frame(self, f: int) -> PoolView {
        PoolView {
            frames: self.frames.update(
                f,
                FrameView {
                    pin_count: self.frames[f].pin_count + 1,
                    recency: self.clock,
                    ..self.frames[f]
                },
            ),
            free: self.free,
            evictable: self.evictable.remove(f as u64),
            clock: tick(self.clock),
        }
    }

    /// The pool after frame `f` lost a holder, marked dirty if `dirty`.
    pub open spec fn unpin_frame(self, f: int, dirty: bool) -> PoolView {
        let pins = (self.frames[f].pin_count - 1) as nat;
        let fr = self.frames[f];
        if pins == 0 {
            PoolView {
                frames: self.frames.update(
                    f,
                    FrameView { pin_count: pins, dirty: fr.dirty || dirty, recency: self.clock, ..fr },
                ),
                free: self.free,
                evictable: self.evictable.insert(f as u64, (self.clock, f as u64)),
                clock: tick(self.clock),
            }
        } else {
            PoolView {
                frames: self.frames.update(
                    f,
                    FrameView { pin_count: pins, dirty: fr.dirty || dirty, ..fr },
                ),
                ..self
            }
        }
    }

    /// The pool after frame `f` was bound to `id` with the bytes `data` and pinned
    /// once; `from_free` says whether it came off the free list.
    pub open spec fn install(self, f: int, id: BlockView, data: Seq<u8>, from_free: bool) -> PoolView {
        PoolView {
            frames: self.frames.update(
                f,
                FrameView { block: Some(id), pin_count: 1, dirty: false, data, recency: self.clock },
            ),
            free: if from_free {
                self.free.drop_last()
            } else {
                self.free
            },
            evictable: self.evictable.remove(f as u64),
            clock: tick(self.clock),
        }
    }

    /// The pool after frame `f` was unbound, zeroed and put on the free list.
    pub open spec fn release(self, f: int) -> PoolView {
        PoolView {
            frames: self.frames.update(
                f,
                FrameView { block: None, pin_count: 0, dirty: false, data: zero_block(), recency: 0 },
            ),
            free: self.free.push(f as usize),
            evictable: self.evictable.remove(f as u64),
            clock: self.clock,
        }
    }

    /// The pool after the bytes of frame `f` were written out.
    pub open spec fn clean(self, f: int) -> PoolView {
        PoolView { frames: self.frames.update(f, FrameView { dirty: false, ..self.frames[f] }), ..self }
    }

    /// A miss must wait for the next victim to be written out.
    pub open spec fn victim_dirty(self) -> bool {
        self.free.len() == 0 && exists|v: int| self.oldest(v) && self.frames[v].dirty
    }

    /// A miss can be served: a free frame, or a clean victim.
    pub open spec fn can_load(self) -> bool {
        self.free.len() > 0 || exists|v: int| self.oldest(v) && !self.frames[v].dirty
    }

    /// No frame can be had for a block: every frame holds a pinned block, or the
    /// block's frame has as many holders as a pin count can count.
    pub open spec fn exhausted(self, id: BlockView) -> bool {
        if self.resident(id) {
            exists|f: int| self.holds(f, id) && self.frames[f].pin_count >= u32::MAX
        } else {
            self.free.len() == 0 && self.evictable.is_empty()
        }
    }
}

/// Why a pool operation could not be carried out.
#[derive(Debug, PartialEq, Eq, Structural)]
pub enum BufferError {
    /// The disk collaborator failed to read or write.
    IoError,
    /// The block is not resident.
    NotFound,
    /// No frame can be had: every frame is pinned.
    BufferPoolExhausted,
    /// The block's frame has no holder to release.
    InvalidUnpin,
    /// The block is pinned and cannot be deleted.
    InUse,
    /// The next victim holds unwritten changes; write it out first.
    FlushRequired,
}

/// What a fetch asks of its caller.
pub enum Fetch {
    /// The block is resident in this frame, which is now pinned.
    Hit(usize),
    /// Read the block from disk and hand its bytes to `load`.
    Load,
    /// Write the bytes of this frame to the given block, report it with
    /// `mark_flushed`, then fetch again.
    Flush(usize, PageId),
}

pub open spec fn slot_view(s: Option<PageId>) -> Option<BlockView> {
    match s {
        Some(p) => Some(p@),
        None => None,
    }
}

/// A pool of block frames of fixed capacity: the frame table, the free list, the
/// replacer, and the pin / unpin / flush protocol over them. The pool does no I/O:
/// each operation tells its caller which read or write to carry out, and the
/// caller hands the outcome back.
pub struct BufferManager {
    frames: Vec<Page>,
    slots: Vec<Option<PageId>>,
    free_list: Vec<usize>,
    replacer: Replacer,
    clock: u64,
}

impl View for BufferManager {
    type V = PoolView;

    closed spec fn view(&self) -> PoolView {
        PoolView {
            frames: Seq::new(
                self.frames@.len(),
                |i: int|
                    FrameView {
                        block: slot_view(self.slots@[i]),
                        pin_count: self.frames@[i].pin_count as nat,
                        dirty: self.frames@[i].is_dirty,
                        data: self.frames@[i].buffer@,
                        recency: self.frames@[i].access_time,
                    },
            ),
            free: self.free_list@,
            evictable: self.replacer.entries(),
            clock: self.clock,
        }
    }
}

impl BufferManager {
    pub closed spec fn wf(&self) -> bool {
        &&& self.frames@.len() == self.slots@.len()
        &&& self.frames@.len() <= usize::MAX
        &&& self.replacer.wf()
        &&& self@.inv()
    }

    /// A pool of `capacity` frames, all free.
    pub fn new(capacity: usize) -> (r: BufferManager)
        ensures
            r.wf(),
            r@.inv(),
            r@.frames.len() == capacity,
            r@.free.len() == capacity,
            forall|k: int| 0 <= k < capacity ==> #[trigger] r@.free[k] == capacity - 1 - k,
            r@.clock == 0,
            r@.evictable.is_empty(),
            forall|i: int|
                0 <= i < capacity ==> (#[trigger] r@.frames[i]) == (FrameView {
                    block: None,
                    pin_count: 0,
                    dirty: false,
                    data: zero_block(),
                    recency: 0,
                }),
    {
        let mut frames: Vec<Page> = Vec::new();
        let mut slots: Vec<Option<PageId>> = Vec::new();
        let zero: [u8; BLOCK_SIZE] = [0u8; BLOCK_SIZE];
        assert(zero@ =~= zero_block());
        let mut i: usize = 0;
        while i < capacity
            invariant
                i <= capacity,
                frames@.len() == i,
                slots@.len() == i,
                zero@ == zero_block(),
                forall|k: int|
                    0 <= k < i ==> #[trigger] slots@[k] is None && frames@[k] == (Page {
                        is_dirty: false,
                        pin_count: 0,
                        buffer: zero,
                        access_time: 0,
                    }),
            decreases capacity - i,
        {
            frames.push(Page::new(zero, 0));
            slots.push(None);
            i = i + 1;
        }
        let mut k: usize = 0;
        let mut free_list: Vec<usize> = Vec::new();
        while k < capacity
            invariant
                k <= capacity,
                free_list@.len() == k,
                forall|j: int| 0 <= j < k ==> #[trigger] free_list@[j] == (capacity - 1 - j) as usize,
            decreases capacity - k,
        {
            free_list.push(capacity - 1 - k);
            k = k + 1;
        }
        assert(frames@.len() == capacity);
        let r = BufferManager { frames, slots, free_list, replacer: Replacer::new(capacity), clock: 0 };
        proof {
            let v = r@;
            assert forall|j: int| 0 <= j < capacity implies #[trigger] v.free.contains(j as usize) by {
                assert(v.free[capacity - 1 - j] == j as usize);
            }
            assert(v.frames.len() == capacity);
        }
        r
    }

    /// The frame that holds `id`, if any.
    pub fn lookup(&self, id: &PageId) -> (r: Option<usize>)
        requires
            self.wf(),
        ensures
            r matches Some(f) ==> self@.holds(f as int, id@),
            r is None ==> !self@.resident(id@),
    {
        let mut i: usize = 0;
        while i < self.slots.len()
            invariant
                self.wf(),
                i <= self.slots@.len(),
                forall|j: int| 0 <= j < i ==> !self@.holds(j, id@),
            decreases self.slots@.len() - i,
        {
            match &self.slots[i] {
                Some(p) => {
                    if p.same(id) {
                        return Some(i);
                    }
                },
                None => {},
            }
            i = i + 1;
        }
        None
    }

    /// Adds a holder to frame `f`, which holds a block.
    fn pin_at(&mut self, f: usize)
        requires
            old(self).wf(),
            f < old(self)@.frames.len(),
            old(self)@.frames[f as int].block is Some,
            old(self)@.frames[f as int].pin_count < u32::MAX,
        ensures
            final(self).wf(),
            final(self)@.inv(),
            final(self)@ == old(self)@.pin_frame(f as int),
    {
        let ghost before = self@;
        let mut p = self.frames[f];
        p.pin(self.clock);
        self.frames.set(f, p);
        self.replacer.untrack(f as u64);
        self.clock = if self.clock < u64::MAX {
            self.clock + 1
        } else {
            self.clock
        };
        proof {
            assert(self@.frames =~= before.pin_frame(f as int).frames);
            assert(self@.evictable =~= before.pin_frame(f as int).evictable);
            assert(self@ == before.pin_frame(f as int));
            let v = self@;
            assert forall|i: int|
                0 <= i < v.frames.len() && (#[trigger] v.frames[i]).block is Some
                    && v.frames[i].pin_count == 0 implies v.evictable.contains_key(i as u64) by {
                assert(before.frames[i] == v.frames[i]);
                assert(before.evictable.contains_key(i as u64));
                assert(i as u64 != f as u64);
            }
            assert forall|i: int|
                0 <= i < v.frames.len() && (#[trigger] v.frames[i]).block is None implies {
                    &&& v.free.contains(i as usize)
                    &&& v.frames[i].pin_count == 0
                    &&& !v.frames[i].dirty
                } by {
                assert(before.frames[i] == v.frames[i]);
            }
            assert forall|k: int| 0 <= k < v.free.len() implies #[trigger] v.free[k] < v.frames.len()
                && v.frames[v.free[k] as int].block is None by {
                assert(before.frames[before.free[k] as int].block is None);
            }
            assert forall|g: u64| #[trigger] v.evictable.contains_key(g) implies {
                &&& g < v.frames.len()
                &&& v.frames[g as int].block is Some
                &&& v.frames[g as int].pin_count == 0
                &&& v.evictable[g] == (v.frames[g as int].recency, g)
            } by {
                assert(before.evictable.contains_key(g));
            }
        }
    }

    /// The frame the replacer would give up next, leaving the pool as it is.
    fn next_victim(&mut self) -> (r: Option<usize>)
        requires
            old(self).wf(),
        ensures
            final(self).wf(),
            final(self)@.inv(),
            final(self)@ == old(self)@,
            r is None <==> old(self)@.evictable.is_empty(),
            r matches Some(v) ==> old(self)@.oldest(v as int),
    {
        let ghost before = self@;
        match self.replacer.evict() {
            None => None,
            Some(v) => {
                assert(before.evictable.contains_key(v));
                let vi = v as usize;
                assert(vi as int == v as int);
                let t = self.frames[vi].access_time;
                assert(before.frames[vi as int].recency == t);
                assert(before.evictable[v] == (t, v));
                self.replacer.track(v, t);
                assert(self.replacer.entries() == before.evictable.remove(v).insert(v, (t, v)));
                assert(self@.evictable == self.replacer.entries());
                assert(self@.evictable =~= before.evictable);
                assert(self@.frames =~= before.frames);
                Some(vi)
            },
        }
    }

    /// Asks for `id`. A resident block is pinned at once. For a block that is not
    /// resident nothing changes: the caller is told to read it and hand it to
    /// `load`, or first to write out the dirty frame that would be reused.
    pub fn fetch(&mut self, id: &PageId) -> (r: Result<Fetch, BufferError>)
        requires
            old(self).wf(),
        ensures
            final(self).wf(),
            final(self)@.inv(),
            match r {
                Ok(Fetch::Hit(f)) => {
                    &&& old(self)@.holds(f as int, id@)
                    &&& old(self)@.frames[f as int].pin_count < u32::MAX
                    &&& final(self)@ == old(self)@.pin_frame(f as int)
                },
                Ok(Fetch::Load) => {
                    &&& !old(self)@.resident(id@)
                    &&& old(self)@.can_load()
                    &&& final(self)@ == old(self)@
                },
                Ok(Fetch::Flush(v, b)) => {
                    &&& !old(self)@.resident(id@)
                    &&& old(self)@.free.len() == 0
                    &&& old(self)@.oldest(v as int)
                    &&& old(self)@.frames[v as int].dirty
                    &&& old(self)@.holds(v as int, b@)
                    &&& final(self)@ == old(self)@
                },
                Err(e) => {
                    &&& e == BufferError::BufferPoolExhausted
                    &&& old(self)@.exhausted(id@)
                    &&& final(self)@ == old(self)@
                },
            },
    {
        match self.lookup(id) {
            Some(f) => {
                if self.frames[f].pin_count == u32::MAX {
                    return Err(BufferError::BufferPoolExhausted);
                }
                self.pin_at(f);
                Ok(Fetch::Hit(f))
            },
            None => {
                if self.free_list.len() > 0 {
                    return Ok(Fetch::Load);
                }
                match self.next_victim() {
                    None => Err(BufferError::BufferPoolExhausted),
                    Some(v) => {
                        proof {
                            lemma_victim_unpinned(self@, v as int);
                        }
                        match &self.slots[v] {
                            Some(p) if self.frames[v].is_dirty => Ok(Fetch::Flush(v, p.duplicate())),
                            _ => Ok(Fetch::Load),
                        }
                    },
                }
            },
        }
    }

    /// Binds frame `f` to `id` with the bytes `data`, pinned once. The frame is the
    /// last on the free list when `from_free`, else an unpinned clean frame.
    fn install_at(&mut self, f: usize, id: &PageId, data: [u8; BLOCK_SIZE], from_free: bool)
        requires
            old(self).wf(),
            f < old(self)@.frames.len(),
            !old(self)@.resident(id@),
            from_free ==> old(self)@.free.len() > 0 && old(self)@.free.last() == f,
            !from_free ==> old(self)@.frames[f as int].block is Some && old(self)@.frames[f as int].pin_count == 0
                && !old(self)@.frames[f as int].dirty,
        ensures
            final(self).wf(),
            final(self)@.inv(),
            final(self)@ == old(self)@.install(f as int, id@, data@, from_free),
    {
        let ghost before = self@;
        if from_free {
            self.free_list.pop();
        }
        self.replacer.untrack(f as u64);
        self.frames.set(f, Page { is_dirty: false, pin_count: 1, buffer: data, access_time: self.clock });
        self.slots.set(f, Some(id.duplicate()));
        self.clock = if self.clock < u64::MAX {
            self.clock + 1
        } else {
            self.clock
        };
        proof {
            let after = before.install(f as int, id@, data@, from_free);
            assert(self@.frames =~= after.frames);
            assert(self@.evictable =~= after.evictable);
            assert(self@.free =~= after.free);
            assert(self@ == after);
            let v = self@;
            assert forall|i: int, j: int|
                0 <= i < v.frames.len() && 0 <= j < v.frames.len()
                    && #[trigger] v.frames[i].block is Some && v.frames[i].block
                    == #[trigger] v.frames[j].block implies i == j by {
                if i != f && j != f {
                    assert(before.frames[i] == v.frames[i]);
                    assert(before.frames[j] == v.frames[j]);
                } else if i == f && j != f {
                    assert(before.holds(j, id@));
                } else if i != f && j == f {
                    assert(before.holds(i, id@));
                }
            }
            if !from_free {
                assert(!before.free.contains(f)) by {
                    if before.free.contains(f) {
                        let k = choose|k: int| 0 <= k < before.free.len() && before.free[k] == f;
                        assert(before.frames[before.free[k] as int].block is None);
                    }
                }
            }
            assert forall|k: int| 0 <= k < v.free.len() implies #[trigger] v.free[k] < v.frames.len()
                && v.frames[v.free[k] as int].block is None by {
                assert(before.free[k] == v.free[k]);
                assert(before.frames[before.free[k] as int].block is None);
                if from_free {
                    assert(before.free[k] != before.free[before.free.len() - 1]);
                } else {
                    assert(before.free.contains(before.free[k]));
                }
            }
            assert forall|k: int, l: int| 0 <= k < l < v.free.len() implies #[trigger] v.free[k]
                != #[trigger] v.free[l] by {
                assert(before.free[k] == v.free[k]);
                assert(before.free[l] == v.free[l]);
            }
            assert forall|i: int|
                0 <= i < v.frames.len() && (#[trigger] v.frames[i]).block is None implies {
                    &&& v.free.contains(i as usize)
                    &&& v.frames[i].pin_count == 0
                    &&& !v.frames[i].dirty
                } by {
                assert(before.frames[i] == v.frames[i]);
                assert(before.free.contains(i as usize));
                let k = choose|k: int| 0 <= k < before.free.len() && before.free[k] == i as usize;
                if from_free {
                    assert(k != before.free.len() - 1);
                    assert(v.free[k] == i as usize);
                }
            }
            assert forall|g: u64| #[trigger] v.evictable.contains_key(g) implies {
                &&& g < v.frames.len()
                &&& v.frames[g as int].block is Some
                &&& v.frames[g as int].pin_count == 0
                &&& v.evictable[g] == (v.frames[g as int].recency, g)
            } by {
                assert(before.evictable.contains_key(g));
            }
            assert forall|i: int|
                0 <= i < v.frames.len() && (#[trigger] v.frames[i]).block is Some
                    && v.frames[i].pin_count == 0 implies v.evictable.contains_key(i as u64) by {
                assert(before.frames[i] == v.frames[i]);
                assert(before.evictable.contains_key(i as u64));
                assert(i as u64 != f as u64);
            }
        }
    }

    /// Hands over the bytes read for `id` after `fetch` answered `Load`. The block
    /// goes to the last frame of the free list, else to the replacer's victim if that
    /// is clean, and is pinned once. A block that became resident meanwhile is
    /// pinned where it is and `data` is dropped.
    pub fn load(&mut self, id: &PageId, data: [u8; BLOCK_SIZE]) -> (r: Result<usize, BufferError>)
        requires
            old(self).wf(),
        ensures
            final(self).wf(),
            final(self)@.inv(),
            match r {
                Ok(f) => if old(self)@.resident(id@) {
                    &&& old(self)@.holds(f as int, id@)
                    &&& old(self)@.frames[f as int].pin_count < u32::MAX
                    &&& final(self)@ == old(self)@.pin_frame(f as int)
                } else if old(self)@.free.len() > 0 {
                    &&& f == old(self)@.free.last()
                    &&& final(self)@ == old(self)@.install(f as int, id@, data@, true)
                } else {
                    &&& old(self)@.oldest(f as int)
                    &&& !old(self)@.frames[f as int].dirty
                    &&& final(self)@ == old(self)@.install(f as int, id@, data@, false)
                },
                Err(e) => {
                    &&& final(self)@ == old(self)@
                    &&& e == BufferError::BufferPoolExhausted ==> old(self)@.exhausted(id@)
                    &&& e == BufferError::FlushRequired ==> !old(self)@.resident(id@) && old(self)@.victim_dirty()
                    &&& (e == BufferError::BufferPoolExhausted || e == BufferError::FlushRequired)
                },
            },
    {
        match self.lookup(id) {
            Some(f) => {
                if self.frames[f].pin_count == u32::MAX {
                    return Err(BufferError::BufferPoolExhausted);
                }
                self.pin_at(f);
                Ok(f)
            },
            None => {
                let n = self.free_list.len();
                if n > 0 {
                    let f = self.free_list[n - 1];
                    self.install_at(f, id, data, true);
                    return Ok(f);
                }
                match self.next_victim() {
                    None => Err(BufferError::BufferPoolExhausted),
                    Some(v) => {
                        if self.frames[v].is_dirty {
                            Err(BufferError::FlushRequired)
                        } else {
                            self.install_at(v, id, data, false);
                            Ok(v)
                        }
                    },
                }
            },
        }
    }

    /// Releases one holder of `id`, marking the frame dirty if `is_dirty` (dirty
    /// stays set until the bytes are written out). A frame left with no holder
    /// becomes eligible for eviction with a fresh recency marker.
    pub fn unpin(&mut self, id: &PageId, is_dirty: bool) -> (r: Result<(), BufferError>)
        requires
            old(self).wf(),
        ensures
            final(self).wf(),
            final(self)@.inv(),
            match r {
                Ok(()) => old(self)@.resident(id@) && forall|f: int| #[trigger]
                    old(self)@.holds(f, id@) ==> old(self)@.frames[f].pin_count > 0 && final(self)@
                        == old(self)@.unpin_frame(f, is_dirty),
                Err(BufferError::NotFound) => !old(self)@.resident(id@) && final(self)@ == old(self)@,
                Err(BufferError::InvalidUnpin) => old(self)@.resident(id@) && final(self)@ == old(self)@
                    && forall|f: int| #[trigger]
                    old(self)@.holds(f, id@) ==> old(self)@.frames[f].pin_count == 0,
                Err(_) => false,
            },
    {
        let ghost before = self@;
        match self.lookup(id) {
            None => Err(BufferError::NotFound),
            Some(f) => {
                let mut p = self.frames[f];
                if !p.unpin() {
                    return Err(BufferError::InvalidUnpin);
                }
                p.is_dirty = p.is_dirty || is_dirty;
                if p.pin_count == 0 {
                    p.access_time = self.clock;
                    self.frames.set(f, p);
                    self.replacer.track(f as u64, self.clock);
                    self.clock = if self.clock < u64::MAX {
                        self.clock + 1
                    } else {
                        self.clock
                    };
                } else {
                    self.frames.set(f, p);
                }
                proof {
                    let after = before.unpin_frame(f as int, is_dirty);
                    assert(self@.frames =~= after.frames);
                    assert(self@.evictable =~= after.evictable);
                    assert(self@ == after);
                    let v = self@;
                    assert forall|i: int, j: int|
                        0 <= i < v.frames.len() && 0 <= j < v.frames.len()
                            && #[trigger] v.frames[i].block is Some && v.frames[i].block
                            == #[trigger] v.frames[j].block implies i == j by {
                        assert(before.frames[i].block == v.frames[i].block);
                        assert(before.frames[j].block == v.frames[j].block);
                    }
                    assert forall|k: int| 0 <= k < v.free.len() implies #[trigger] v.free[k]
                        < v.frames.len() && v.frames[v.free[k] as int].block is None by {
                        assert(before.frames[before.free[k] as int].block is None);
                    }
                    assert forall|i: int|
                        0 <= i < v.frames.len() && (#[trigger] v.frames[i]).block is None implies {
                            &&& v.free.contains(i as usize)
                            &&& v.frames[i].pin_count == 0
                            &&& !v.frames[i].dirty
                        } by {
                        assert(before.frames[i] == v.frames[i]);
                    }
                    assert forall|g: u64| #[trigger] v.evictable.contains_key(g) implies {
                        &&& g < v.frames.len()
                        &&& v.frames[g as int].block is Some
                        &&& v.frames[g as int].pin_count == 0
                        &&& v.evictable[g] == (v.frames[g as int].recency, g)
                    } by {
                        if g != f as u64 {
                            assert(before.evictable.contains_key(g));
                        }
                    }
                    assert forall|i: int|
                        0 <= i < v.frames.len() && (#[trigger] v.frames[i]).block is Some
                            && v.frames[i].pin_count == 0 implies v.evictable.contains_key(
                        i as u64,
                    ) by {
                        if i != f {
                            assert(before.frames[i] == v.frames[i]);
                            assert(before.evictable.contains_key(i as u64));
                        }
                    }
                    assert forall|g: int| #[trigger] before.holds(g, id@) implies g == f by {}
                }
                Ok(())
            },
        }
    }

    /// Drops `id` from the pool: its frame is unbound, zeroed and freed. The caller
    /// then has the disk collaborator reclaim the block.
    pub fn delete_page(&mut self, id: &PageId) -> (r: Result<(), BufferError>)
        requires
            old(self).wf(),
        ensures
            final(self).wf(),
            final(self)@.inv(),
            match r {
                Ok(()) => old(self)@.resident(id@) && forall|f: int| #[trigger]
                    old(self)@.holds(f, id@) ==> old(self)@.frames[f].pin_count == 0 && final(self)@
                        == old(self)@.release(f),
                Err(BufferError::NotFound) => !old(self)@.resident(id@) && final(self)@ == old(self)@,
                Err(BufferError::InUse) => old(self)@.resident(id@) && final(self)@ == old(self)@
                    && forall|f: int| #[trigger]
                    old(self)@.holds(f, id@) ==> old(self)@.frames[f].pin_count > 0,
                Err(_) => false,
            },
    {
        let ghost before = self@;
        match self.lookup(id) {
            None => Err(BufferError::NotFound),
            Some(f) => {
                if self.frames[f].pin_count > 0 {
                    assert forall|g: int| #[trigger] before.holds(g, id@) implies g == f by {}
                    return Err(BufferError::InUse);
                }
                let mut p = self.frames[f];
                p.reset();
                self.frames.set(f, p);
                self.slots.set(f, None);
                self.replacer.untrack(f as u64);
                self.free_list.push(f);
                proof {
                    let after = before.release(f as int);
                    assert(self@.frames =~= after.frames);
                    assert(self@.evictable =~= after.evictable);
                    assert(self@.free =~= after.free);
                    assert(self@ == after);
                    let v = self@;
                    assert(!before.free.contains(f)) by {
                        if before.free.contains(f) {
                            let k = choose|k: int| 0 <= k < before.free.len() && before.free[k] == f;
                            assert(before.frames[before.free[k] as int].block is None);
                        }
                    }
                    assert forall|i: int, j: int|
                        0 <= i < v.frames.len() && 0 <= j < v.frames.len()
                            && #[trigger] v.frames[i].block is Some && v.frames[i].block
                            == #[trigger] v.frames[j].block implies i == j by {
                        assert(before.frames[i] == v.frames[i]);
                        assert(before.frames[j] == v.frames[j]);
                    }
                    assert forall|k: int| 0 <= k < v.free.len() implies #[trigger] v.free[k]
                        < v.frames.len() && v.frames[v.free[k] as int].block is None by {
                        if k < before.free.len() {
                            assert(before.frames[before.free[k] as int].block is None);
                        }
                    }
                    assert forall|k: int, l: int| 0 <= k < l < v.free.len() implies #[trigger] v.free[k]
                        != #[trigger] v.free[l] by {
                        if l == before.free.len() {
                            assert(before.free[k] != f || before.free.contains(f));
                        }
                    }
                    assert forall|i: int|
                        0 <= i < v.frames.len() && (#[trigger] v.frames[i]).block is None implies {
                            &&& v.free.contains(i as usize)
                            &&& v.frames[i].pin_count == 0
                            &&& !v.frames[i].dirty
                        } by {
                        if i == f {
                            assert(v.free[before.free.len() as int] == f);
                        } else {
                            assert(before.frames[i] == v.frames[i]);
                            assert(before.free.contains(i as usize));
                            let k = choose|k: int| 0 <= k < before.free.len() && before.free[k] == i as usize;
                            assert(v.free[k] == i as usize);
                        }
                    }
                    assert forall|g: u64| #[trigger] v.evictable.contains_key(g) implies {
                        &&& g < v.frames.len()
                        &&& v.frames[g as int].block is Some
                        &&& v.frames[g as int].pin_count == 0
                        &&& v.evictable[g] == (v.frames[g as int].recency, g)
                    } by {
                        assert(before.evictable.contains_key(g));
                    }
                    assert forall|i: int|
                        0 <= i < v.frames.len() && (#[trigger] v.frames[i]).block is Some
                            && v.frames[i].pin_count == 0 implies v.evictable.contains_key(
                        i as u64,
                    ) by {
                        assert(before.frames[i] == v.frames[i]);
                        assert(before.evictable.contains_key(i as u64));
                        assert(i as u64 != f as u64);
                    }
                    assert forall|g: int| #[trigger] before.holds(g, id@) implies g == f by {}
                }
                Ok(())
            },
        }
    }

    /// Tells whether `id` must be written out: the frame to write when it is dirty,
    /// None when it is clean, NotFound when it is not resident.
    pub fn flush(&self, id: &PageId) -> (r: Result<Option<usize>, BufferError>)
        requires
            self.wf(),
        ensures
            match r {
                Ok(Some(f)) => self@.holds(f as int, id@) && self@.frames[f as int].dirty,
                Ok(None) => self@.resident(id@) && forall|f: int| #[trigger]
                    self@.holds(f, id@) ==> !self@.frames[f].dirty,
                Err(e) => e == BufferError::NotFound && !self@.resident(id@),
            },
    {
        match self.lookup(id) {
            None => Err(BufferError::NotFound),
            Some(f) => {
                assert forall|g: int| #[trigger] self@.holds(g, id@) implies g == f as int by {}
                if self.frames[f].is_dirty {
                    Ok(Some(f))
                } else {
                    Ok(None)
                }
            },
        }
    }

    /// Records that the bytes of frame `f` were written out successfully.
    pub fn mark_flushed(&mut self, f: usize)
        requires
            old(self).wf(),
            f < old(self)@.frames.len(),
        ensures
            final(self).wf(),
            final(self)@.inv(),
            final(self)@ == old(self)@.clean(f as int),
    {
        let ghost before = self@;
        let mut p = self.frames[f];
        p.is_dirty = false;
        self.frames.set(f, p);
        proof {
            assert(self@.frames =~= before.clean(f as int).frames);
            let v = self@;
            assert forall|i: int, j: int|
                0 <= i < v.frames.len() && 0 <= j < v.frames.len()
                    && #[trigger] v.frames[i].block is Some && v.frames[i].block
                    == #[trigger] v.frames[j].block implies i == j by {
                assert(before.frames[i].block == v.frames[i].block);
                assert(before.frames[j].block == v.frames[j].block);
            }
            assert forall|k: int| 0 <= k < v.free.len() implies #[trigger] v.free[k] < v.frames.len()
                && v.frames[v.free[k] as int].block is None by {
                assert(before.frames[before.free[k] as int].block is None);
            }
            assert forall|i: int|
                0 <= i < v.frames.len() && (#[trigger] v.frames[i]).block is None implies {
                    &&& v.free.contains(i as usize)
                    &&& v.frames[i].pin_count == 0
                    &&& !v.frames[i].dirty
                } by {
                assert(before.frames[i].block == v.frames[i].block);
            }
            assert forall|g: u64| #[trigger] v.evictable.contains_key(g) implies {
                &&& g < v.frames.len()
                &&& v.frames[g as int].block is Some
                &&& v.frames[g as int].pin_count == 0
                &&& v.evictable[g] == (v.frames[g as int].recency, g)
            } by {
                assert(before.evictable.contains_key(g));
            }
            assert forall|i: int|
                0 <= i < v.frames.len() && (#[trigger] v.frames[i]).block is Some
                    && v.frames[i].pin_count == 0 implies v.evictable.contains_key(i as u64) by {
                assert(before.frames[i].block == v.frames[i].block);
            }
        }
    }

    /// The frames that hold a block with unwritten changes, in increasing order:
    /// what a flush of the whole pool must write.
    pub fn dirty_frames(&self) -> (r: Vec<usize>)
        requires
            self.wf(),
        ensures
            forall|k: int, l: int| 0 <= k < l < r@.len() ==> r@[k] < r@[l],
            forall|f: usize|
                #[trigger] r@.contains(f) <==> (f < self@.frames.len() && self@.frames[f as int].block is Some
                    && self@.frames[f as int].dirty),
    {
        let mut r: Vec<usize> = Vec::new();
        let mut i: usize = 0;
        while i < self.frames.len()
            invariant
                self.wf(),
                i <= self@.frames.len(),
                forall|k: int, l: int| 0 <= k < l < r@.len() ==> r@[k] < r@[l],
                forall|k: int| 0 <= k < r@.len() ==> #[trigger] r@[k] < i,
                forall|f: usize|
                    #[trigger] r@.contains(f) <==> (f < i && self@.frames[f as int].block is Some
                        && self@.frames[f as int].dirty),
            decreases self@.frames.len() - i,
        {
            if self.frames[i].is_dirty && self.slots[i].is_some() {
                let ghost prev = r@;
                r.push(i);
                proof {
                    assert forall|f: usize| #[trigger] r@.contains(f) <==> (f < i + 1
                        && self@.frames[f as int].block is Some && self@.frames[f as int].dirty) by {
                        if r@.contains(f) && f != i {
                            let k = choose|k: int| 0 <= k < r@.len() && r@[k] == f;
                            assert(prev[k] == f);
                            assert(prev.contains(f));
                        }
                        if f < i && prev.contains(f) {
                            let k = choose|k: int| 0 <= k < prev.len() && prev[k] == f;
                            assert(r@[k] == f);
                        }
                        if f == i {
                            assert(r@[r@.len() - 1] == f);
                        }
                    }
                }
            }
            i = i + 1;
        }
        r
    }

    /// Replaces the bytes of the frame that holds `id` and returns that frame. The
    /// frame is marked dirty when the caller unpins it with `is_dirty` set.
    pub fn write_page(&mut self, id: &PageId, data: [u8; BLOCK_SIZE]) -> (r: Result<usize, BufferError>)
        requires
            old(self).wf(),
        ensures
            final(self).wf(),
            final(self)@.inv(),
            match r {
                Ok(f) => old(self)@.holds(f as int, id@) && final(self)@ == (PoolView {
                    frames: old(self)@.frames.update(
                        f as int,
                        FrameView { data: data@, ..old(self)@.frames[f as int] },
                    ),
                    ..old(self)@
                }),
                Err(e) => e == BufferError::NotFound && !old(self)@.resident(id@) && final(self)@
                    == old(self)@,
            },
    {
        let ghost before = self@;
        match self.lookup(id) {
            None => Err(BufferError::NotFound),
            Some(f) => {
                let mut p = self.frames[f];
                p.buffer = data;
                self.frames.set(f, p);
                proof {
                    let v = self@;
                    assert(v.frames =~= before.frames.update(
                        f as int,
                        FrameView { data: data@, ..before.frames[f as int] },
                    ));
                    assert forall|i: int, j: int|
                        0 <= i < v.frames.len() && 0 <= j < v.frames.len()
                            && #[trigger] v.frames[i].block is Some && v.frames[i].block
                            == #[trigger] v.frames[j].block implies i == j by {
                        assert(before.frames[i].block == v.frames[i].block);
                        assert(before.frames[j].block == v.frames[j].block);
                    }
                    assert forall|k: int| 0 <= k < v.free.len() implies #[trigger] v.free[k]
                        < v.frames.len() && v.frames[v.free[k] as int].block is None by {
                        assert(before.frames[before.free[k] as int].block is None);
                    }
                    assert forall|i: int|
                        0 <= i < v.frames.len() && (#[trigger] v.frames[i]).block is None implies {
                            &&& v.free.contains(i as usize)
                            &&& v.frames[i].pin_count == 0
                            &&& !v.frames[i].dirty
                        } by {
                        assert(before.frames[i].block == v.frames[i].block);
                    }
                    assert forall|g: u64| #[trigger] v.evictable.contains_key(g) implies {
                        &&& g < v.frames.len()
                        &&& v.frames[g as int].block is Some
                        &&& v.frames[g as int].pin_count == 0
                        &&& v.evictable[g] == (v.frames[g as int].recency, g)
                    } by {
                        assert(before.evictable.contains_key(g));
                    }
                    assert forall|i: int|
                        0 <= i < v.frames.len() && (#[trigger] v.frames[i]).block is Some
                            && v.frames[i].pin_count == 0 implies v.evictable.contains_key(
                        i as u64,
                    ) by {
                        assert(before.frames[i].block == v.frames[i].block);
                    }
                }
                Ok(f)
            },
        }
    }

    /// Number of frames.
    pub fn capacity(&self) -> (r: usize)
        requires
            self.wf(),
        ensures
            r == self@.frames.len(),
    {
        self.frames.len()
    }

    /// The bytes held by frame `f`.
    pub fn frame_data(&self, f: usize) -> (r: &[u8; BLOCK_SIZE])
        requires
            self.wf(),
            f < self@.frames.len(),
        ensures
            r@ == self@.frames[f as int].data,
    {
        &self.frames[f].buffer
    }

    /// The block bound to frame `f`, if any.
    pub fn frame_block(&self, f: usize) -> (r: Option<PageId>)
        requires
            self.wf(),
            f < self@.frames.len(),
        ensures
            slot_view(r) == self@.frames[f as int].block,
    {
        match &self.slots[f] {
            Some(p) => Some(p.duplicate()),
            None => None,
        }
    }

    /// Pin count of the frame of `id`, or None when it is not resident.
    pub fn pin_count(&self, id: &PageId) -> (r: Option<u32>)
        requires
            self.wf(),
        ensures
            r is None <==> !self@.resident(id@),
            r matches Some(n) ==> forall|f: int| #[trigger]
                self@.holds(f, id@) ==> self@.frames[f].pin_count == n,
    {
        match self.lookup(id) {
            None => None,
            Some(f) => {
                assert forall|g: int| #[trigger] self@.holds(g, id@) implies g == f as int by {}
                Some(self.frames[f].pin_count)
            },
        }
    }

    /// Dirty flag of the frame of `id`, or None when it is not resident.
    pub fn is_dirty(&self, id: &PageId) -> (r: Option<bool>)
        requires
            self.wf(),
        ensures
            r is None <==> !self@.resident(id@),
            r matches Some(d) ==> forall|f: int| #[trigger]
                self@.holds(f, id@) ==> self@.frames[f].dirty == d,
    {
        match self.lookup(id) {
            None => None,
            Some(f) => {
                assert forall|g: int| #[trigger] self@.holds(g, id@) implies g == f as int by {}
                Some(self.frames[f].is_dirty)
            },
        }
    }
}


/// The pool after the frames in `fs` were written out, one after another.
pub open spec fn clean_all(p: PoolView, fs: Seq<usize>) -> PoolView
    decreases fs.len(),
{
    if fs.len() == 0 {
        p
    } else {
        clean_all(p.clean(fs.last() as int), fs.drop_last())
    }
}

/// The frame the replacer gives up is bound to a block and has no holder: a
/// pinned frame is never chosen for eviction.
pub proof fn lemma_victim_unpinned(p: PoolView, v: int)
    requires
        p.inv(),
        p.oldest(v),
    ensures
        p.frames[v].block is Some,
        p.frames[v].pin_count == 0,
{
    assert(p.evictable.contains_key(v as u64));
}

/// At most one frame is the replacer's next victim.
pub proof fn lemma_oldest_unique(p: PoolView, v: int, w: int)
    requires
        p.inv(),
        p.oldest(v),
        p.oldest(w),
    ensures
        v == w,
{
    assert(p.evictable.contains_key(v as u64));
    assert(p.evictable.contains_key(w as u64));
}

/// On a miss with no free frame, the caller is asked for a flush exactly when the
/// victim is dirty; once that one flush is recorded, the same miss asks for no
/// other and the victim can be reused.
pub proof fn lemma_flush_exactly_when_dirty(p: PoolView, v: int)
    requires
        p.inv(),
        p.free.len() == 0,
        p.oldest(v),
    ensures
        p.victim_dirty() <==> p.frames[v].dirty,
        p.can_load() <==> !p.frames[v].dirty,
        p.clean(v).inv(),
        p.clean(v).oldest(v),
        p.clean(v).can_load(),
        !p.clean(v).victim_dirty(),
{
    if p.victim_dirty() {
        let w = choose|w: int| p.oldest(w) && p.frames[w].dirty;
        lemma_oldest_unique(p, v, w);
    }
    if p.can_load() {
        let w = choose|w: int| p.oldest(w) && !p.frames[w].dirty;
        lemma_oldest_unique(p, v, w);
    }
    let q = p.clean(v);
    assert forall|i: int, j: int|
        0 <= i < q.frames.len() && 0 <= j < q.frames.len() && #[trigger] q.frames[i].block is Some
            && q.frames[i].block == #[trigger] q.frames[j].block implies i == j by {
        assert(p.frames[i].block == q.frames[i].block);
        assert(p.frames[j].block == q.frames[j].block);
    }
    assert forall|k: int| 0 <= k < q.free.len() implies #[trigger] q.free[k] < q.frames.len()
        && q.frames[q.free[k] as int].block is None by {}
    assert forall|i: int|
        0 <= i < q.frames.len() && (#[trigger] q.frames[i]).block is None implies {
            &&& q.free.contains(i as usize)
            &&& q.frames[i].pin_count == 0
            &&& !q.frames[i].dirty
        } by {
        assert(p.frames[i].block == q.frames[i].block);
    }
    assert forall|g: u64| #[trigger] q.evictable.contains_key(g) implies {
        &&& g < q.frames.len()
        &&& q.frames[g as int].block is Some
        &&& q.frames[g as int].pin_count == 0
        &&& q.evictable[g] == (q.frames[g as int].recency, g)
    } by {}
    assert forall|i: int|
        0 <= i < q.frames.len() && (#[trigger] q.frames[i]).block is Some && q.frames[i].pin_count
            == 0 implies q.evictable.contains_key(i as u64) by {
        assert(p.frames[i].block == q.frames[i].block);
    }
    assert(q.oldest(v));
    if q.victim_dirty() {
        let w = choose|w: int| q.oldest(w) && q.frames[w].dirty;
        lemma_oldest_unique(q, v, w);
    }
}

/// A block just loaded into frame `f` is held there once; fetching it again finds
/// the same frame, which no other frame can hold, and leaves it held twice.
pub proof fn lemma_fetch_twice_same_frame(
    p: PoolView,
    f: int,
    id: BlockView,
    data: Seq<u8>,
    from_free: bool,
    g: int,
)
    requires
        p.inv(),
        0 <= f < p.frames.len(),
        !p.resident(id),
        p.install(f, id, data, from_free).holds(g, id),
    ensures
        g == f,
        p.install(f, id, data, from_free).frames[f].pin_count == 1,
        p.install(f, id, data, from_free).pin_frame(f).frames[f].pin_count == 2,
        p.install(f, id, data, from_free).pin_frame(f).holds(f, id),
{
    let q = p.install(f, id, data, from_free);
    if g != f {
        assert(p.frames[g] == q.frames[g]);
        assert(p.holds(g, id));
    }
}

/// When every frame holds a pinned block, a block that is not resident cannot be
/// given a frame.
pub proof fn lemma_all_pinned_exhausted(p: PoolView, id: BlockView)
    requires
        p.inv(),
        forall|f: int| 0 <= f < p.frames.len() ==> (#[trigger] p.frames[f]).block is Some
            && p.frames[f].pin_count > 0,
        !p.resident(id),
    ensures
        p.exhausted(id),
{
    if p.free.len() > 0 {
        assert(p.free[0] < p.frames.len());
        assert(p.frames[p.free[0] as int].block is None);
    }
    if !p.evictable.is_empty() {
        let g = choose|g: u64| p.evictable.contains_key(g);
        assert(p.frames[g as int].pin_count == 0);
    }
    assert(p.evictable =~= Map::<u64, (u64, u64)>::empty());
}

/// Writing out every frame that `dirty_frames` names leaves no frame dirty, so a
/// second flush of the whole pool writes nothing; nothing else changes.
pub proof fn lemma_flush_all_idempotent(p: PoolView, fs: Seq<usize>)
    requires
        p.frames.len() <= usize::MAX,
        forall|k: int| 0 <= k < fs.len() ==> #[trigger] fs[k] < p.frames.len(),
        forall|f: usize|
            f < p.frames.len() && p.frames[f as int].block is Some && p.frames[f as int].dirty
                ==> #[trigger] fs.contains(f),
    ensures
        clean_all(p, fs).frames.len() == p.frames.len(),
        forall|f: int| 0 <= f < p.frames.len() ==> !(#[trigger] clean_all(p, fs).frames[f]).dirty
            || clean_all(p, fs).frames[f].block is None,
        forall|f: int|
            0 <= f < p.frames.len() ==> (#[trigger] clean_all(p, fs).frames[f]).block
                == p.frames[f].block,
        clean_all(p, fs).free == p.free,
        clean_all(p, fs).evictable == p.evictable,
    decreases fs.len(),
{
    if fs.len() == 0 {
        assert forall|f: int| 0 <= f < p.frames.len() implies !(#[trigger] clean_all(p, fs).frames[f]).dirty
            || clean_all(p, fs).frames[f].block is None by {
            if p.frames[f].block is Some && p.frames[f].dirty {
                assert(fs.contains(f as usize));
            }
        }
    }
    if fs.len() > 0 {
        let q = p.clean(fs.last() as int);
        let rest = fs.drop_last();
        assert forall|f: usize|
            f < q.frames.len() && q.frames[f as int].block is Some && q.frames[f as int].dirty
                implies #[trigger] rest.contains(f) by {
            assert(p.frames[f as int].dirty);
            assert(fs.contains(f));
            let k = choose|k: int| 0 <= k < fs.len() && fs[k] == f;
            assert(k != fs.len() - 1);
            assert(rest[k] == f);
        }
        assert forall|k: int| 0 <= k < rest.len() implies #[trigger] rest[k] < q.frames.len() by {
            assert(fs[k] == rest[k]);
        }
        lemma_flush_all_idempotent(q, rest);
        assert(clean_all(p, fs) == clean_all(q, rest));
        assert forall|f: int| 0 <= f < p.frames.len() implies !(#[trigger] clean_all(p, fs).frames[f]).dirty
            || clean_all(p, fs).frames[f].block is None by {
            assert(!clean_all(q, rest).frames[f].dirty || clean_all(q, rest).frames[f].block is None);
        }
        assert forall|f: int| 0 <= f < p.frames.len() implies (#[trigger] clean_all(p, fs).frames[f]).block
            == p.frames[f].block by {
            assert(clean_all(q, rest).frames[f].block == q.frames[f].block);
        }
    }
}

} // verus!
