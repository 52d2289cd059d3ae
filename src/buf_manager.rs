use vstd::prelude::*;
use crate::common::{
    block_start, index_of, lemma_sizes, lemma_slot_index_bounds, slot_index, BUF_SIZE,
    PAGE_SIZE, PAGE_SPAN, PageID, RawFd,
};

verus! {

/// One entry of the page cache.
#[derive(Clone, Copy)]
pub struct Slot {
    /// The page's bytes, meaningful only while `valid`.
    pub content: [u8; PAGE_SIZE],
    /// The slot holds a page.
    pub valid: bool,
    /// The content has not been persisted since it last changed.
    pub dirty: bool,
    /// The `(handle, page)` the content belongs to.
    pub owner: (RawFd, PageID),
}

/// A page whose bytes the caller must write to backing storage.
#[derive(Clone, Copy)]
pub struct WriteBack {
    pub fd: RawFd,
    pub page: PageID,
    pub data: [u8; PAGE_SIZE],
}

/// The slot stored at index `i` is where its owner maps to.
pub open spec fn slot_placed(s: Slot, i: int) -> bool {
    &&& s.owner.0 >= 0
    &&& s.owner.1 >= 0
    &&& slot_index(s.owner.0 as int, s.owner.1 as int) == i
}

/// Page `page` of handle `fd` is held by the cache.
pub open spec fn resident_in(cache: Seq<Slot>, fd: RawFd, page: PageID) -> bool {
    let s = cache[slot_index(fd as int, page as int)];
    s.valid && s.owner == (fd, page)
}

/// The slot after a write that hits it.
pub open spec fn slot_written(s: Slot, data: [u8; PAGE_SIZE]) -> Slot {
    Slot { content: data, valid: s.valid, dirty: true, owner: s.owner }
}

/// A clean slot holding `data` for `(fd, page)`.
pub open spec fn slot_installed(fd: RawFd, page: PageID, data: [u8; PAGE_SIZE]) -> Slot {
    Slot { content: data, valid: true, dirty: false, owner: (fd, page) }
}

/// The slot once its content has been persisted.
pub open spec fn slot_cleaned(s: Slot) -> Slot {
    Slot { content: s.content, valid: s.valid, dirty: false, owner: s.owner }
}

/// What installing into slot `s` must first write back, if anything.
pub open spec fn displaced(s: Slot) -> Option<WriteBack> {
    if s.valid && s.dirty {
        Some(WriteBack { fd: s.owner.0, page: s.owner.1, data: s.content })
    } else {
        None
    }
}

/// The slot after its handle `fd` leaves the cache.
pub open spec fn slot_evicted(s: Slot, fd: RawFd) -> Slot {
    if s.valid && s.owner.0 == fd {
        Slot { content: s.content, valid: false, dirty: s.dirty, owner: s.owner }
    } else {
        s
    }
}

/// The cache after every slot owned by `fd` is invalidated.
pub open spec fn cache_evicted(cache: Seq<Slot>, fd: RawFd) -> Seq<Slot> {
    Seq::new(cache.len(), |i: int| slot_evicted(cache[i], fd))
}

/// Slot `s` holds a page of `fd` that was changed and not persisted.
pub open spec fn dirty_of(s: Slot, fd: RawFd) -> bool {
    s.valid && s.dirty && s.owner.0 == fd
}

/// `ws` is exactly the dirty pages of `fd` in `cache`: each entry is one of
/// them with its cached bytes, each of them has an entry, and no page has two.
pub open spec fn write_backs_of(ws: Seq<WriteBack>, cache: Seq<Slot>, fd: RawFd) -> bool {
    &&& forall|k1: int, k2: int|
        0 <= k1 < k2 < ws.len() ==> (#[trigger] ws[k1]).page != (#[trigger] ws[k2]).page
    &&& forall|k: int|
        0 <= k < ws.len() ==> {
            let w = #[trigger] ws[k];
            &&& w.fd == fd
            &&& w.page >= 0
            &&& dirty_of(cache[slot_index(fd as int, w.page as int)], fd)
            &&& cache[slot_index(fd as int, w.page as int)].owner.1 == w.page
            &&& cache[slot_index(fd as int, w.page as int)].content == w.data
        }
    &&& forall|i: int|
        0 <= i < BUF_SIZE && dirty_of(#[trigger] cache[i], fd) ==> exists|k: int|
            0 <= k < ws.len() && (#[trigger] ws[k]).page == cache[i].owner.1
}

/// A direct-mapped cache of pages: each `(handle, page)` has exactly one slot
/// it may occupy, given by `slot_index`.
pub struct BufManager {
    slots: Vec<Slot>,
}

impl View for BufManager {
    type V = Seq<Slot>;

    closed spec fn view(&self) -> Seq<Slot> {
        self.slots@
    }
}

impl BufManager {
    /// The cache has its full size and every valid slot sits where its owner maps.
    pub open spec fn wf(&self) -> bool {
        &&& self@.len() == BUF_SIZE
        &&& forall|i: int| 0 <= i < BUF_SIZE && (#[trigger] self@[i]).valid ==> slot_placed(self@[i], i)
    }

    /// An empty cache.
    pub fn new() -> (r: BufManager)
        ensures
            r.wf(),
            forall|i: int| 0 <= i < BUF_SIZE ==> !(#[trigger] r@[i]).valid && !r@[i].dirty,
            forall|i: int, j: int| 0 <= i < BUF_SIZE && 0 <= j < PAGE_SIZE ==> (#[trigger] r@[i].content@[j]) == 0u8,
    {
        let mut slots: Vec<Slot> = Vec::new();
        let mut i: usize = 0;
        while i < BUF_SIZE
            invariant
                slots@.len() == i,
                i <= BUF_SIZE,
                forall|j: int| 0 <= j < i ==> !(#[trigger] slots@[j]).valid && !slots@[j].dirty,
                forall|j: int, k: int| 0 <= j < i && 0 <= k < PAGE_SIZE ==> (#[trigger] slots@[j].content@[k]) == 0u8,
            decreases BUF_SIZE - i,
        {
            let zeros = [0u8; PAGE_SIZE];
            assert(forall|k: int| 0 <= k < PAGE_SIZE ==> zeros@[k] == 0u8);
            let ghost before = slots@;
            slots.push(Slot { content: zeros, valid: false, dirty: false, owner: (0, 0) });
            assert forall|j: int, k: int| 0 <= j < i + 1 && 0 <= k < PAGE_SIZE implies (#[trigger] slots@[j].content@[k]) == 0u8 by {
                if j < i {
                    assert(slots@[j] == before[j]);
                    assert(before[j].content@[k] == 0u8);
                } else {
                    assert(slots@[j].content == zeros);
                    assert(zeros@[k] == 0u8);
                }
            }
            i = i + 1;
        }
        BufManager { slots }
    }

    /// Whether page `page` of `fd` is in the cache.
    pub fn is_cached(&self, fd: RawFd, page: PageID) -> (r: bool)
        requires
            self.wf(),
            fd >= 0,
            page >= 0,
        ensures
            r == resident_in(self@, fd, page),
    {
        let i = index_of(fd, page);
        let s = &self.slots[i];
        s.valid && s.owner.0 == fd && s.owner.1 == page
    }

    /// Copies the cached content of a resident page into `buf`.
    pub fn get(&self, fd: RawFd, page: PageID, buf: &mut [u8; PAGE_SIZE])
        requires
            self.wf(),
            fd >= 0,
            page >= 0,
            resident_in(self@, fd, page),
        ensures
            *final(buf) == self@[slot_index(fd as int, page as int)].content,
    {
        let i = index_of(fd, page);
        *buf = self.slots[i].content;
    }

    /// Overwrites the content of a resident page and marks it dirty.
    pub fn update(&mut self, fd: RawFd, page: PageID, buf: &[u8; PAGE_SIZE])
        requires
            old(self).wf(),
            fd >= 0,
            page >= 0,
            resident_in(old(self)@, fd, page),
        ensures
            final(self).wf(),
            final(self)@ == old(self)@.update(
                slot_index(fd as int, page as int),
                slot_written(old(self)@[slot_index(fd as int, page as int)], *buf),
            ),
    {
        let i = index_of(fd, page);
        let s = self.slots[i];
        self.slots.set(i, Slot { content: *buf, valid: s.valid, dirty: true, owner: s.owner });
    }

    /// The dirty page that installing `(fd, page)` would displace, if any; it
    /// must be persisted and marked clean before the slot is reused.
    pub fn pending_eviction(&self, fd: RawFd, page: PageID) -> (r: Option<WriteBack>)
        requires
            self.wf(),
            fd >= 0,
            page >= 0,
        ensures
            r == displaced(self@[slot_index(fd as int, page as int)]),
    {
        let i = index_of(fd, page);
        let s = self.slots[i];
        if s.valid && s.dirty {
            Some(WriteBack { fd: s.owner.0, page: s.owner.1, data: s.content })
        } else {
            None
        }
    }

    /// Marks a resident page clean once its bytes have been persisted.
    pub fn mark_clean(&mut self, fd: RawFd, page: PageID)
        requires
            old(self).wf(),
            fd >= 0,
            page >= 0,
            resident_in(old(self)@, fd, page),
        ensures
            final(self).wf(),
            final(self)@ == old(self)@.update(
                slot_index(fd as int, page as int),
                slot_cleaned(old(self)@[slot_index(fd as int, page as int)]),
            ),
    {
        let i = index_of(fd, page);
        let s = self.slots[i];
        self.slots.set(i, Slot { content: s.content, valid: s.valid, dirty: false, owner: s.owner });
    }

    /// Puts `content`, clean, in the slot of `(fd, page)`. The slot must hold
    /// no unpersisted page.
    pub fn install(&mut self, fd: RawFd, page: PageID, content: &[u8; PAGE_SIZE])
        requires
            old(self).wf(),
            fd >= 0,
            page >= 0,
            displaced(old(self)@[slot_index(fd as int, page as int)]) is None,
        ensures
            final(self).wf(),
            final(self)@ == old(self)@.update(
                slot_index(fd as int, page as int),
                slot_installed(fd, page, *content),
            ),
    {
        let i = index_of(fd, page);
        self.slots.set(i, Slot { content: *content, valid: true, dirty: false, owner: (fd, page) });
    }

    /// The dirty pages of `fd`, which must be persisted before `fd` leaves
    /// the cache. Scans the block of slots that `fd` can occupy.
    pub fn dirty_pages_of(&self, fd: RawFd) -> (r: Vec<WriteBack>)
        requires
            self.wf(),
            fd >= 0,
        ensures
            write_backs_of(r@, self@, fd),
    {
        proof {
            lemma_sizes();
            lemma_slot_index_bounds(fd as int, 0);
        }
        let start = index_of(fd, 0);
        let end = start + PAGE_SPAN;
        let mut r: Vec<WriteBack> = Vec::new();
        let mut i = start;
        assert(start == block_start(fd as int));
        while i < end
            invariant
                start == block_start(fd as int),
                end == start + PAGE_SPAN,
                end <= BUF_SIZE,
                start <= i <= end,
                fd >= 0,
                self.wf(),
                forall|k1: int, k2: int|
                    0 <= k1 < k2 < r@.len() ==> (#[trigger] r@[k1]).page != (#[trigger] r@[k2]).page,
                forall|k: int|
                    0 <= k < r@.len() ==> {
                        let w = #[trigger] r@[k];
                        &&& w.fd == fd
                        &&& w.page >= 0
                        &&& slot_index(fd as int, w.page as int) < i
                        &&& dirty_of(self@[slot_index(fd as int, w.page as int)], fd)
                        &&& self@[slot_index(fd as int, w.page as int)].owner.1 == w.page
                        &&& self@[slot_index(fd as int, w.page as int)].content == w.data
                    },
                forall|j: int|
                    start <= j < i && dirty_of(#[trigger] self@[j], fd) ==> exists|k: int|
                        0 <= k < r@.len() && (#[trigger] r@[k]).page == self@[j].owner.1,
            decreases end - i,
        {
            let ghost r_before = r@;
            let s = self.slots[i];
            if s.valid && s.owner.0 == fd && s.dirty {
                proof {
                    assert forall|k: int| 0 <= k < r@.len() implies (#[trigger] r@[k]).page != s.owner.1 by {
                        assert(slot_index(fd as int, r@[k].page as int) < i);
                    }
                }
                r.push(WriteBack { fd, page: s.owner.1, data: s.content });
                assert(r@[r@.len() - 1].page == self@[i as int].owner.1);
            }
            assert forall|j: int| start <= j < i + 1 && dirty_of(#[trigger] self@[j], fd) implies exists|k: int|
                    0 <= k < r@.len() && (#[trigger] r@[k]).page == self@[j].owner.1 by {
                if j < i {
                    let k0 = choose|k: int| 0 <= k < r_before.len() && (#[trigger] r_before[k]).page == self@[j].owner.1;
                    assert(r@[k0] == r_before[k0]);
                } else {
                    assert(r@[r@.len() - 1].page == self@[j].owner.1);
                }
            }
            i = i + 1;
        }
        proof {
            assert forall|j: int| 0 <= j < BUF_SIZE && dirty_of(#[trigger] self@[j], fd) implies exists|k: int|
                    0 <= k < r@.len() && (#[trigger] r@[k]).page == self@[j].owner.1 by {
                lemma_slot_index_bounds(fd as int, self@[j].owner.1 as int);
            }
        }
        r
    }

    /// Invalidates every slot owned by `fd`. Its dirty pages are expected to
    /// have been persisted first (see `dirty_pages_of`).
    pub fn evict_all_for(&mut self, fd: RawFd)
        requires
            old(self).wf(),
            fd >= 0,
        ensures
            final(self).wf(),
            final(self)@ == cache_evicted(old(self)@, fd),
    {
        proof {
            lemma_sizes();
            lemma_slot_index_bounds(fd as int, 0);
        }
        let start = index_of(fd, 0);
        let end = start + PAGE_SPAN;
        let mut i = start;
        assert(start == block_start(fd as int));
        while i < end
            invariant
                start == block_start(fd as int),
                end == start + PAGE_SPAN,
                end <= BUF_SIZE,
                start <= i <= end,
                fd >= 0,
                self.wf(),
                old(self).wf(),
                forall|j: int|
                    0 <= j < BUF_SIZE ==> (#[trigger] self@[j]) == if start <= j < i {
                        slot_evicted(old(self)@[j], fd)
                    } else {
                        old(self)@[j]
                    },
            decreases end - i,
        {
            let s = self.slots[i];
            if s.valid && s.owner.0 == fd {
                self.slots.set(i, Slot { content: s.content, valid: false, dirty: s.dirty, owner: s.owner });
            }
            i = i + 1;
        }
        proof {
            assert forall|j: int| 0 <= j < BUF_SIZE implies (#[trigger] self@[j]) == slot_evicted(old(self)@[j], fd) by {
                if old(self)@[j].valid && old(self)@[j].owner.0 == fd {
                    lemma_slot_index_bounds(fd as int, old(self)@[j].owner.1 as int);
                }
            }
            assert(self@ =~= cache_evicted(old(self)@, fd));
        }
    }
}

} // verus!
