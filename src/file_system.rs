use vstd::prelude::*;
use crate::buf_manager::{displaced, write_backs_of, BufManager, WriteBack};
use crate::common::{lemma_slot_index_bounds, slot_index, BUF_SIZE, PAGE_SIZE, PageID, RawFd};
use crate::model::{
    lemma_after_close_wf, lemma_after_create_wf, lemma_after_install_wf, lemma_after_write_back_wf,
    lemma_after_open_wf, lemma_after_remove_wf, lemma_after_write_hit_wf, lemma_empty_wf,
    zero_page, FsError, FsView,
};

verus! {

/// A tracked name, with its handle while it is open.
struct Entry {
    name: String,
    fd: Option<RawFd>,
}

/// The store: a directory of named files and their handles, and the page
/// cache in front of their backing files.
///
/// Each operation that touches backing storage comes in steps: the store
/// decides, the caller performs the storage operation it was told to, and
/// the store records the outcome; nothing is committed before the storage
/// operations it depends on have succeeded, so a failed one leaves the store
/// as it was. Pages handed out as `WriteBack`s are written at
/// `page_offset(page)` of their handle's file.
pub struct FS {
    entries: Vec<Entry>,
    buf_manager: BufManager,
    names: Ghost<Map<Seq<char>, Option<RawFd>>>,
    handles: Ghost<Map<RawFd, Seq<char>>>,
    stored: Ghost<Map<Seq<char>, Map<PageID, Seq<u8>>>>,
}

impl View for FS {
    type V = FsView;

    closed spec fn view(&self) -> FsView {
        FsView {
            names: self.names@,
            handles: self.handles@,
            cache: self.buf_manager@,
            stored: self.stored@,
        }
    }
}

impl FS {
    /// The entries list each tracked name once, with its handle.
    pub closed spec fn entries_match(&self) -> bool {
        &&& forall|i: int, j: int|
            0 <= i < j < self.entries@.len() ==> (#[trigger] self.entries@[i]).name@
                != (#[trigger] self.entries@[j]).name@
        &&& forall|i: int|
            0 <= i < self.entries@.len() ==> {
                &&& self.names@.contains_key((#[trigger] self.entries@[i]).name@)
                &&& self.names@[self.entries@[i].name@] == self.entries@[i].fd
            }
        &&& forall|n: Seq<char>|
            #[trigger] self.names@.contains_key(n) ==> exists|i: int|
                0 <= i < self.entries@.len() && (#[trigger] self.entries@[i]).name@ == n
    }

    pub open spec fn wf(&self) -> bool {
        &&& self@.wf()
        &&& self.entries_match()
    }

    /// An empty store.
    pub fn new() -> (r: FS)
        ensures
            r.wf(),
            r@.names == Map::<Seq<char>, Option<RawFd>>::empty(),
            r@.handles == Map::<RawFd, Seq<char>>::empty(),
            r@.stored == Map::<Seq<char>, Map<PageID, Seq<u8>>>::empty(),
            forall|i: int| 0 <= i < BUF_SIZE ==> !(#[trigger] r@.cache[i]).valid && !r@.cache[i].dirty,
            forall|i: int| 0 <= i < BUF_SIZE ==> (#[trigger] r@.cache[i]).content@ == zero_page(),
    {
        let buf_manager = BufManager::new();
        proof {
            lemma_empty_wf(buf_manager@);
            assert forall|i: int| 0 <= i < BUF_SIZE implies (#[trigger] buf_manager@[i]).content@ == zero_page() by {
                assert(buf_manager@[i].content@ =~= zero_page());
            }
        }
        FS {
            entries: Vec::new(),
            buf_manager,
            names: Ghost(Map::empty()),
            handles: Ghost(Map::empty()),
            stored: Ghost(Map::empty()),
        }
    }

    /// Position of the entry of `name`.
    fn find_name(&self, name: &String) -> (r: Option<usize>)
        requires
            self.wf(),
        ensures
            match r {
                Some(i) => i < self.entries@.len() && self.entries@[i as int].name@ == name@,
                None => !self@.names.contains_key(name@),
            },
    {
        let mut i: usize = 0;
        while i < self.entries.len()
            invariant
                self.wf(),
                i <= self.entries@.len(),
                forall|j: int| 0 <= j < i ==> (#[trigger] self.entries@[j]).name@ != name@,
            decreases self.entries@.len() - i,
        {
            if self.entries[i].name == *name {
                return Some(i);
            }
            i = i + 1;
        }
        None
    }

    /// Position of the entry that has handle `fd`.
    fn find_fd(&self, fd: RawFd) -> (r: Option<usize>)
        requires
            self.wf(),
        ensures
            match r {
                Some(i) => {
                    &&& i < self.entries@.len()
                    &&& self.entries@[i as int].fd == Some(fd)
                    &&& self@.handles.contains_key(fd)
                    &&& self@.handles[fd] == self.entries@[i as int].name@
                },
                None => !self@.handles.contains_key(fd),
            },
    {
        let mut i: usize = 0;
        while i < self.entries.len()
            invariant
                self.wf(),
                i <= self.entries@.len(),
                forall|j: int| 0 <= j < i ==> (#[trigger] self.entries@[j]).fd != Some(fd),
            decreases self.entries@.len() - i,
        {
            match self.entries[i].fd {
                Some(f) => {
                    if f == fd {
                        assert(self@.names[self.entries@[i as int].name@] == Some(fd));
                        return Some(i);
                    }
                },
                None => {},
            }
            i = i + 1;
        }
        proof {
            if self@.handles.contains_key(fd) {
                let n = self@.handles[fd];
                assert(self@.names.contains_key(n));
                let j = choose|j: int| 0 <= j < self.entries@.len() && (#[trigger] self.entries@[j]).name@ == n;
                assert(self.entries@[j].fd == Some(fd));
            }
        }
        None
    }

    /// Whether `fd` is an open handle of the store.
    pub fn is_open(&self, fd: RawFd) -> (r: bool)
        requires
            self.wf(),
        ensures
            r == self@.is_open(fd),
    {
        self.find_fd(fd).is_some()
    }

    /// First step of `create`: fails with `AlreadyExists` when `name` is
    /// tracked. On `Ok` the caller creates an empty backing file and then
    /// calls `finish_create`.
    pub fn begin_create(&self, name: &str) -> (r: Result<(), FsError>)
        requires
            self.wf(),
        ensures
            r == self@.create_result(name@),
    {
        let n = name.to_owned();
        match self.find_name(&n) {
            Some(_) => Err(FsError::AlreadyExists),
            None => Ok(()),
        }
    }

    /// Records that the backing file of `name` was created: `name` is tracked,
    /// closed and empty.
    pub fn finish_create(&mut self, name: &str)
        requires
            old(self).wf(),
            !old(self)@.names.contains_key(name@),
        ensures
            final(self).wf(),
            final(self)@ == old(self)@.after_create(name@),
    {
        proof {
            lemma_after_create_wf(self@, name@);
        }
        let ghost before = self.entries@;
        let n = name.to_owned();
        self.entries.push(Entry { name: n, fd: None });
        self.names = Ghost(self.names@.insert(name@, None));
        self.stored = Ghost(self.stored@.insert(name@, Map::empty()));
        proof {
            assert forall|m: Seq<char>| #[trigger] self.names@.contains_key(m) implies exists|i: int|
                0 <= i < self.entries@.len() && (#[trigger] self.entries@[i]).name@ == m by {
                if m == name@ {
                    assert(self.entries@[before.len() as int].name@ == m);
                } else {
                    assert(old(self).names@.contains_key(m));
                    let j = choose|j: int| 0 <= j < before.len() && (#[trigger] before[j]).name@ == m;
                    assert(self.entries@[j] == before[j]);
                }
            }
            assert forall|i: int, j: int| 0 <= i < j < self.entries@.len() implies (#[trigger] self.entries@[i]).name@
                != (#[trigger] self.entries@[j]).name@ by {
                if j == before.len() {
                    assert(old(self).names@.contains_key(before[i].name@));
                }
            }
        }
    }

    /// First step of `open`: fails with `NotFound` when `name` is not
    /// tracked and with `AlreadyOpen` when it has a handle. On `Ok` the caller
    /// opens the backing file and then calls `finish_open` with the handle.
    pub fn begin_open(&self, name: &str) -> (r: Result<(), FsError>)
        requires
            self.wf(),
        ensures
            r == self@.open_result(name@),
    {
        let n = name.to_owned();
        match self.find_name(&n) {
            None => Err(FsError::NotFound),
            Some(i) => {
                if self.entries[i].fd.is_some() {
                    Err(FsError::AlreadyOpen)
                } else {
                    Ok(())
                }
            },
        }
    }

    /// Records that `name` was opened as `fd`.
    pub fn finish_open(&mut self, name: &str, fd: RawFd)
        requires
            old(self).wf(),
            old(self)@.open_result(name@) == Ok::<(), FsError>(()),
            fd >= 0,
            !old(self)@.handles.contains_key(fd),
        ensures
            final(self).wf(),
            final(self)@ == old(self)@.after_open(name@, fd),
    {
        proof {
            lemma_after_open_wf(self@, name@, fd);
        }
        let n = name.to_owned();
        let ghost before = self.entries@;
        match self.find_name(&n) {
            Some(i) => {
                self.entries.set(i, Entry { name: n, fd: Some(fd) });
                self.names = Ghost(self.names@.insert(name@, Some(fd)));
                self.handles = Ghost(self.handles@.insert(fd, name@));
                proof {
                    assert forall|m: Seq<char>| #[trigger] self.names@.contains_key(m) implies exists|k: int|
                        0 <= k < self.entries@.len() && (#[trigger] self.entries@[k]).name@ == m by {
                        assert(old(self).names@.contains_key(m));
                        let j = choose|j: int| 0 <= j < before.len() && (#[trigger] before[j]).name@ == m;
                        assert(self.entries@[j].name@ == m);
                    }
                    assert forall|a: int, b: int| 0 <= a < b < self.entries@.len() implies (#[trigger] self.entries@[a]).name@
                        != (#[trigger] self.entries@[b]).name@ by {
                        assert(before[a].name@ != before[b].name@);
                    }
                }
            },
            None => {},
        }
    }

    /// First step of `close`: fails with `NotOpen` when `fd` is not an open
    /// handle. Otherwise returns the dirty pages of `fd`, which the caller
    /// writes through `fd` before calling `finish_close`. Nothing changes.
    pub fn begin_close(&self, fd: RawFd) -> (r: Result<Vec<WriteBack>, FsError>)
        requires
            self.wf(),
        ensures
            !self@.is_open(fd) ==> r == Err::<Vec<WriteBack>, FsError>(FsError::NotOpen),
            self@.is_open(fd) ==> r is Ok && write_backs_of(r->Ok_0@, self@.cache, fd),
    {
        if !self.is_open(fd) {
            return Err(FsError::NotOpen);
        }
        Ok(self.buf_manager.dirty_pages_of(fd))
    }

    /// Records that `fd` was closed after its dirty pages were persisted: its
    /// slots leave the cache and its name reverts to closed. The caller then
    /// releases `fd`.
    pub fn finish_close(&mut self, fd: RawFd)
        requires
            old(self).wf(),
            old(self)@.is_open(fd),
        ensures
            final(self).wf(),
            final(self)@ == old(self)@.after_close(fd),
    {
        match self.find_fd(fd) {
            None => {},
            Some(i) => {
                proof {
                    lemma_after_close_wf(self@, fd);
                }
                let ghost before = self.entries@;
                let ghost v = self@;
                self.buf_manager.evict_all_for(fd);
                let n = self.entries[i].name.clone();
                self.entries.set(i, Entry { name: n, fd: None });
                self.names = Ghost(v.after_close(fd).names);
                self.handles = Ghost(v.after_close(fd).handles);
                self.stored = Ghost(v.after_close(fd).stored);
                proof {
                    assert(self@ == v.after_close(fd));
                    assert forall|m: Seq<char>| #[trigger] self.names@.contains_key(m) implies exists|k: int|
                        0 <= k < self.entries@.len() && (#[trigger] self.entries@[k]).name@ == m by {
                        assert(v.names.contains_key(m));
                        let j = choose|j: int| 0 <= j < before.len() && (#[trigger] before[j]).name@ == m;
                        assert(self.entries@[j].name@ == m);
                    }
                    assert forall|a: int, b: int| 0 <= a < b < self.entries@.len() implies (#[trigger] self.entries@[a]).name@
                        != (#[trigger] self.entries@[b]).name@ by {
                        assert(before[a].name@ != before[b].name@);
                    }
                    assert forall|a: int| 0 <= a < self.entries@.len() implies {
                        &&& self.names@.contains_key((#[trigger] self.entries@[a]).name@)
                        &&& self.names@[self.entries@[a].name@] == self.entries@[a].fd
                    } by {
                        if a != i {
                            assert(before[a].name@ != before[i as int].name@);
                        }
                    }
                }
            },
        }
    }

    /// First step of `remove`: fails with `NotFound` when `name` is not
    /// tracked. Otherwise returns the dirty pages of its handle if it is open
    /// (none if it is closed), which the caller writes through that handle
    /// before deleting the backing file and calling `finish_remove`. Nothing
    /// changes, so a failed flush leaves the file tracked.
    pub fn begin_remove(&self, name: &str) -> (r: Result<Vec<WriteBack>, FsError>)
        requires
            self.wf(),
        ensures
            !self@.names.contains_key(name@) ==> r == Err::<Vec<WriteBack>, FsError>(
                FsError::NotFound,
            ),
            self@.names.contains_key(name@) ==> r is Ok && match self@.names[name@] {
                Some(fd) => write_backs_of(r->Ok_0@, self@.cache, fd),
                None => r->Ok_0@.len() == 0,
            },
    {
        let n = name.to_owned();
        match self.find_name(&n) {
            None => Err(FsError::NotFound),
            Some(i) => match self.entries[i].fd {
                Some(fd) => {
                    assert(self@.handles.contains_key(fd));
                    Ok(self.buf_manager.dirty_pages_of(fd))
                },
                None => Ok(Vec::new()),
            },
        }
    }

    /// Records that `name` was removed: the name leaves the directory and, if
    /// it was open, its handle leaves the directory and the cache. The handle
    /// itself is not released.
    pub fn finish_remove(&mut self, name: &str)
        requires
            old(self).wf(),
            old(self)@.names.contains_key(name@),
        ensures
            final(self).wf(),
            final(self)@ == old(self)@.after_remove(name@),
    {
        let n = name.to_owned();
        match self.find_name(&n) {
            None => {},
            Some(i) => {
                proof {
                    lemma_after_remove_wf(self@, name@);
                }
                let ghost before = self.entries@;
                let ghost v = self@;
                match self.entries[i].fd {
                    Some(fd) => {
                        assert(self@.handles.contains_key(fd));
                        self.buf_manager.evict_all_for(fd);
                    },
                    None => {},
                }
                self.entries.remove(i);
                self.names = Ghost(v.after_remove(name@).names);
                self.handles = Ghost(v.after_remove(name@).handles);
                self.stored = Ghost(v.after_remove(name@).stored);
                proof {
                    assert(self@ == v.after_remove(name@));
                    assert forall|m: Seq<char>| #[trigger] self.names@.contains_key(m) implies exists|k: int|
                        0 <= k < self.entries@.len() && (#[trigger] self.entries@[k]).name@ == m by {
                        assert(v.names.contains_key(m));
                        let j = choose|j: int| 0 <= j < before.len() && (#[trigger] before[j]).name@ == m;
                        if j < i {
                            assert(self.entries@[j].name@ == m);
                        } else {
                            assert(j != i);
                            assert(self.entries@[j - 1].name@ == m);
                        }
                    }
                    assert forall|a: int, b: int| 0 <= a < b < self.entries@.len() implies (#[trigger] self.entries@[a]).name@
                        != (#[trigger] self.entries@[b]).name@ by {
                        let a0 = if a < i { a } else { a + 1 };
                        let b0 = if b < i { b } else { b + 1 };
                        assert(self.entries@[a] == before[a0]);
                        assert(self.entries@[b] == before[b0]);
                        assert(before[a0].name@ != before[b0].name@);
                    }
                    assert forall|a: int| 0 <= a < self.entries@.len() implies {
                        &&& self.names@.contains_key((#[trigger] self.entries@[a]).name@)
                        &&& self.names@[self.entries@[a].name@] == self.entries@[a].fd
                    } by {
                        let a0 = if a < i { a } else { a + 1 };
                        assert(self.entries@[a] == before[a0]);
                        assert(before[a0].name@ != before[i as int].name@);
                    }
                }
            },
        }
    }

    /// On a miss of `(fd, page)`: the dirty page its slot holds, if any. The
    /// caller persists it and calls `write_back_done` before the miss can be
    /// finished. Nothing changes.
    pub fn displaced_by(&self, fd: RawFd, page: PageID) -> (r: Option<WriteBack>)
        requires
            self.wf(),
            self@.is_open(fd),
            page >= 0,
        ensures
            r == displaced(self@.cache[slot_index(fd as int, page as int)]),
            r matches Some(w) ==> self@.is_open(w.fd) && self@.resident(w.fd, w.page) && w.page >= 0,
    {
        let r = self.buf_manager.pending_eviction(fd, page);
        proof {
            lemma_slot_index_bounds(fd as int, page as int);
            let s = self@.cache[slot_index(fd as int, page as int)];
            if s.valid {
                lemma_slot_index_bounds(s.owner.0 as int, s.owner.1 as int);
            }
        }
        r
    }

    /// Records that the dirty cached page `(fd, page)` was written to its
    /// backing file: the slot turns clean. No page's content changes.
    pub fn write_back_done(&mut self, fd: RawFd, page: PageID)
        requires
            old(self).wf(),
            old(self)@.is_open(fd),
            page >= 0,
            old(self)@.resident(fd, page),
        ensures
            final(self).wf(),
            final(self)@ == old(self)@.after_write_back(fd, page),
    {
        let ghost v = self@;
        proof {
            lemma_slot_index_bounds(fd as int, page as int);
            lemma_after_write_back_wf(v, fd, page);
        }
        self.buf_manager.mark_clean(fd, page);
        self.stored = Ghost(v.after_write_back(fd, page).stored);
        assert(self@ == v.after_write_back(fd, page));
    }

    /// First step of `read_page`: fails with `NotOpen` when `fd` is not open.
    /// On a hit (`Ok(true)`) `buf` receives the page. On a miss (`Ok(false)`)
    /// the caller reads the page from its backing file into `buf` and then
    /// calls `finish_read`.
    pub fn read_page(&self, fd: RawFd, page: PageID, buf: &mut [u8; PAGE_SIZE]) -> (r: Result<
        bool,
        FsError,
    >)
        requires
            self.wf(),
            page >= 0,
        ensures
            !self@.is_open(fd) ==> r == Err::<bool, FsError>(FsError::NotOpen),
            self@.is_open(fd) ==> r == Ok::<bool, FsError>(self@.resident(fd, page)),
            r == Ok::<bool, FsError>(true) ==> final(buf)@ == self@.page_content(fd, page),
            r != Ok::<bool, FsError>(true) ==> *final(buf) == *old(buf),
    {
        if !self.is_open(fd) {
            return Err(FsError::NotOpen);
        }
        if self.buf_manager.is_cached(fd, page) {
            self.buf_manager.get(fd, page, buf);
            Ok(true)
        } else {
            Ok(false)
        }
    }

    /// Last step of a `read_page` that missed, once the slot holds no
    /// unpersisted page: the first `filled` bytes of `buf` came from the
    /// backing file, and the rest, past its end, read as zeros. The page is
    /// installed clean.
    pub fn finish_read(
        &mut self,
        fd: RawFd,
        page: PageID,
        buf: &mut [u8; PAGE_SIZE],
        filled: usize,
    )
        requires
            old(self).wf(),
            old(self)@.is_open(fd),
            page >= 0,
            !old(self)@.resident(fd, page),
            displaced(old(self)@.cache[slot_index(fd as int, page as int)]) is None,
            filled <= PAGE_SIZE,
        ensures
            final(self).wf(),
            final(buf)@ == old(buf)@.subrange(0, filled as int) + zero_page().subrange(
                filled as int,
                PAGE_SIZE as int,
            ),
            final(self)@ == old(self)@.after_install(fd, page, *final(buf)),
    {
        let mut j: usize = filled;
        while j < PAGE_SIZE
            invariant
                filled <= j <= PAGE_SIZE,
                forall|k: int| 0 <= k < filled ==> buf@[k] == old(buf)@[k],
                forall|k: int| filled <= k < j ==> buf@[k] == 0u8,
            decreases PAGE_SIZE - j,
        {
            buf[j] = 0;
            j = j + 1;
        }
        assert(buf@ =~= old(buf)@.subrange(0, filled as int) + zero_page().subrange(
            filled as int,
            PAGE_SIZE as int,
        ));
        self.install(fd, page, buf);
    }

    /// First step of `write_page`: fails with `NotOpen` when `fd` is not
    /// open. On a hit (`Ok(true)`) the cached page takes the bytes and turns
    /// dirty, and nothing is left to do. On a miss (`Ok(false)`) nothing
    /// changes; the caller writes `buf` to the backing file, persists the
    /// page `displaced_by` reports (if any) and records it with
    /// `write_back_done`, and then calls `finish_write`.
    pub fn write_page(&mut self, fd: RawFd, page: PageID, buf: &[u8; PAGE_SIZE]) -> (r: Result<
        bool,
        FsError,
    >)
        requires
            old(self).wf(),
            page >= 0,
        ensures
            final(self).wf(),
            !old(self)@.is_open(fd) ==> r == Err::<bool, FsError>(FsError::NotOpen),
            old(self)@.is_open(fd) ==> r == Ok::<bool, FsError>(old(self)@.resident(fd, page)),
            r == Ok::<bool, FsError>(true) ==> final(self)@ == old(self)@.after_write(fd, page, *buf),
            r != Ok::<bool, FsError>(true) ==> final(self)@ == old(self)@,
    {
        if !self.is_open(fd) {
            return Err(FsError::NotOpen);
        }
        if self.buf_manager.is_cached(fd, page) {
            proof {
                lemma_after_write_hit_wf(self@, fd, page, *buf);
            }
            self.buf_manager.update(fd, page, buf);
            Ok(true)
        } else {
            Ok(false)
        }
    }

    /// Last step of a `write_page` that missed, once `buf` was written to the
    /// backing file and the slot holds no unpersisted page: the page is
    /// installed clean.
    pub fn finish_write(&mut self, fd: RawFd, page: PageID, buf: &[u8; PAGE_SIZE])
        requires
            old(self).wf(),
            old(self)@.is_open(fd),
            page >= 0,
            !old(self)@.resident(fd, page),
            displaced(old(self)@.cache[slot_index(fd as int, page as int)]) is None,
        ensures
            final(self).wf(),
            final(self)@ == old(self)@.after_write(fd, page, *buf),
    {
        self.install(fd, page, buf);
    }

    fn install(&mut self, fd: RawFd, page: PageID, buf: &[u8; PAGE_SIZE])
        requires
            old(self).wf(),
            old(self)@.is_open(fd),
            page >= 0,
            !old(self)@.resident(fd, page),
            displaced(old(self)@.cache[slot_index(fd as int, page as int)]) is None,
        ensures
            final(self).wf(),
            final(self)@ == old(self)@.after_install(fd, page, *buf),
    {
        let ghost v = self@;
        proof {
            lemma_after_install_wf(v, fd, page, *buf);
        }
        self.buf_manager.install(fd, page, buf);
        self.stored = Ghost(v.after_install(fd, page, *buf).stored);
        assert(self@ == v.after_install(fd, page, *buf));
    }
}

} // verus!
