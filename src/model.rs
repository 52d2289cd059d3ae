use vstd::prelude::*;
use crate::buf_manager::{
    cache_evicted, dirty_of, displaced, resident_in, slot_cleaned, slot_evicted, slot_installed,
    slot_placed, slot_written, Slot,
};
use crate::common::{lemma_slot_index_bounds, slot_index, BUF_SIZE, PAGE_SIZE, PageID, RawFd};

verus! {

/// Why an operation of the store failed.
#[derive(PartialEq, Eq, Structural, Clone, Copy, Debug)]
pub enum FsError {
    /// `create` on a name that is already tracked.
    AlreadyExists,
    /// `open` or `remove` on a name that is not tracked.
    NotFound,
    /// `open` on a name that already has a handle.
    AlreadyOpen,
    /// An operation on a handle that is not open.
    NotOpen,
    /// The backing storage failed, with its error number.
    StorageIO(i32),
}

/// A page that was never written reads as zeros.
pub open spec fn zero_page() -> Seq<u8> {
    Seq::new(PAGE_SIZE as nat, |i: int| 0u8)
}

/// The slot of `(fd, page)` holds a dirty copy of that page.
pub open spec fn flush_hit(cache: Seq<Slot>, fd: RawFd, page: PageID) -> bool {
    let s = cache[slot_index(fd as int, page as int)];
    page >= 0 && dirty_of(s, fd) && s.owner.1 == page
}

/// The pages of a file once the dirty cached pages of `fd` are written to it.
pub open spec fn flushed(file: Map<PageID, Seq<u8>>, cache: Seq<Slot>, fd: RawFd) -> Map<
    PageID,
    Seq<u8>,
> {
    Map::new(
        |p: PageID| file.contains_key(p) || flush_hit(cache, fd, p),
        |p: PageID|
            if flush_hit(cache, fd, p) {
                cache[slot_index(fd as int, p as int)].content@
            } else {
                file[p]
            },
    )
}

/// The state of the store as a mathematical value.
pub struct FsView {
    /// Each tracked name, with its handle while it is open.
    pub names: Map<Seq<char>, Option<RawFd>>,
    /// Each open handle, with its name.
    pub handles: Map<RawFd, Seq<char>>,
    /// The cache slots.
    pub cache: Seq<Slot>,
    /// For each tracked name, the pages its backing file holds once every
    /// write the store has handed out is done; absent pages are zeros.
    pub stored: Map<Seq<char>, Map<PageID, Seq<u8>>>,
}

impl FsView {
    pub open spec fn is_open(&self, fd: RawFd) -> bool {
        self.handles.contains_key(fd)
    }

    pub open spec fn resident(&self, fd: RawFd, page: PageID) -> bool {
        resident_in(self.cache, fd, page)
    }

    /// What the backing file of `name` holds at page `page`.
    pub open spec fn stored_page(&self, name: Seq<char>, page: PageID) -> Seq<u8> {
        if self.stored[name].contains_key(page) {
            self.stored[name][page]
        } else {
            zero_page()
        }
    }

    /// The current content of page `page` of the open handle `fd`: the cached
    /// copy if there is one, else what its backing file holds.
    pub open spec fn page_content(&self, fd: RawFd, page: PageID) -> Seq<u8> {
        if self.resident(fd, page) {
            self.cache[slot_index(fd as int, page as int)].content@
        } else {
            self.stored_page(self.handles[fd], page)
        }
    }

    /// The directory's two maps agree, names and handles correspond one to
    /// one, every valid slot belongs to an open handle and sits where it maps,
    /// and a clean slot holds what the backing file holds.
    pub open spec fn wf(&self) -> bool {
        &&& self.cache.len() == BUF_SIZE
        &&& forall|i: int|
            0 <= i < BUF_SIZE && (#[trigger] self.cache[i]).valid ==> {
                &&& slot_placed(self.cache[i], i)
                &&& self.handles.contains_key(self.cache[i].owner.0)
            }
        &&& forall|i: int|
            0 <= i < BUF_SIZE && (#[trigger] self.cache[i]).valid && !self.cache[i].dirty
                ==> self.cache[i].content@ == self.stored_page(
                self.handles[self.cache[i].owner.0],
                self.cache[i].owner.1,
            )
        &&& forall|h: RawFd|
            #[trigger] self.handles.contains_key(h) ==> {
                &&& h >= 0
                &&& self.names.contains_key(self.handles[h])
                &&& self.names[self.handles[h]] == Some(h)
            }
        &&& forall|n: Seq<char>|
            #[trigger] self.names.contains_key(n) && self.names[n] is Some ==> {
                &&& self.handles.contains_key(self.names[n]->0)
                &&& self.handles[self.names[n]->0] == n
            }
        &&& self.names.dom() == self.stored.dom()
    }

    pub open spec fn create_result(&self, name: Seq<char>) -> Result<(), FsError> {
        if self.names.contains_key(name) {
            Err(FsError::AlreadyExists)
        } else {
            Ok(())
        }
    }

    pub open spec fn open_result(&self, name: Seq<char>) -> Result<(), FsError> {
        if !self.names.contains_key(name) {
            Err(FsError::NotFound)
        } else if self.names[name] is Some {
            Err(FsError::AlreadyOpen)
        } else {
            Ok(())
        }
    }

    pub open spec fn close_result(&self, fd: RawFd) -> Result<(), FsError> {
        if self.handles.contains_key(fd) {
            Ok(())
        } else {
            Err(FsError::NotOpen)
        }
    }

    pub open spec fn remove_result(&self, name: Seq<char>) -> Result<(), FsError> {
        if self.names.contains_key(name) {
            Ok(())
        } else {
            Err(FsError::NotFound)
        }
    }

    /// A new empty, closed file named `name`.
    pub open spec fn after_create(self, name: Seq<char>) -> FsView {
        FsView {
            names: self.names.insert(name, None),
            stored: self.stored.insert(name, Map::empty()),
            ..self
        }
    }

    /// `name` opened as `fd`.
    pub open spec fn after_open(self, name: Seq<char>, fd: RawFd) -> FsView {
        FsView {
            names: self.names.insert(name, Some(fd)),
            handles: self.handles.insert(fd, name),
            ..self
        }
    }

    /// `fd` closed: its dirty pages written to its file, its slots invalidated.
    pub open spec fn after_close(self, fd: RawFd) -> FsView {
        let n = self.handles[fd];
        FsView {
            names: self.names.insert(n, None),
            handles: self.handles.remove(fd),
            cache: cache_evicted(self.cache, fd),
            stored: self.stored.insert(n, flushed(self.stored[n], self.cache, fd)),
        }
    }

    /// `name` removed, with its backing file; an open handle of it leaves the
    /// directory and the cache.
    pub open spec fn after_remove(self, name: Seq<char>) -> FsView {
        match self.names[name] {
            Some(fd) => FsView {
                names: self.names.remove(name),
                handles: self.handles.remove(fd),
                cache: cache_evicted(self.cache, fd),
                stored: self.stored.remove(name),
            },
            None => FsView {
                names: self.names.remove(name),
                stored: self.stored.remove(name),
                ..self
            },
        }
    }

    /// A write that hits the cache: the slot takes the bytes and turns dirty.
    pub open spec fn after_write_hit(self, fd: RawFd, page: PageID, data: [u8; PAGE_SIZE]) -> FsView {
        let i = slot_index(fd as int, page as int);
        FsView { cache: self.cache.update(i, slot_written(self.cache[i], data)), ..self }
    }

    /// The stored pages once the slot `s` that is about to be reused has been
    /// written back, if it was dirty.
    pub open spec fn stored_after_write_back(self, s: Slot) -> Map<Seq<char>, Map<PageID, Seq<u8>>> {
        match displaced(s) {
            Some(w) => {
                let n = self.handles[w.fd];
                self.stored.insert(n, self.stored[n].insert(w.page, w.data@))
            },
            None => self.stored,
        }
    }

    /// A page that missed, now known to hold `data` in its file (it was read
    /// from there or written there), installed clean in its slot after the
    /// slot's dirty page was written back.
    pub open spec fn after_install(self, fd: RawFd, page: PageID, data: [u8; PAGE_SIZE]) -> FsView {
        let i = slot_index(fd as int, page as int);
        let st = self.stored_after_write_back(self.cache[i]);
        let n = self.handles[fd];
        FsView {
            cache: self.cache.update(i, slot_installed(fd, page, data)),
            stored: st.insert(n, st[n].insert(page, data@)),
            ..self
        }
    }

    /// The dirty page `(fd, page)` has been persisted: its file holds the
    /// cached bytes and the slot turns clean.
    pub open spec fn after_write_back(self, fd: RawFd, page: PageID) -> FsView {
        let i = slot_index(fd as int, page as int);
        let n = self.handles[fd];
        FsView {
            cache: self.cache.update(i, slot_cleaned(self.cache[i])),
            stored: self.stored.insert(n, self.stored[n].insert(page, self.cache[i].content@)),
            ..self
        }
    }

    /// `write_page`, hit or miss.
    pub open spec fn after_write(self, fd: RawFd, page: PageID, data: [u8; PAGE_SIZE]) -> FsView {
        if self.resident(fd, page) {
            self.after_write_hit(fd, page, data)
        } else {
            self.after_install(fd, page, data)
        }
    }
}

/// An empty store.
pub open spec fn empty_view(cache: Seq<Slot>) -> FsView {
    FsView { names: Map::empty(), handles: Map::empty(), cache, stored: Map::empty() }
}

pub proof fn lemma_empty_wf(cache: Seq<Slot>)
    requires
        cache.len() == BUF_SIZE,
        forall|i: int| 0 <= i < BUF_SIZE ==> !(#[trigger] cache[i]).valid,
    ensures
        empty_view(cache).wf(),
{
    assert(empty_view(cache).names.dom() =~= empty_view(cache).stored.dom());
}

/// Names and handles correspond one to one: a name has at most one handle.
pub proof fn lemma_one_handle_per_name(s: FsView, h1: RawFd, h2: RawFd)
    requires
        s.wf(),
        s.handles.contains_key(h1),
        s.handles.contains_key(h2),
        s.handles[h1] == s.handles[h2],
    ensures
        h1 == h2,
{
    assert(s.names[s.handles[h1]] == Some(h1));
    assert(s.names[s.handles[h2]] == Some(h2));
}

pub proof fn lemma_after_create_wf(s: FsView, name: Seq<char>)
    requires
        s.wf(),
        !s.names.contains_key(name),
    ensures
        s.after_create(name).wf(),
{
    let t = s.after_create(name);
    assert(t.names.dom() =~= t.stored.dom());
    assert forall|i: int|
        0 <= i < BUF_SIZE && (#[trigger] t.cache[i]).valid && !t.cache[i].dirty implies t.cache[i].content@
        == t.stored_page(t.handles[t.cache[i].owner.0], t.cache[i].owner.1) by {
        assert(s.names.contains_key(s.handles[s.cache[i].owner.0]));
    }
}

pub proof fn lemma_after_open_wf(s: FsView, name: Seq<char>, fd: RawFd)
    requires
        s.wf(),
        s.open_result(name) == Ok::<(), FsError>(()),
        fd >= 0,
        !s.handles.contains_key(fd),
    ensures
        s.after_open(name, fd).wf(),
{
    let t = s.after_open(name, fd);
    assert(t.names.dom() =~= t.stored.dom());
    assert forall|h: RawFd| #[trigger] t.handles.contains_key(h) implies {
        &&& h >= 0
        &&& t.names.contains_key(t.handles[h])
        &&& t.names[t.handles[h]] == Some(h)
    } by {
        if h != fd {
            assert(s.names[s.handles[h]] == Some(h));
        }
    }
    assert forall|n: Seq<char>| #[trigger] t.names.contains_key(n) && t.names[n] is Some implies {
        &&& t.handles.contains_key(t.names[n]->0)
        &&& t.handles[t.names[n]->0] == n
    } by {
        if n != name {
            assert(s.names.contains_key(n));
            assert(s.handles.contains_key(s.names[n]->0));
        }
    }
}

pub proof fn lemma_after_close_wf(s: FsView, fd: RawFd)
    requires
        s.wf(),
        s.is_open(fd),
    ensures
        s.after_close(fd).wf(),
{
    let t = s.after_close(fd);
    let n = s.handles[fd];
    assert(t.names.dom() =~= t.stored.dom());
    assert forall|i: int| 0 <= i < BUF_SIZE && (#[trigger] t.cache[i]).valid implies {
        &&& slot_placed(t.cache[i], i)
        &&& t.handles.contains_key(t.cache[i].owner.0)
    } by {
        assert(t.cache[i] == slot_evicted(s.cache[i], fd));
    }
    assert forall|i: int|
        0 <= i < BUF_SIZE && (#[trigger] t.cache[i]).valid && !t.cache[i].dirty implies t.cache[i].content@
        == t.stored_page(t.handles[t.cache[i].owner.0], t.cache[i].owner.1) by {
        assert(t.cache[i] == slot_evicted(s.cache[i], fd));
        let h = s.cache[i].owner.0;
        if s.handles[h] == n {
            lemma_one_handle_per_name(s, h, fd);
        }
    }
    assert forall|h: RawFd| #[trigger] t.handles.contains_key(h) implies {
        &&& h >= 0
        &&& t.names.contains_key(t.handles[h])
        &&& t.names[t.handles[h]] == Some(h)
    } by {
        assert(s.names[s.handles[h]] == Some(h));
        if s.handles[h] == n {
            lemma_one_handle_per_name(s, h, fd);
        }
    }
    assert forall|m: Seq<char>| #[trigger] t.names.contains_key(m) && t.names[m] is Some implies {
        &&& t.handles.contains_key(t.names[m]->0)
        &&& t.handles[t.names[m]->0] == m
    } by {
        assert(s.names.contains_key(m));
        assert(s.handles.contains_key(s.names[m]->0));
    }
}

pub proof fn lemma_after_remove_wf(s: FsView, name: Seq<char>)
    requires
        s.wf(),
        s.names.contains_key(name),
    ensures
        s.after_remove(name).wf(),
{
    let t = s.after_remove(name);
    assert(t.names.dom() =~= t.stored.dom());
    match s.names[name] {
        Some(fd) => {
            assert(s.handles.contains_key(fd));
            assert forall|i: int| 0 <= i < BUF_SIZE && (#[trigger] t.cache[i]).valid implies {
                &&& slot_placed(t.cache[i], i)
                &&& t.handles.contains_key(t.cache[i].owner.0)
            } by {
                assert(t.cache[i] == slot_evicted(s.cache[i], fd));
            }
            assert forall|i: int|
                0 <= i < BUF_SIZE && (#[trigger] t.cache[i]).valid && !t.cache[i].dirty implies t.cache[i].content@
                == t.stored_page(t.handles[t.cache[i].owner.0], t.cache[i].owner.1) by {
                assert(t.cache[i] == slot_evicted(s.cache[i], fd));
                let h = s.cache[i].owner.0;
                if s.handles[h] == name {
                    lemma_one_handle_per_name(s, h, fd);
                }
            }
            assert forall|h: RawFd| #[trigger] t.handles.contains_key(h) implies {
                &&& h >= 0
                &&& t.names.contains_key(t.handles[h])
                &&& t.names[t.handles[h]] == Some(h)
            } by {
                assert(s.names[s.handles[h]] == Some(h));
                if s.handles[h] == name {
                    lemma_one_handle_per_name(s, h, fd);
                }
            }
            assert forall|m: Seq<char>| #[trigger] t.names.contains_key(m) && t.names[m] is Some implies {
                &&& t.handles.contains_key(t.names[m]->0)
                &&& t.handles[t.names[m]->0] == m
            } by {
                assert(s.names.contains_key(m));
                assert(s.handles.contains_key(s.names[m]->0));
            }
        },
        None => {
            assert forall|i: int| 0 <= i < BUF_SIZE && (#[trigger] t.cache[i]).valid implies {
                &&& slot_placed(t.cache[i], i)
                &&& t.handles.contains_key(t.cache[i].owner.0)
            } by {}
            assert forall|i: int|
                0 <= i < BUF_SIZE && (#[trigger] t.cache[i]).valid && !t.cache[i].dirty implies t.cache[i].content@
                == t.stored_page(t.handles[t.cache[i].owner.0], t.cache[i].owner.1) by {
                assert(s.names[s.handles[s.cache[i].owner.0]] == Some(s.cache[i].owner.0));
            }
            assert forall|h: RawFd| #[trigger] t.handles.contains_key(h) implies {
                &&& h >= 0
                &&& t.names.contains_key(t.handles[h])
                &&& t.names[t.handles[h]] == Some(h)
            } by {
                assert(s.names[s.handles[h]] == Some(h));
            }
            assert forall|m: Seq<char>| #[trigger] t.names.contains_key(m) && t.names[m] is Some implies {
                &&& t.handles.contains_key(t.names[m]->0)
                &&& t.handles[t.names[m]->0] == m
            } by {
                assert(s.names.contains_key(m));
            }
        },
    }
}

pub proof fn lemma_after_write_hit_wf(s: FsView, fd: RawFd, page: PageID, data: [u8; PAGE_SIZE])
    requires
        s.wf(),
        s.is_open(fd),
        page >= 0,
        s.resident(fd, page),
    ensures
        s.after_write_hit(fd, page, data).wf(),
{
    let t = s.after_write_hit(fd, page, data);
    lemma_slot_index_bounds(fd as int, page as int);
    assert forall|i: int| 0 <= i < BUF_SIZE && (#[trigger] t.cache[i]).valid implies {
        &&& slot_placed(t.cache[i], i)
        &&& t.handles.contains_key(t.cache[i].owner.0)
    } by {
        assert(s.cache[i].valid);
    }
    assert forall|i: int|
        0 <= i < BUF_SIZE && (#[trigger] t.cache[i]).valid && !t.cache[i].dirty implies t.cache[i].content@
        == t.stored_page(t.handles[t.cache[i].owner.0], t.cache[i].owner.1) by {
        assert(s.cache[i].valid);
    }
}

/// Installing `(fd, page)` changes the stored pages only at that page of
/// `fd`'s file and at the page written back from the slot.
pub proof fn lemma_install_stored(
    s: FsView,
    fd: RawFd,
    page: PageID,
    data: [u8; PAGE_SIZE],
    h: RawFd,
    q: PageID,
)
    requires
        s.wf(),
        s.is_open(fd),
        s.is_open(h),
        page >= 0,
        q >= 0,
        !s.resident(fd, page),
        (h, q) != (fd, page),
        !(s.cache[slot_index(fd as int, page as int)].valid && s.cache[slot_index(
            fd as int,
            page as int,
        )].owner == (h, q)),
    ensures
        s.after_install(fd, page, data).stored_page(s.handles[h], q) == s.stored_page(
            s.handles[h],
            q,
        ),
{
    let i = slot_index(fd as int, page as int);
    lemma_slot_index_bounds(fd as int, page as int);
    let old_slot = s.cache[i];
    if s.handles[h] == s.handles[fd] {
        lemma_one_handle_per_name(s, h, fd);
    }
    if old_slot.valid && old_slot.dirty {
        assert(s.handles.contains_key(old_slot.owner.0));
        if s.handles[h] == s.handles[old_slot.owner.0] {
            lemma_one_handle_per_name(s, h, old_slot.owner.0);
        }
    }
}

pub proof fn lemma_after_install_wf(s: FsView, fd: RawFd, page: PageID, data: [u8; PAGE_SIZE])
    requires
        s.wf(),
        s.is_open(fd),
        page >= 0,
        !s.resident(fd, page),
    ensures
        s.after_install(fd, page, data).wf(),
{
    let t = s.after_install(fd, page, data);
    let k = slot_index(fd as int, page as int);
    lemma_slot_index_bounds(fd as int, page as int);
    assert(t.names.dom() =~= t.stored.dom()) by {
        let old_slot = s.cache[k];
        if old_slot.valid && old_slot.dirty {
            assert(s.handles.contains_key(old_slot.owner.0));
        }
    }
    assert forall|i: int| 0 <= i < BUF_SIZE && (#[trigger] t.cache[i]).valid implies {
        &&& slot_placed(t.cache[i], i)
        &&& t.handles.contains_key(t.cache[i].owner.0)
    } by {
        if i != k {
            assert(s.cache[i].valid);
        }
    }
    assert forall|i: int|
        0 <= i < BUF_SIZE && (#[trigger] t.cache[i]).valid && !t.cache[i].dirty implies t.cache[i].content@
        == t.stored_page(t.handles[t.cache[i].owner.0], t.cache[i].owner.1) by {
        if i != k {
            let o = s.cache[i].owner;
            assert(s.cache[i].valid);
            assert(slot_placed(s.cache[i], i));
            lemma_install_stored(s, fd, page, data, o.0, o.1);
        }
    }
}

pub proof fn lemma_after_write_back_wf(s: FsView, fd: RawFd, page: PageID)
    requires
        s.wf(),
        s.is_open(fd),
        page >= 0,
        s.resident(fd, page),
    ensures
        s.after_write_back(fd, page).wf(),
        forall|h: RawFd, q: PageID|
            s.is_open(h) && q >= 0 ==> #[trigger] s.after_write_back(fd, page).page_content(h, q)
                == s.page_content(h, q),
{
    let t = s.after_write_back(fd, page);
    let k = slot_index(fd as int, page as int);
    lemma_slot_index_bounds(fd as int, page as int);
    assert(s.cache[k].valid);
    assert(s.handles.contains_key(fd));
    assert(t.names.dom() =~= t.stored.dom());
    assert forall|i: int| 0 <= i < BUF_SIZE && (#[trigger] t.cache[i]).valid implies {
        &&& slot_placed(t.cache[i], i)
        &&& t.handles.contains_key(t.cache[i].owner.0)
    } by {
        assert(s.cache[i].valid);
    }
    assert forall|i: int|
        0 <= i < BUF_SIZE && (#[trigger] t.cache[i]).valid && !t.cache[i].dirty implies t.cache[i].content@
        == t.stored_page(t.handles[t.cache[i].owner.0], t.cache[i].owner.1) by {
        if i != k {
            let o = s.cache[i].owner;
            assert(s.cache[i].valid);
            if s.handles[o.0] == s.handles[fd] {
                lemma_one_handle_per_name(s, o.0, fd);
            }
        }
    }
    assert forall|h: RawFd, q: PageID| s.is_open(h) && q >= 0 implies #[trigger] t.page_content(h, q)
        == s.page_content(h, q) by {
        lemma_slot_index_bounds(h as int, q as int);
        if s.handles[h] == s.handles[fd] {
            lemma_one_handle_per_name(s, h, fd);
        }
    }
}

/// Persisting the dirty page a slot holds and then installing a new page
/// there is the install step with its write-back.
pub proof fn lemma_write_back_then_install(
    s: FsView,
    fd: RawFd,
    page: PageID,
    data: [u8; PAGE_SIZE],
)
    requires
        s.wf(),
        s.is_open(fd),
        page >= 0,
        displaced(s.cache[slot_index(fd as int, page as int)]) is Some,
    ensures
        ({
            let w = displaced(s.cache[slot_index(fd as int, page as int)])->Some_0;
            &&& s.resident(w.fd, w.page)
            &&& w.page >= 0
            &&& slot_index(w.fd as int, w.page as int) == slot_index(fd as int, page as int)
            &&& displaced(s.after_write_back(w.fd, w.page).cache[slot_index(fd as int, page as int)]) is None
            &&& s.after_write_back(w.fd, w.page).after_install(fd, page, data) == s.after_install(
                fd,
                page,
                data,
            )
        }),
{
    let k = slot_index(fd as int, page as int);
    lemma_slot_index_bounds(fd as int, page as int);
    let w = displaced(s.cache[k])->Some_0;
    assert(s.cache[k].valid);
    let t = s.after_write_back(w.fd, w.page);
    let a = t.after_install(fd, page, data);
    let b = s.after_install(fd, page, data);
    assert(a.cache =~= b.cache);
    assert(a.stored =~= b.stored);
}

pub proof fn lemma_after_write_wf(s: FsView, fd: RawFd, page: PageID, data: [u8; PAGE_SIZE])
    requires
        s.wf(),
        s.is_open(fd),
        page >= 0,
    ensures
        s.after_write(fd, page, data).wf(),
{
    if s.resident(fd, page) {
        lemma_after_write_hit_wf(s, fd, page, data);
    } else {
        lemma_after_install_wf(s, fd, page, data);
    }
}

/// Opening a name that was just opened, with no close between, fails with
/// `AlreadyOpen`, and the name keeps the one handle it got.
pub proof fn lemma_open_twice(s: FsView, name: Seq<char>, fd: RawFd)
    requires
        s.wf(),
        s.open_result(name) == Ok::<(), FsError>(()),
        fd >= 0,
        !s.handles.contains_key(fd),
    ensures
        s.after_open(name, fd).wf(),
        s.after_open(name, fd).open_result(name) == Err::<(), FsError>(FsError::AlreadyOpen),
        s.after_open(name, fd).names[name] == Some(fd),
        forall|h: RawFd|
            #[trigger] s.after_open(name, fd).handles.contains_key(h) && s.after_open(
                name,
                fd,
            ).handles[h] == name ==> h == fd,
{
    lemma_after_open_wf(s, name, fd);
    let t = s.after_open(name, fd);
    assert forall|h: RawFd| #[trigger] t.handles.contains_key(h) && t.handles[h] == name implies h
        == fd by {
        lemma_one_handle_per_name(t, h, fd);
    }
}

/// After `write_page(fd, page, data)` the page reads back as `data`.
pub proof fn lemma_write_then_read(s: FsView, fd: RawFd, page: PageID, data: [u8; PAGE_SIZE])
    requires
        s.wf(),
        s.is_open(fd),
        page >= 0,
    ensures
        s.after_write(fd, page, data).wf(),
        s.after_write(fd, page, data).resident(fd, page),
        s.after_write(fd, page, data).page_content(fd, page) == data@,
{
    lemma_after_write_wf(s, fd, page, data);
    lemma_slot_index_bounds(fd as int, page as int);
}

/// Writing page `page2` of `fd2`, or bringing it in from storage after a
/// miss, leaves the content of every other page as it was, even when the two
/// share a slot.
pub proof fn lemma_other_page_kept(
    s: FsView,
    fd: RawFd,
    page: PageID,
    fd2: RawFd,
    page2: PageID,
    data: [u8; PAGE_SIZE],
)
    requires
        s.wf(),
        s.is_open(fd),
        s.is_open(fd2),
        page >= 0,
        page2 >= 0,
        (fd2, page2) != (fd, page),
    ensures
        s.after_write(fd2, page2, data).page_content(fd, page) == s.page_content(fd, page),
        !s.resident(fd2, page2) ==> s.after_install(fd2, page2, data).page_content(fd, page)
            == s.page_content(fd, page),
{
    let i = slot_index(fd as int, page as int);
    let k = slot_index(fd2 as int, page2 as int);
    lemma_slot_index_bounds(fd as int, page as int);
    lemma_slot_index_bounds(fd2 as int, page2 as int);
    if !s.resident(fd2, page2) {
        let t = s.after_install(fd2, page2, data);
        if i == k {
            if s.resident(fd, page) {
                let old_slot = s.cache[i];
                if !old_slot.dirty {
                    assert(old_slot.content@ == s.stored_page(s.handles[fd], page));
                }
                if s.handles[fd] == s.handles[fd2] {
                    lemma_one_handle_per_name(s, fd, fd2);
                }
            } else {
                lemma_install_stored(s, fd2, page2, data, fd, page);
            }
        } else {
            if !s.resident(fd, page) {
                lemma_install_stored(s, fd2, page2, data, fd, page);
            }
        }
    }
}

/// Closing `fd` and opening its name again, as `fd2`, gives every page the
/// content it had through `fd`: the dirty pages were written back on close.
pub proof fn lemma_flush_on_close(s: FsView, fd: RawFd, fd2: RawFd, page: PageID)
    requires
        s.wf(),
        s.is_open(fd),
        page >= 0,
        fd2 >= 0,
        !s.after_close(fd).handles.contains_key(fd2),
    ensures
        s.after_close(fd).open_result(s.handles[fd]) == Ok::<(), FsError>(()),
        s.after_close(fd).after_open(s.handles[fd], fd2).wf(),
        !s.after_close(fd).after_open(s.handles[fd], fd2).resident(fd2, page),
        s.after_close(fd).after_open(s.handles[fd], fd2).page_content(fd2, page)
            == s.page_content(fd, page),
{
    let n = s.handles[fd];
    let t = s.after_close(fd);
    lemma_after_close_wf(s, fd);
    lemma_after_open_wf(t, n, fd2);
    let u = t.after_open(n, fd2);
    let i = slot_index(fd as int, page as int);
    lemma_slot_index_bounds(fd as int, page as int);
    lemma_slot_index_bounds(fd2 as int, page as int);
    let j = slot_index(fd2 as int, page as int);
    if u.cache[j].valid {
        assert(t.cache[j].valid);
    }
    if s.resident(fd, page) && !s.cache[i].dirty {
        assert(s.cache[i].content@ == s.stored_page(n, page));
    }
}

/// When a write of `(fd2, page2)` reuses the slot of the dirty page
/// `(fd, page)`, that page's bytes reach its file before the slot is reused,
/// and the page still reads as before.
pub proof fn lemma_eviction_persists(
    s: FsView,
    fd: RawFd,
    page: PageID,
    fd2: RawFd,
    page2: PageID,
    data: [u8; PAGE_SIZE],
)
    requires
        s.wf(),
        s.is_open(fd),
        s.is_open(fd2),
        page >= 0,
        page2 >= 0,
        (fd2, page2) != (fd, page),
        slot_index(fd2 as int, page2 as int) == slot_index(fd as int, page as int),
        s.resident(fd, page),
        s.cache[slot_index(fd as int, page as int)].dirty,
    ensures
        !s.after_write(fd2, page2, data).resident(fd, page),
        s.after_write(fd2, page2, data).stored_page(s.handles[fd], page) == s.cache[slot_index(
            fd as int,
            page as int,
        )].content@,
        s.after_write(fd2, page2, data).page_content(fd, page) == s.page_content(fd, page),
{
    lemma_slot_index_bounds(fd as int, page as int);
    lemma_other_page_kept(s, fd, page, fd2, page2, data);
    if s.handles[fd] == s.handles[fd2] {
        lemma_one_handle_per_name(s, fd, fd2);
    }
}

/// Creating a name, opening it, removing it, creating it again and opening
/// it again all succeed, and the new file reads as zeros on every page,
/// whatever handle numbers come back.
pub proof fn lemma_recreate_is_fresh(
    s: FsView,
    name: Seq<char>,
    fd1: RawFd,
    fd2: RawFd,
    page: PageID,
)
    requires
        s.wf(),
        !s.names.contains_key(name),
        fd1 >= 0,
        fd2 >= 0,
        !s.handles.contains_key(fd1),
        !s.handles.contains_key(fd2),
        page >= 0,
    ensures
        s.create_result(name) == Ok::<(), FsError>(()),
        s.after_create(name).open_result(name) == Ok::<(), FsError>(()),
        s.after_create(name).after_open(name, fd1).remove_result(name) == Ok::<(), FsError>(()),
        s.after_create(name).after_open(name, fd1).after_remove(name).create_result(name) == Ok::<
            (),
            FsError,
        >(()),
        s.after_create(name).after_open(name, fd1).after_remove(name).after_create(
            name,
        ).open_result(name) == Ok::<(), FsError>(()),
        s.after_create(name).after_open(name, fd1).after_remove(name).after_create(
            name,
        ).after_open(name, fd2).wf(),
        s.after_create(name).after_open(name, fd1).after_remove(name).after_create(
            name,
        ).after_open(name, fd2).page_content(fd2, page) == zero_page(),
{
    let t1 = s.after_create(name);
    lemma_after_create_wf(s, name);
    let t2 = t1.after_open(name, fd1);
    lemma_after_open_wf(t1, name, fd1);
    let t3 = t2.after_remove(name);
    lemma_after_remove_wf(t2, name);
    assert(t3.names =~= s.names);
    assert(t3.handles =~= s.handles);
    let t4 = t3.after_create(name);
    lemma_after_create_wf(t3, name);
    let t5 = t4.after_open(name, fd2);
    lemma_after_open_wf(t4, name, fd2);
    lemma_slot_index_bounds(fd2 as int, page as int);
    let j = slot_index(fd2 as int, page as int);
    if t5.cache[j].valid {
        assert(t4.cache[j].valid);
    }
}

/// One page-level step of the store: a write, a read whose page (on a miss)
/// came from storage as `data`, or a write-back of a dirty cached page.
pub enum PageAccess {
    Write(RawFd, PageID, [u8; PAGE_SIZE]),
    Read(RawFd, PageID, [u8; PAGE_SIZE]),
    WriteBack(RawFd, PageID),
}

impl FsView {
    /// `read_page`: a hit changes nothing, a miss installs what was read.
    pub open spec fn after_read(self, fd: RawFd, page: PageID, data: [u8; PAGE_SIZE]) -> FsView {
        if self.resident(fd, page) {
            self
        } else {
            self.after_install(fd, page, data)
        }
    }

    pub open spec fn after_access(self, a: PageAccess) -> FsView {
        match a {
            PageAccess::Write(fd, page, data) => self.after_write(fd, page, data),
            PageAccess::Read(fd, page, data) => self.after_read(fd, page, data),
            PageAccess::WriteBack(fd, page) => self.after_write_back(fd, page),
        }
    }

    /// The access can happen now: its handle is open, its page number is not
    /// negative, and a write-back names a resident page.
    pub open spec fn access_allowed(self, a: PageAccess) -> bool {
        match a {
            PageAccess::Write(fd, page, _) => self.is_open(fd) && page >= 0,
            PageAccess::Read(fd, page, _) => self.is_open(fd) && page >= 0,
            PageAccess::WriteBack(fd, page) => self.is_open(fd) && page >= 0 && self.resident(
                fd,
                page,
            ),
        }
    }

    pub open spec fn after_accesses(self, acc: Seq<PageAccess>) -> FsView
        decreases acc.len(),
    {
        if acc.len() == 0 {
            self
        } else {
            self.after_access(acc[0]).after_accesses(acc.drop_first())
        }
    }

    /// Each access of `acc` is allowed in the state it meets.
    pub open spec fn accesses_allowed(self, acc: Seq<PageAccess>) -> bool
        decreases acc.len(),
    {
        acc.len() == 0 || (self.access_allowed(acc[0]) && self.after_access(
            acc[0],
        ).accesses_allowed(acc.drop_first()))
    }
}

/// The access neither writes nor reads page `page` of `fd`.
pub open spec fn access_avoids(a: PageAccess, fd: RawFd, page: PageID) -> bool {
    match a {
        PageAccess::Write(h, q, _) => (h, q) != (fd, page),
        PageAccess::Read(h, q, _) => (h, q) != (fd, page),
        PageAccess::WriteBack(_, _) => true,
    }
}

/// Any run of page accesses that do not touch page `page` of `fd` (even
/// ones that evict it) leaves that page's content as it was; with
/// `lemma_write_then_read`, a page reads back as last written through any
/// such run.
pub proof fn lemma_unrelated_accesses_keep_page(
    s: FsView,
    fd: RawFd,
    page: PageID,
    acc: Seq<PageAccess>,
)
    requires
        s.wf(),
        s.is_open(fd),
        page >= 0,
        s.accesses_allowed(acc),
        forall|k: int| 0 <= k < acc.len() ==> access_avoids(#[trigger] acc[k], fd, page),
    ensures
        s.after_accesses(acc).wf(),
        s.after_accesses(acc).is_open(fd),
        s.after_accesses(acc).page_content(fd, page) == s.page_content(fd, page),
    decreases acc.len(),
{
    if acc.len() > 0 {
        let a = acc[0];
        let t = s.after_access(a);
        match a {
            PageAccess::Write(h, q, data) => {
                lemma_after_write_wf(s, h, q, data);
                lemma_other_page_kept(s, fd, page, h, q, data);
            },
            PageAccess::Read(h, q, data) => {
                if !s.resident(h, q) {
                    lemma_after_install_wf(s, h, q, data);
                    lemma_other_page_kept(s, fd, page, h, q, data);
                }
            },
            PageAccess::WriteBack(h, q) => {
                lemma_after_write_back_wf(s, h, q);
                assert(t.page_content(fd, page) == s.page_content(fd, page));
            },
        }
        let rest = acc.drop_first();
        assert forall|k: int| 0 <= k < rest.len() implies access_avoids(#[trigger] rest[k], fd, page) by {
            assert(rest[k] == acc[k + 1]);
        }
        lemma_unrelated_accesses_keep_page(t, fd, page, rest);
    }
}

} // verus!
