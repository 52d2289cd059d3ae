use vstd::prelude::*;

verus! {

/// Identifier of an open backing file, as handed out by the operating system.
pub type RawFd = i32;

/// Number of a page within a file.
pub type PageID = i64;

/// Width of the handle field of a cache slot index.
pub const FD_FIELD: usize = 1;

/// Width of the page field of a cache slot index.
pub const PAGE_FIELD: usize = 6;

/// Number of distinct values of the handle field.
pub const FD_SPAN: usize = 1 << FD_FIELD;

/// Number of distinct values of the page field: the slots one handle can use.
pub const PAGE_SPAN: usize = 1 << PAGE_FIELD;

/// Bytes in one page.
pub const PAGE_SIZE: usize = 1024;

/// Pages the cache holds.
pub const BUF_SIZE: usize = 1 << (FD_FIELD + PAGE_FIELD);

/// Largest page number whose byte offset fits an `i64`.
pub const MAX_PAGE: i64 = 0x1f_ffff_ffff_ffff;

/// The cache slot that page `page` of handle `fd` maps to: the low handle bits
/// followed by the low page bits.
pub open spec fn slot_index(fd: int, page: int) -> int {
    (fd % (FD_SPAN as int)) * (PAGE_SPAN as int) + page % (PAGE_SPAN as int)
}

/// First slot of the block of slots that handle `fd` can occupy.
pub open spec fn block_start(fd: int) -> int {
    (fd % (FD_SPAN as int)) * (PAGE_SPAN as int)
}

pub proof fn lemma_sizes()
    ensures
        FD_SPAN == 2,
        PAGE_SPAN == 64,
        BUF_SIZE == 128,
        BUF_SIZE == FD_SPAN * PAGE_SPAN,
{
    assert((1usize << 1usize) == 2usize) by (bit_vector);
    assert((1usize << 6usize) == 64usize) by (bit_vector);
    assert((1usize << 7usize) == 128usize) by (bit_vector);
}

/// A slot index lies in the cache, inside the block of its handle.
pub proof fn lemma_slot_index_bounds(fd: int, page: int)
    requires
        fd >= 0,
        page >= 0,
    ensures
        block_start(fd) <= slot_index(fd, page) < block_start(fd) + PAGE_SPAN,
        0 <= block_start(fd),
        block_start(fd) + PAGE_SPAN <= BUF_SIZE,
{
    lemma_sizes();
}

/// Index of the slot for `(fd, page)`.
pub fn index_of(fd: RawFd, page: PageID) -> (r: usize)
    requires
        fd >= 0,
        page >= 0,
    ensures
        r == slot_index(fd as int, page as int),
        r < BUF_SIZE,
{
    proof {
        lemma_sizes();
        lemma_slot_index_bounds(fd as int, page as int);
    }
    let f = (fd % (FD_SPAN as i32)) as usize;
    let p = (page % (PAGE_SPAN as i64)) as usize;
    f * PAGE_SPAN + p
}

/// Byte offset of page `page` in its backing file: page `k` occupies
/// `[k * PAGE_SIZE, (k + 1) * PAGE_SIZE)`.
pub fn page_offset(page: PageID) -> (r: i64)
    requires
        0 <= page <= MAX_PAGE,
    ensures
        r == page * PAGE_SIZE,
{
    page * (PAGE_SIZE as i64)
}

} // verus!
