//! A paged file store: logical files named by strings, opened to obtain a
//! handle, and read or written one fixed-size page at a time through a
//! direct-mapped write-back page cache.
//!
//! The library holds every decision of the store (the name/handle directory,
//! cache lookups, eviction, flushing on close) and leaves the raw storage
//! operations to its caller, who performs them between the library's steps.

pub mod buf_manager;
pub mod common;
pub mod file_system;
pub mod model;
pub mod record_system;

pub use common::{
    index_of, page_offset, BUF_SIZE, FD_FIELD, FD_SPAN, MAX_PAGE, PAGE_FIELD, PAGE_SIZE,
    PAGE_SPAN, PageID, RawFd,
};
pub use buf_manager::{BufManager, Slot, WriteBack};
pub use model::{FsError, FsView};
pub use file_system::FS;
pub use record_system::{RecordSystem, RS};
