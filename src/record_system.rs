use vstd::prelude::*;
use crate::common::RawFd;
use crate::file_system::FS;

verus! {

/// The catalog layer above the store: databases and tables by name. It
/// reaches the store only through its file operations.
pub trait RecordSystem {
    fn create_database(name: &str);

    fn create_table(name: &str);

    fn use_database(name: &str);

    fn remove_database(name: &str);

    fn remove_table(name: &str);
}

/// A catalog over a store, with the database in use.
pub struct RS {
    fs: FS,
    current_database: String,
}

impl RS {
    /// The store the catalog keeps its files in.
    pub closed spec fn store(&self) -> FS {
        self.fs
    }

    /// The name of the database in use; empty when none is.
    pub closed spec fn database(&self) -> Seq<char> {
        self.current_database@
    }

    /// A catalog over an empty store, with no database in use.
    pub fn new() -> (r: RS)
        ensures
            r.store().wf(),
            r.store()@.names == Map::<Seq<char>, Option<RawFd>>::empty(),
            r.database() == Seq::<char>::empty(),
    {
        RS { fs: FS::new(), current_database: String::new() }
    }
}

impl RecordSystem for RS {
    fn create_database(name: &str) {
    }

    fn create_table(name: &str) {
    }

    fn use_database(name: &str) {
    }

    fn remove_database(name: &str) {
    }

    fn remove_table(name: &str) {
    }
}

} // verus!
