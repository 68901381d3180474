//! Handles on persistent browser storage.
use vstd::prelude::*;

verus! {

/// A named key/value database in the browser.
pub struct IndexedDbStorage {
    db_name: String,
}

impl IndexedDbStorage {
    /// The database name.
    pub closed spec fn name(&self) -> Seq<char> {
        self.db_name@
    }

    /// A handle on the database `db_name`.
    pub fn new(db_name: String) -> (s: Self)
        ensures
            s.name() == db_name@,
    {
        IndexedDbStorage { db_name }
    }

    /// The database name.
    pub fn db_name(&self) -> (n: &String)
        ensures
            n@ == self.name(),
    {
        &self.db_name
    }
}

/// How much storage is used, out of how much, in bytes.
#[derive(Debug, Clone, Copy, PartialEq, Eq)]
pub struct StorageQuota {
    pub usage: u64,
    pub quota: u64,
}

} // verus!
