//! Schema migrations as data: which statements a storage backend needs
//! run once, each under a remembered identifier.  Running them against a
//! database is the backend's concern.

use vstd::prelude::*;

verus! {

/// One migration: its remembered identifier and its statement.
pub struct Migration {
    pub ident: &'static str,
    pub migration: &'static str,
}

/// What a storage backend declares about its schema.
pub trait MigrationInfo {
    /// The migrations the backend needs, in order.
    fn migrations(&self) -> &'static [Migration];
}

/// A backend that may not be used before its migrations ran.
pub struct NeedsMigration<T>(pub T);

impl<T: MigrationInfo> NeedsMigration<T> {
    /// Wrap a backend until its migrations ran.
    pub fn new(thing: T) -> (r: NeedsMigration<T>)
        ensures
            r.0 == thing,
    {
        NeedsMigration(thing)
    }
}

} // verus!
