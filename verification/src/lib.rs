//! Variables that any number of threads can read and write at the same time.
use protocol::{Request, Wrapper};
use std::ops::Deref;
use vstd::prelude::*;

pub use operations::access;
pub use protocol::Version;
pub use slot_pair::{Reader, SlotPairTSV};

mod outside;

pub mod alone;
pub mod laws;
pub mod model;
pub mod once;
pub mod operations;
pub mod protocol;
pub mod recorded;
pub mod results;
pub mod safety;
pub mod shared;
pub mod slot_pair;
pub mod thread_local;
pub mod traits;
pub mod undisturbed;

verus! {

/// A variable that threads share. Each value that it takes has a version.
pub trait ThreadSafeVar<T: Send + 'static> {
    /// What [`ThreadSafeVar::get`] gives.
    type Ref: ThreadSafeVarRef<T>;

    /// Reads the current value.
    fn get(&self) -> (current: Self::Ref);

    /// Replaces the current value by `data`, and returns the version of `data`.
    ///
    /// This method has a logical race condition: if another thread calls it between your read and
    /// this call, your write will silently overwrite theirs. Prefer
    /// [`ThreadSafeVar::compare_and_set`] or [`ThreadSafeVar::update`] for safe concurrent
    /// modifications.
    ///
    /// Nothing is done to a shared memory beside this one write.
    fn set(&self, data: T) -> (version: Version)
        opens_invariants [once::writing((Request::Overwrite { data }))]
    ;

    /// Atomically replaces the current value by `data` if its version is `expected_version`, and
    /// returns the version of `data`. On a mismatch, returns `data` with the current version.
    ///
    /// Nothing is done to a shared memory beside this one write.
    fn compare_and_set(&self, data: T, expected_version: Version) -> (result: Result<
        Version,
        (T, Version),
    >)
        ensures
            result matches Err((refused, current)) ==> refused == data && current
                != expected_version,
        opens_invariants [
            once::writing((Request::CompareAndSet { data, expected: expected_version })),
        ]
    ;

    /// Reads the current value, calls `f` with it and replaces it by what `f` returns. If the
    /// value has been replaced in the meantime, starts over. Returns the version of the new value.
    fn update<F>(&self, f: F) -> (version: Version) where F: Fn(&T) -> T
        requires
            forall|value: &T| #[trigger]
                operations::may_see(f, value) ==> call_requires(f, (value,)),
    ;
}

/// A value of a [`ThreadSafeVar`], with its version. It stays as it is, whatever becomes of the
/// variable.
pub trait ThreadSafeVarRef<T: Send>: Deref<Target = T> + Clone + Sync + Send + 'static {
    spec fn wrapped(&self) -> Wrapper<T>;

    fn version(&self) -> (version: Version)
        ensures
            version == self.wrapped().version,
        opens_invariants none
    ;

    fn get(&self) -> (value: &T)
        ensures
            *value == self.wrapped().data,
    ;
}

} // verus!
