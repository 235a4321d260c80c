//! The variable itself.
use crate::access::{Access, Run};
use crate::model::Memory;
use crate::once;
use crate::operations;
use crate::outside;
use crate::protocol;
use crate::protocol::{Outcome, ReadState, Request, Version, Wrapper};
use crate::{ThreadSafeVar, ThreadSafeVarRef};
use rclite::Arc;
use vstd::prelude::*;

pub use crate::access::InnerSlotPairTSV;

verus! {

/// A published value that is kept alive by whoever has it.
#[verifier::reject_recursive_types(T)]
pub struct Reader<T: Sync + Send + 'static>(Arc<Wrapper<T>>, Version);

impl<T: Sync + Send + 'static> View for Reader<T> {
    type V = Wrapper<T>;

    closed spec fn view(&self) -> Wrapper<T> {
        outside::held(self.0)
    }
}

impl<T: Sync + Send + 'static> Clone for Reader<T> {
    fn clone(&self) -> (reader: Self)
        ensures
            reader@ == self@,
    {
        proof {
            use_type_invariant(self);
        }
        Reader(self.0.clone(), self.1)
    }
}

impl<T: Sync + Send + 'static> Reader<T> {
    /// The version is at hand.
    #[verifier::type_invariant]
    spec fn has_version(&self) -> bool {
        self.1 == outside::held(self.0).version
    }

    pub(crate) fn new(wrapper: Arc<Wrapper<T>>) -> (reader: Self)
        ensures
            reader@ == outside::held(wrapper),
    {
        let version: Version = wrapper.version;
        Reader(wrapper, version)
    }
}

impl<T: Sync + Send + 'static> ThreadSafeVarRef<T> for Reader<T> {
    open spec fn wrapped(&self) -> Wrapper<T> {
        self@
    }

    fn version(&self) -> (version: Version) {
        proof {
            use_type_invariant(self);
        }
        self.1
    }

    fn get(&self) -> (value: &T) {
        &self.0.data
    }
}

impl<T: Sync + Send + 'static> std::ops::Deref for Reader<T> {
    type Target = T;

    fn deref(&self) -> (value: &T)
        ensures
            *value == self@.data,
    {
        &self.0.data
    }
}

impl<T: Sync + Send + 'static> InnerSlotPairTSV<T> {
    pub fn new(data: T) -> (tsv: Self)
        ensures
            tsv.initial() == Memory::initial(data),
    {
        let wrapper = Arc::new(Wrapper::new(data, 0));
        InnerSlotPairTSV::of(wrapper.clone(), wrapper)
    }
}

/// A variable that any number of threads can read and write at the same time.
///
/// Readers do not wait for a value to be written. A writer waits for other writers, and for readers
/// that are in the slot which it writes to.
#[verifier::reject_recursive_types(T)]
pub struct SlotPairTSV<T: Sync + Send + 'static>(InnerSlotPairTSV<T>);

impl<T: Sync + Send + 'static> SlotPairTSV<T> {
    /// What the threads that use it share.
    pub closed spec fn inner(&self) -> InnerSlotPairTSV<T> {
        self.0
    }

    /// The memory that it began with.
    pub open spec fn initial(&self) -> Memory<T> {
        self.inner().initial()
    }

    pub fn new(data: T) -> (tsv: Self)
        ensures
            tsv.initial() == Memory::initial(data),
    {
        SlotPairTSV(InnerSlotPairTSV::new(data))
    }

    /// Reads the current value. `cache` is where the calling thread keeps what it read last: while
    /// that is current, nothing that other threads contend for is touched.
    ///
    /// What is in `cache` must have been read from this variable. It is told by its version alone,
    /// so what was read from another variable can be given back as if it were this one's.
    pub fn get_with(&self, cache: &mut Option<Reader<T>>) -> (current: Reader<T>)
        ensures
            (*final(cache)) matches Some(kept) && kept@ == current@,
            (*old(cache) matches Some(cached) && cached@ == current@) || self.inner().gave(
                current@,
            ),
            exists|run: Run<T>|
                {
                    &&& run.start == 0
                    &&& self.inner().had(run)
                    &&& #[trigger] operations::reads(
                        run.events,
                        operations::started(*old(cache)),
                        current@,
                    )
                },
    {
        let mut access = Access::new(&self.0);
        let ghost before = access;
        let ghost start = operations::started(*cache);
        let current = access.read(cache.take());
        proof {
            let run = access.run_since(before);
            assert(operations::reads(run.events, start, current@));
            let done = ReadState::Done { wrapper: current@ };
            operations::lemma_read_gave(self.inner(), run, start, done);
        }
        *cache = Some(current.clone());
        current
    }

    /// Replaces `seen`, which was read from this variable, by `data`, and returns the version of
    /// `data`. Returns `None` if something else has replaced `seen` in the meantime: then whoever
    /// made `data` of it is to start over.
    pub fn replace_seen(&self, seen: &Reader<T>, data: T) -> (done: Option<Version>)
        ensures
            done matches Some(version) ==> version == protocol::successor(seen@.version)
                && self.inner().took(protocol::slot_of(version), (Wrapper { data, version })),
            exists|run: Run<T>, outcome: Outcome<T>|
                {
                    &&& run.by == once::writing(
                        (Request::CompareAndSet { data, expected: seen@.version }),
                    )
                    &&& run.start == 0
                    &&& self.inner().had(run)
                    &&& #[trigger] operations::writes(
                        run.events,
                        (Request::CompareAndSet { data, expected: seen@.version }),
                        outcome,
                    )
                    &&& done == outcome.ok()
                },
        opens_invariants [
            once::writing((Request::CompareAndSet { data, expected: seen@.version })),
        ]
    {
        match self.compare_and_set(data, seen.version()) {
            Ok(version) => Some(version),
            Err(_) => None,
        }
    }
}

impl<T: Sync + Send + 'static> ThreadSafeVar<T> for SlotPairTSV<T> {
    type Ref = Reader<T>;

    fn get(&self) -> (current: Reader<T>)
        ensures
            self.inner().gave(current@),
            exists|run: Run<T>|
                {
                    &&& run.start == 0
                    &&& self.inner().had(run)
                    &&& #[trigger] operations::reads(run.events, ReadState::Start, current@)
                },
    {
        let mut access = Access::new(&self.0);
        let ghost before = access;
        let current = access.read(None);
        proof {
            let run = access.run_since(before);
            let start = ReadState::<Wrapper<T>>::Start;
            assert(operations::reads(run.events, start, current@));
            let done = ReadState::Done { wrapper: current@ };
            operations::lemma_read_gave(self.inner(), run, start, done);
        }
        current
    }

    /// Versions come from a counter of 64 bits. When it is exhausted, after version `u64::MAX`, it
    /// starts over, and this returns 0; from then on versions tell values apart no longer.
    fn set(&self, data: T) -> (version: Version)
        ensures
            self.inner().took(protocol::slot_of(version), (Wrapper { data, version })),
            exists|run: Run<T>|
                {
                    &&& run.by == once::writing((Request::Overwrite { data }))
                    &&& run.start == 0
                    &&& self.inner().had(run)
                    &&& #[trigger] operations::writes(
                        run.events,
                        (Request::Overwrite { data }),
                        Ok(version),
                    )
                },
    {
        let outcome: Outcome<T> = once::write(&self.0, Request::Overwrite { data });
        let version: Version = match outcome {
            Ok(version) => version,
            Err((_, current)) => current,
        };
        proof {
            let request = Request::Overwrite { data };
            let run = once::lemma_written(self.inner(), request, outcome);
            assert(operations::writes(run.events, request, Ok(version)));
            operations::lemma_write_took(self.inner(), run, request, version);
        }
        version
    }

    /// When the counter of versions is exhausted, it starts over, as it does for `set`: if `u64::MAX`
    /// is both the current and the expected version, this returns `Ok(0)`.
    fn compare_and_set(&self, data: T, expected_version: Version) -> (result: Result<
        Version,
        (T, Version),
    >)
        ensures
            result matches Ok(version) ==> version == protocol::successor(expected_version)
                && self.inner().took(protocol::slot_of(version), (Wrapper { data, version })),
            exists|run: Run<T>|
                {
                    &&& run.by == once::writing(
                        (Request::CompareAndSet { data, expected: expected_version }),
                    )
                    &&& run.start == 0
                    &&& self.inner().had(run)
                    &&& #[trigger] operations::writes(
                        run.events,
                        (Request::CompareAndSet { data, expected: expected_version }),
                        result,
                    )
                },
    {
        let outcome: Outcome<T> = once::write(
            &self.0,
            Request::CompareAndSet { data, expected: expected_version },
        );
        proof {
            let request = Request::CompareAndSet { data, expected: expected_version };
            let run = once::lemma_written(self.inner(), request, outcome);
            if let Ok(version) = outcome {
                operations::lemma_write_took(self.inner(), run, request, version);
            }
        }
        outcome
    }

    fn update<F>(&self, f: F) -> (version: Version) where F: Fn(&T) -> T
        ensures
            exists|run: Run<T>, n: nat, i: int, j: int, old_value: Wrapper<T>, new_value: T|
                {
                    &&& run.start == 0
                    &&& self.inner().had(run)
                    &&& #[trigger] operations::updates(
                        run.events,
                        f,
                        n,
                        i,
                        j,
                        old_value,
                        new_value,
                        version,
                    )
                    &&& self.inner().gave(old_value)
                    &&& call_ensures(f, (&old_value.data,), new_value)
                    &&& self.inner().took(
                        protocol::slot_of(version),
                        (Wrapper { data: new_value, version }),
                    )
                },
    {
        let mut access = Access::new(&self.0);
        let ghost before = access;
        let version: Version = access.update(f);
        proof {
            let run = access.run_since(before);
            let (n, i, j, old, new) = choose|
                n: nat,
                i: int,
                j: int,
                old: Wrapper<T>,
                new: T,
            | #[trigger] operations::updates(run.events, f, n, i, j, old, new, version);
            assert(operations::updates(run.events, f, n, i, j, old, new, version));
            operations::lemma_update_gave_and_took(
                self.inner(),
                run,
                f,
                n,
                i,
                j,
                old,
                new,
                version,
            );
        }
        version
    }
}

} // verus!
