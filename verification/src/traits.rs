//! Traits of the standard library. A reader is compared, hashed and shown as its value, without
//! its version; a variable as what is current at that moment.
use crate::access::Run;
use crate::operations;
use crate::outside;
use crate::protocol::{ReadState, Wrapper};
use crate::slot_pair::{Reader, SlotPairTSV};
use crate::{ThreadSafeVar, ThreadSafeVarRef};
use vstd::prelude::*;
use vstd::std_specs::cmp::{OrdSpec, PartialEqSpec, PartialOrdSpec};

verus! {

impl<T: Sync + Send + PartialEq> PartialEq for Reader<T> {
    fn eq(&self, other: &Self) -> (equal: bool) {
        *self.get() == *other.get()
    }
}

impl<T: Sync + Send + PartialEq> vstd::std_specs::cmp::PartialEqSpecImpl for Reader<T> {
    open spec fn obeys_eq_spec() -> bool {
        T::obeys_eq_spec()
    }

    open spec fn eq_spec(&self, other: &Self) -> bool {
        self@.data.eq_spec(&other@.data)
    }
}

impl<T: Sync + Send + Eq> Eq for Reader<T> {

}

impl<T: Sync + Send + PartialOrd> PartialOrd for Reader<T> {
    fn partial_cmp(&self, other: &Self) -> (order: Option<std::cmp::Ordering>) {
        self.get().partial_cmp(other.get())
    }
}

impl<T: Sync + Send + PartialOrd> vstd::std_specs::cmp::PartialOrdSpecImpl for Reader<T> {
    open spec fn obeys_partial_cmp_spec() -> bool {
        T::obeys_partial_cmp_spec()
    }

    open spec fn partial_cmp_spec(&self, other: &Self) -> Option<std::cmp::Ordering> {
        self@.data.partial_cmp_spec(&other@.data)
    }
}

impl<T: Sync + Send + Ord> Reader<T> {
    /// Compares the values, as `Ord::cmp` does.
    pub fn compare(&self, other: &Self) -> (order: std::cmp::Ordering)
        ensures
            T::obeys_cmp_spec() ==> order == self@.data.cmp_spec(&other@.data),
    {
        self.get().cmp(other.get())
    }
}

impl<T: Sync + Send + std::fmt::Debug> std::fmt::Debug for Reader<T> {
    fn fmt(&self, f: &mut std::fmt::Formatter<'_>) -> (result: std::fmt::Result)
        ensures
            outside::shows(self@.data, *old(f), *final(f), result),
    {
        outside::debug(self.get(), f)
    }
}

impl<T: Sync + Send + std::hash::Hash> std::hash::Hash for Reader<T> {
    fn hash<H: std::hash::Hasher>(&self, state: &mut H)
        ensures
            outside::feeds(self@.data, *old(state), *final(state)),
    {
        outside::hash(self.get(), state)
    }
}

impl<T: Sync + Send + PartialEq> PartialEq for SlotPairTSV<T> {
    fn eq(&self, other: &Self) -> (equal: bool)
        ensures
            T::obeys_eq_spec() ==> exists|
                first: Run<T>,
                this: Wrapper<T>,
                second: Run<T>,
                that: Wrapper<T>,
            |
                {
                    &&& self.inner().had(first)
                    &&& other.inner().had(second)
                    &&& #[trigger] operations::reads(first.events, ReadState::Start, this)
                    &&& #[trigger] operations::reads(second.events, ReadState::Start, that)
                    &&& equal == this.data.eq_spec(&that.data)
                },
    {
        let this = self.get();
        let that = other.get();
        this == that
    }
}

/// Two variables are compared by what each gives at that moment, so the result is no function of the
/// two: what holds of it is with the method.
impl<T: Sync + Send + PartialEq> vstd::std_specs::cmp::PartialEqSpecImpl for SlotPairTSV<T> {
    open spec fn obeys_eq_spec() -> bool {
        false
    }

    open spec fn eq_spec(&self, other: &Self) -> bool {
        arbitrary()
    }
}

impl<T: Sync + Send + Eq> Eq for SlotPairTSV<T> {

}

impl<T: Sync + Send + PartialOrd> PartialOrd for SlotPairTSV<T> {
    fn partial_cmp(&self, other: &Self) -> (order: Option<std::cmp::Ordering>)
        ensures
            T::obeys_partial_cmp_spec() ==> exists|
                first: Run<T>,
                this: Wrapper<T>,
                second: Run<T>,
                that: Wrapper<T>,
            |
                {
                    &&& self.inner().had(first)
                    &&& other.inner().had(second)
                    &&& #[trigger] operations::reads(first.events, ReadState::Start, this)
                    &&& #[trigger] operations::reads(second.events, ReadState::Start, that)
                    &&& order == this.data.partial_cmp_spec(&that.data)
                },
    {
        let this = self.get();
        let that = other.get();
        this.partial_cmp(&that)
    }
}

/// Two variables are compared by what each gives at that moment, so the result is no function of the
/// two: what holds of it is with the method.
impl<T: Sync + Send + PartialOrd> vstd::std_specs::cmp::PartialOrdSpecImpl for SlotPairTSV<T> {
    open spec fn obeys_partial_cmp_spec() -> bool {
        false
    }

    open spec fn partial_cmp_spec(&self, other: &Self) -> Option<std::cmp::Ordering> {
        arbitrary()
    }
}

impl<T: Sync + Send + Ord> SlotPairTSV<T> {
    /// Compares what is current in each, as `Ord::cmp` does.
    pub fn compare(&self, other: &Self) -> (order: std::cmp::Ordering)
        ensures
            T::obeys_cmp_spec() ==> exists|
                first: Run<T>,
                this: Wrapper<T>,
                second: Run<T>,
                that: Wrapper<T>,
            |
                {
                    &&& self.inner().had(first)
                    &&& other.inner().had(second)
                    &&& #[trigger] operations::reads(first.events, ReadState::Start, this)
                    &&& #[trigger] operations::reads(second.events, ReadState::Start, that)
                    &&& order == this.data.cmp_spec(&that.data)
                },
    {
        let this = self.get();
        let that = other.get();
        this.compare(&that)
    }
}

impl<T: Sync + Send + std::fmt::Debug> std::fmt::Debug for SlotPairTSV<T> {
    fn fmt(&self, f: &mut std::fmt::Formatter<'_>) -> (result: std::fmt::Result)
        ensures
            exists|run: Run<T>, current: Wrapper<T>|
                {
                    &&& self.inner().had(run)
                    &&& #[trigger] operations::reads(run.events, ReadState::Start, current)
                    &&& outside::shows(current.data, *old(f), *final(f), result)
                },
    {
        let current = self.get();
        current.fmt(f)
    }
}

impl<T: Sync + Send + std::hash::Hash> std::hash::Hash for SlotPairTSV<T> {
    fn hash<H: std::hash::Hasher>(&self, state: &mut H)
        ensures
            exists|run: Run<T>, current: Wrapper<T>|
                {
                    &&& self.inner().had(run)
                    &&& #[trigger] operations::reads(run.events, ReadState::Start, current)
                    &&& outside::feeds(current.data, *old(state), *final(state))
                },
    {
        let current = self.get();
        current.hash(state)
    }
}

} // verus!
