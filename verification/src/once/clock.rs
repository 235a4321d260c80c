//! Clocks, by which calls on the shared memory are told apart.
use crate::outside;
use crate::outside::{Call, CellCall};
use vstd::prelude::*;

verus! {

/// Counts the calls that a thread makes with it. There is nothing to it at run time: it is there to
/// tell one call from another, and which of two came first.
///
/// A function that makes calls with a clock has the clock's name among the invariants that it opens.
/// So a function that names some clocks there makes no calls but with these.
pub struct Clock {
    id: Ghost<int>,
    calls: Ghost<nat>,
}

impl Clock {
    /// Which clock it is.
    pub closed spec fn id(&self) -> int {
        self.id@
    }

    /// How many calls it has counted.
    pub closed spec fn calls(&self) -> nat {
        self.calls@
    }

    /// It is what becomes of `before` with the one call more that is `call`.
    pub open spec fn counts(&self, before: Clock, call: Call) -> bool {
        &&& self.id() == before.id()
        &&& self.calls() == before.calls() + 1
        &&& outside::made(call, self.id(), self.calls())
    }

    /// It is what becomes of `before` with the one call more that is `call`.
    pub open spec fn counts_on_cell<V>(&self, before: Clock, call: CellCall<V>) -> bool {
        &&& self.id() == before.id()
        &&& self.calls() == before.calls() + 1
        &&& outside::made_on_cell(call, self.id(), self.calls())
    }

    /// A clock of the name `id`, which has counted nothing yet.
    pub(super) fn new(id: Ghost<int>) -> (clock: Clock)
        ensures
            clock.id() == id@,
            clock.calls() == 0,
        opens_invariants none
    {
        Clock { id, calls: Ghost(0) }
    }
}

} // verus!
