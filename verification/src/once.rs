//! One operation, and nothing else.
use crate::access::{Access, InnerSlotPairTSV, Run};
use crate::operations;
use crate::protocol::{Outcome, Request};
use clock::Clock;
use vstd::prelude::*;

pub mod clock;

verus! {

/// The name of the clock that counts the calls of a write of `request`.
pub closed spec fn writing<T>(request: Request<T>) -> int {
    arbitrary::<spec_fn(Request<T>) -> int>()(request)
}

impl<'a, T: Sync + Send + 'static> Access<'a, T> {
    pub fn new(tsv: &'a InnerSlotPairTSV<T>) -> (access: Self)
        ensures
            access.tsv() == *tsv,
            access.clock().calls() == 0,
            access.run().events.len() == 0,
            access.run().stamps.len() == 0,
        opens_invariants none
    {
        Access::start(tsv, Clock::new(Ghost(arbitrary())))
    }
}

/// A write of `request` to `tsv` was made and came to `outcome`: from the first call that its clock
/// counted, all calls are those of a run.
pub open spec fn wrote<T: Sync + Send + 'static>(
    tsv: InnerSlotPairTSV<T>,
    request: Request<T>,
    outcome: Outcome<T>,
) -> bool {
    exists|run: Run<T>|
        {
            &&& run.by == writing(request)
            &&& run.start == 0
            &&& tsv.had(run)
            &&& #[trigger] operations::writes(run.events, request, outcome)
        }
}

/// The run of a write that was made.
pub(crate) proof fn lemma_written<T: Sync + Send + 'static>(
    tsv: InnerSlotPairTSV<T>,
    request: Request<T>,
    outcome: Outcome<T>,
) -> (run: Run<T>)
    requires
        wrote(tsv, request, outcome),
    ensures
        run.by == writing(request),
        run.start == 0,
        tsv.had(run),
        operations::writes(run.events, request, outcome),
{
    choose|run: Run<T>|
        {
            &&& run.by == writing(request)
            &&& run.start == 0
            &&& tsv.had(run)
            &&& #[trigger] operations::writes(run.events, request, outcome)
        }
}

/// Does what `request` asks for. The calls that this takes are those of the run, and no others are
/// made.
pub(crate) fn write<T: Sync + Send + 'static>(
    tsv: &InnerSlotPairTSV<T>,
    request: Request<T>,
) -> (outcome: Outcome<T>)
    ensures
        wrote(*tsv, request, outcome),
        operations::granted(request, outcome),
    opens_invariants [writing(request)]
{
    let mut access = Access::start(tsv, Clock::new(Ghost(writing(request))));
    let ghost before = access;
    let outcome: Outcome<T> = access.write(request);
    assert(operations::writes(access.run_since(before).events, request, outcome));
    outcome
}

} // verus!
