//! What a call does to a variable that nobody else uses meanwhile.
//!
//! The contracts of [`SlotPairTSV`] say of a call that the calls which it makes on the memory of the
//! variable are those of a run. So what becomes of the memory is what the run makes of it.
use crate::access::Run;
use crate::alone;
use crate::model::Memory;
use crate::operations;
use crate::protocol;
use crate::protocol::{Event, Outcome, ReadState, Request, Version, Wrapper, WriteState};
use crate::slot_pair::SlotPairTSV;
use vstd::prelude::*;

verus! {

/// `run` happens to `tsv` while its memory is `memory`, without anything else happening, and leaves
/// the memory as `post`.
pub open spec fn makes<T: Sync + Send + 'static>(
    tsv: SlotPairTSV<T>,
    memory: Memory<T>,
    run: Run<T>,
    post: Memory<T>,
) -> bool {
    &&& tsv.inner().had(run)
    &&& memory.is_quiet()
    &&& memory.replay(run.by, run.events) == Some(post)
}

/// What is kept from an earlier read of a variable: if it is of the current version, it is the current
/// value.
pub open spec fn is_kept_from<T>(known: Option<Wrapper<T>>, memory: Memory<T>) -> bool {
    known matches Some(kept) ==> kept.version == memory.current().version ==> kept
        == memory.current()
}

/// A `get` gives the current value with its version and leaves everything as it is; and so does a
/// `get_with`, whatever was kept.
pub proof fn law_get_undisturbed<T: Sync + Send + 'static>(
    tsv: SlotPairTSV<T>,
    memory: Memory<T>,
    known: Option<Wrapper<T>>,
    run: Run<T>,
    current: Wrapper<T>,
    post: Memory<T>,
)
    requires
        makes(tsv, memory, run, post),
        is_kept_from(known, memory),
        operations::reads(run.events, protocol::read_from(known), current),
    ensures
        current == memory.current(),
        post == memory,
{
    alone::law_read_alone(memory, run.by, known, run.events, current, post);
}

/// A `set` makes its value the current one, under the version after the one that was current, which
/// is what it returns.
pub proof fn law_set_undisturbed<T: Sync + Send + 'static>(
    tsv: SlotPairTSV<T>,
    memory: Memory<T>,
    data: T,
    run: Run<T>,
    version: Version,
    post: Memory<T>,
)
    requires
        makes(tsv, memory, run, post),
        operations::writes(run.events, (Request::Overwrite { data }), Ok(version)),
    ensures
        version == memory.current().version + 1,
        post.current() == (Wrapper { data, version }),
        post.next_version == version + 1,
{
    let request = Request::Overwrite { data };
    alone::law_write_alone(memory, run.by, request, run.events, Ok(version), post);
}

/// What is set is what is got next, whatever was kept from an earlier read, and under the version that
/// was returned.
pub proof fn law_set_then_get<T: Sync + Send + 'static>(
    tsv: SlotPairTSV<T>,
    memory: Memory<T>,
    data: T,
    first: Run<T>,
    version: Version,
    middle: Memory<T>,
    known: Option<Wrapper<T>>,
    second: Run<T>,
    current: Wrapper<T>,
    post: Memory<T>,
)
    requires
        makes(tsv, memory, first, middle),
        operations::writes(first.events, (Request::Overwrite { data }), Ok(version)),
        makes(tsv, middle, second, post),
        known matches Some(kept) ==> kept.version <= memory.current().version,
        operations::reads(second.events, protocol::read_from(known), current),
    ensures
        current == (Wrapper { data, version }),
        post == middle,
{
    law_set_undisturbed(tsv, memory, data, first, version, middle);
    law_get_undisturbed(tsv, middle, known, second, current, post);
}

/// A `compare_and_set` succeeds if and only if the expected version is the current one. Then its value
/// becomes the current one, under the next version. Otherwise it gets its value back with the current
/// version, and everything stays as it is.
pub proof fn law_compare_and_set_undisturbed<T: Sync + Send + 'static>(
    tsv: SlotPairTSV<T>,
    memory: Memory<T>,
    data: T,
    expected: Version,
    run: Run<T>,
    result: Outcome<T>,
    post: Memory<T>,
)
    requires
        makes(tsv, memory, run, post),
        operations::writes(run.events, (Request::CompareAndSet { data, expected }), result),
    ensures
        result is Ok <==> expected == memory.current().version,
        result matches Ok(version) ==> version == expected + 1 && post.current() == (Wrapper {
            data,
            version,
        }) && post.next_version == version + 1,
        result matches Err((refused, current)) ==> refused == data && current
            == memory.current().version && post == memory,
{
    let request = Request::CompareAndSet { data, expected };
    alone::law_write_alone(memory, run.by, request, run.events, result, post);
}

/// A stale `compare_and_set` is refused: after some writes in turn, one that expects the version from
/// before them, or from between them, gets its value back with the version of the last of them, which
/// stays the current one with its value.
pub proof fn law_stale_is_refused<T: Sync + Send + 'static>(
    tsv: SlotPairTSV<T>,
    memory: Memory<T>,
    values: Seq<T>,
    writes: Seq<Seq<Event<Wrapper<T>>>>,
    versions: Seq<Version>,
    middle: Memory<T>,
    data: T,
    expected: Version,
    run: Run<T>,
    result: Outcome<T>,
    post: Memory<T>,
)
    requires
        memory.is_quiet(),
        memory.next_version + values.len() < u64::MAX,
        values.len() == writes.len() == versions.len(),
        values.len() > 0,
        forall|i: int|
            0 <= i < writes.len() ==> operations::writes(
                #[trigger] writes[i],
                (Request::Overwrite { data: values[i] }),
                Ok(versions[i]),
            ),
        alone::replay_all(memory, writes) == Some(middle),
        makes(tsv, middle, run, post),
        operations::writes(run.events, (Request::CompareAndSet { data, expected }), result),
        expected < memory.current().version + values.len(),
    ensures
        result == Err::<Version, (T, Version)>((data, versions.last())),
        versions.last() == memory.current().version + values.len(),
        post == middle,
        post.current() == (Wrapper { data: values.last(), version: versions.last() }),
{
    assert forall|i: int| 0 <= i < writes.len() implies (WriteState::TakeLock {
        request: Request::Overwrite { data: values[i] },
    }).reach(#[trigger] writes[i]) == Some((WriteState::<T>::Done { outcome: Ok(versions[i]) })) by {
        assert(operations::writes(
            writes[i],
            Request::Overwrite { data: values[i] },
            Ok(versions[i]),
        ));
    }
    alone::law_writes_in_turn(memory, values, writes, versions, middle);
    law_compare_and_set_undisturbed(tsv, middle, data, expected, run, result, post);
}

/// Of two compare-and-sets, one after the other, that expect the same version, the second is refused.
pub proof fn law_expected_once<T: Sync + Send + 'static>(
    tsv: SlotPairTSV<T>,
    memory: Memory<T>,
    data: T,
    first: Run<T>,
    first_result: Outcome<T>,
    middle: Memory<T>,
    other: T,
    second: Run<T>,
    second_result: Outcome<T>,
    post: Memory<T>,
    expected: Version,
)
    requires
        makes(tsv, memory, first, middle),
        operations::writes(
            first.events,
            (Request::CompareAndSet { data, expected }),
            first_result,
        ),
        makes(tsv, middle, second, post),
        operations::writes(
            second.events,
            (Request::CompareAndSet { data: other, expected }),
            second_result,
        ),
    ensures
        second_result is Err,
        post == middle,
{
    law_compare_and_set_undisturbed(tsv, memory, data, expected, first, first_result, middle);
    law_compare_and_set_undisturbed(tsv, middle, other, expected, second, second_result, post);
}

/// A `replace_seen` gives `None` if and only if what was seen is not current any more, and then it
/// leaves everything as it is. Otherwise it makes its value the current one, under the next version.
pub proof fn law_replace_seen_undisturbed<T: Sync + Send + 'static>(
    tsv: SlotPairTSV<T>,
    memory: Memory<T>,
    seen: Wrapper<T>,
    data: T,
    run: Run<T>,
    outcome: Outcome<T>,
    done: Option<Version>,
    post: Memory<T>,
)
    requires
        makes(tsv, memory, run, post),
        operations::writes(
            run.events,
            (Request::CompareAndSet { data, expected: seen.version }),
            outcome,
        ),
        done == outcome.ok(),
    ensures
        done is None <==> seen.version != memory.current().version,
        done is None ==> post == memory,
        done matches Some(version) ==> version == seen.version + 1 && post.current() == (Wrapper {
            data,
            version,
        }) && post.next_version == version + 1,
{
    law_compare_and_set_undisturbed(tsv, memory, data, seen.version, run, outcome, post);
}

/// An `update` calls its function with the current value, makes what that returns the current value,
/// and returns its version, the next one.
pub proof fn law_update_undisturbed<T: Sync + Send + 'static, F: Fn(&T) -> T>(
    tsv: SlotPairTSV<T>,
    memory: Memory<T>,
    f: F,
    run: Run<T>,
    n: nat,
    i: int,
    j: int,
    old_value: Wrapper<T>,
    new_value: T,
    version: Version,
    post: Memory<T>,
)
    requires
        makes(tsv, memory, run, post),
        operations::updates(run.events, f, n, i, j, old_value, new_value, version),
    ensures
        old_value == memory.current(),
        call_ensures(f, (&memory.current().data,), new_value),
        version == memory.current().version + 1,
        post.current() == (Wrapper { data: new_value, version }),
{
    alone::law_update_alone(
        memory,
        run.by,
        run.events,
        f,
        n,
        i,
        j,
        old_value,
        new_value,
        version,
        post,
    );
}

/// How often the version counter is advanced in `events`.
pub open spec fn advances<T>(events: Seq<Event<Wrapper<T>>>) -> nat
    decreases events.len(),
{
    if events.len() == 0 {
        0
    } else {
        advances(events.drop_last()) + (if events.last() is Advanced {
            1nat
        } else {
            0nat
        })
    }
}

/// How often a value is put into a slot in `events`.
pub open spec fn swaps<T>(events: Seq<Event<Wrapper<T>>>) -> nat
    decreases events.len(),
{
    if events.len() == 0 {
        0
    } else {
        swaps(events.drop_last()) + (if events.last() is Swapped {
            1nat
        } else {
            0nat
        })
    }
}

/// A read leaves the version counter alone, and the slots.
pub proof fn law_get_publishes_nothing<T: Sync + Send + 'static>(
    start: ReadState<Wrapper<T>>,
    events: Seq<Event<Wrapper<T>>>,
)
    requires
        start.reach(events) is Some,
    ensures
        advances(events) == 0,
        swaps(events) == 0,
    decreases events.len(),
{
    if events.len() > 0 {
        law_get_publishes_nothing(start, events.drop_last());
    }
}

/// How often a write has put a value into a slot, and advanced the counter, by `state`.
spec fn done_by<T>(state: WriteState<T>) -> (nat, nat) {
    match state {
        WriteState::Advance { .. } => (1, 0),
        WriteState::Unlock { outcome: Ok(_) } => (1, 1),
        WriteState::Done { outcome: Ok(_) } => (1, 1),
        _ => (0, 0),
    }
}

proof fn lemma_write_effects<T>(start: WriteState<T>, events: Seq<Event<Wrapper<T>>>)
    requires
        start is TakeLock || start is Wait,
        start.reach(events) is Some,
    ensures
        swaps(events) == done_by(start.reach(events)->0).0,
        advances(events) == done_by(start.reach(events)->0).1,
    decreases events.len(),
{
    if events.len() > 0 {
        lemma_write_effects(start, events.drop_last());
    }
}

/// A write publishes once if it succeeds, and not at all if it is refused.
pub proof fn law_write_publishes_once<T: Sync + Send + 'static>(
    events: Seq<Event<Wrapper<T>>>,
    request: Request<T>,
    outcome: Outcome<T>,
)
    requires
        operations::writes(events, request, outcome),
    ensures
        swaps(events) == (if outcome is Ok {
            1nat
        } else {
            0nat
        }),
        advances(events) == (if outcome is Ok {
            1nat
        } else {
            0nat
        }),
{
    lemma_write_effects(WriteState::TakeLock { request }, events);
}

/// What happens in two parts happens in the whole.
proof fn lemma_effects_add<T>(events: Seq<Event<Wrapper<T>>>, i: int)
    requires
        0 <= i <= events.len(),
    ensures
        swaps(events) == swaps(events.take(i)) + swaps(events.skip(i)),
        advances(events) == advances(events.take(i)) + advances(events.skip(i)),
    decreases events.len(),
{
    if i == events.len() {
        assert(events.take(i) =~= events);
        assert(events.skip(i) =~= Seq::empty());
    } else {
        lemma_effects_add(events.drop_last(), i);
        assert(events.drop_last().take(i) =~= events.take(i));
        assert(events.drop_last().skip(i) =~= events.skip(i).drop_last());
    }
}

proof fn lemma_attempt_effects<T: Sync + Send + 'static, F: Fn(&T) -> T>(
    events: Seq<Event<Wrapper<T>>>,
    f: F,
    j: int,
    old_value: Wrapper<T>,
    new_value: T,
    outcome: Outcome<T>,
)
    requires
        operations::attempts(events, f, j, old_value, new_value, outcome),
    ensures
        swaps(events) == (if outcome is Ok {
            1nat
        } else {
            0nat
        }),
        advances(events) == (if outcome is Ok {
            1nat
        } else {
            0nat
        }),
{
    let request = Request::CompareAndSet { data: new_value, expected: old_value.version };
    lemma_effects_add(events, j);
    law_get_publishes_nothing(ReadState::Start, events.take(j));
    law_write_publishes_once(events.skip(j), request, outcome);
}

proof fn lemma_failures_publish_nothing<T: Sync + Send + 'static, F: Fn(&T) -> T>(
    events: Seq<Event<Wrapper<T>>>,
    f: F,
    n: nat,
)
    requires
        operations::fails(events, f, n),
    ensures
        swaps(events) == 0,
        advances(events) == 0,
    decreases n,
{
    if n > 0 {
        let (i, j, old_value, new_value, refusal) = choose|
            i: int,
            j: int,
            old_value: Wrapper<T>,
            new_value: T,
            refusal: (T, Version),
        |
            {
                &&& 0 <= i <= events.len()
                &&& operations::fails(events.take(i), f, (n - 1) as nat)
                &&& #[trigger] operations::attempts(
                    events.skip(i),
                    f,
                    j,
                    old_value,
                    new_value,
                    Err(refusal),
                )
            };
        lemma_effects_add(events, i);
        lemma_failures_publish_nothing(events.take(i), f, (n - 1) as nat);
        lemma_attempt_effects(events.skip(i), f, j, old_value, new_value, Err(refusal));
    }
}

/// An update publishes once, however often it starts over.
pub proof fn law_update_publishes_once<T: Sync + Send + 'static, F: Fn(&T) -> T>(
    events: Seq<Event<Wrapper<T>>>,
    f: F,
    n: nat,
    i: int,
    j: int,
    old_value: Wrapper<T>,
    new_value: T,
    version: Version,
)
    requires
        operations::updates(events, f, n, i, j, old_value, new_value, version),
    ensures
        swaps(events) == 1,
        advances(events) == 1,
{
    let last = events.skip(i);
    lemma_effects_add(events, i);
    lemma_failures_publish_nothing(events.take(i), f, n);
    if n < operations::RETRY_LIMIT {
        lemma_attempt_effects(last, f, j, old_value, new_value, Ok(version));
    } else {
        lemma_effects_add(last, j);
        law_get_publishes_nothing(ReadState::Start, last.take(j));
        lemma_write_effects(WriteState::Wait { data: new_value, version }, last.skip(j));
    }
}

} // verus!
