//! What operations return, whatever the other operations do at the same time.
//!
//! The laws speak of a log of all that happened to a memory. The events that it has of an operation
//! are the trace of the [`Access`](crate::access::Access) that the operation was made through.
use crate::alone;
use crate::laws;
use crate::model::Memory;
use crate::operations;
use crate::protocol;
use crate::protocol::{Event, Outcome, ReadState, Request, Version, Wrapper, WriteState};
use crate::recorded;
use crate::recorded::{Log, Operation, UpdateState};
use vstd::prelude::*;

verus! {

/// What `operation` writes in the place of `current`.
pub open spec fn written<T>(operation: Operation<T>, current: T) -> T {
    match operation {
        Operation::Read { .. } => current,
        Operation::Write { request } => alone::wanted(request),
        Operation::Update { f } => f(current),
    }
}

/// What the version counter holds after `log`.
pub open spec fn counter<T>(log: Log<T>, data: T) -> u64 {
    recorded::memory_after(Memory::initial(data), log)->0.next_version
}

/// After the first `k` events of a log, each thread of the execution that the log is has come as far
/// as its events say.
proof fn lemma_moment_after<T>(log: Log<T>, operations: Seq<Operation<T>>, data: T, k: int) -> (i:
    int)
    requires
        recorded::is_log(log, operations, data),
        0 <= k <= log.len(),
    ensures
        ({
            let run = recorded::execution(log, operations, data);
            &&& laws::is_execution(run, data, operations.len())
            &&& 0 <= i < run.len()
            &&& k == log.len() ==> i == run.len() - 1
            &&& run[i].inv()
            &&& run[i].tasks.len() == operations.len()
            &&& Some(run[i].memory) == recorded::memory_after(Memory::initial(data), log.take(k))
            &&& forall|t: int|
                0 <= t < operations.len() ==> recorded::agrees(
                    run[i],
                    t,
                    #[trigger] operations[t],
                    recorded::events_of(log.take(k), t),
                )
        }),
{
    let run = recorded::execution(log, operations, data);
    let beginning = recorded::execution(log.take(k), operations, data);
    recorded::lemma_beginning(log, operations, data, k);
    recorded::law_log_is_execution(log, operations, data);
    recorded::law_log_is_execution(log.take(k), operations, data);
    assert(log.take(log.len() as int) =~= log);
    let i = beginning.len() - 1;
    assert(run[i] == beginning[i]);
    laws::law_always_safe(run, data, operations.len(), i);
    i
}

/// The moments after two numbers of events come in the same order.
proof fn lemma_moments_after<T>(
    log: Log<T>,
    operations: Seq<Operation<T>>,
    data: T,
    k: int,
    l: int,
) -> (res: (int, int))
    requires
        recorded::is_log(log, operations, data),
        0 <= k <= l <= log.len(),
    ensures
        ({
            let (i, j) = res;
            let run = recorded::execution(log, operations, data);
            &&& 0 <= i <= j < run.len()
            &&& laws::is_execution(run, data, operations.len())
            &&& run[i].inv()
            &&& run[j].inv()
            &&& Some(run[i].memory) == recorded::memory_after(Memory::initial(data), log.take(k))
            &&& Some(run[j].memory) == recorded::memory_after(Memory::initial(data), log.take(l))
        }),
{
    let run = recorded::execution(log, operations, data);
    let first = recorded::execution(log.take(k), operations, data);
    let second = recorded::execution(log.take(l), operations, data);
    recorded::lemma_beginning(log, operations, data, l);
    recorded::lemma_beginning(log, operations, data, k);
    assert(log.take(l).take(k) =~= log.take(k));
    recorded::lemma_beginning(log.take(l), operations, data, k);
    recorded::law_log_is_execution(log, operations, data);
    recorded::law_log_is_execution(log.take(k), operations, data);
    recorded::law_log_is_execution(log.take(l), operations, data);
    let i = first.len() - 1;
    let j = second.len() - 1;
    assert(run[i] == first[i]);
    assert(run[j] == second[j]);
    laws::law_always_safe(run, data, operations.len(), i);
    laws::law_always_safe(run, data, operations.len(), j);
    (i, j)
}

/// Versions name values: what is current under a version is the same at all times, and later times
/// have no lower versions.
pub proof fn law_recorded_versions_name_values<T>(
    log: Log<T>,
    operations: Seq<Operation<T>>,
    data: T,
    k: int,
    first: Wrapper<T>,
    l: int,
    second: Wrapper<T>,
)
    requires
        recorded::is_log(log, operations, data),
        0 <= k <= l <= log.len(),
        recorded::is_current(log, data, k, first),
        recorded::is_current(log, data, l, second),
    ensures
        first.version <= second.version,
        first.version == second.version ==> first == second,
{
    let run = recorded::execution(log, operations, data);
    let (i, j) = lemma_moments_after(log, operations, data, k, l);
    laws::law_history_grows(run, data, operations.len(), i, j);
    if first.version == second.version {
        assert(run[i].history[first.version as int] == run[j].history[first.version as int]);
    }
}

/// Reads are linearizable: if operation `t` is a read that has not begun by the event `from`, and
/// that gives `wrapper`, then after some event from then on, `wrapper` was the current value.
pub proof fn law_recorded_read_was_current<T>(
    log: Log<T>,
    operations: Seq<Operation<T>>,
    data: T,
    from: int,
    t: int,
    known: Option<Wrapper<T>>,
    wrapper: Wrapper<T>,
) -> (k: int)
    requires
        recorded::is_log(log, operations, data),
        0 <= from <= log.len(),
        0 <= t < operations.len(),
        operations[t] == (Operation::Read { known }),
        recorded::events_of(log.take(from), t).len() == 0,
        operations::reads(recorded::events_of(log, t), protocol::read_from(known), wrapper),
    ensures
        from <= k <= log.len(),
        recorded::is_current(log, data, k, wrapper),
{
    let run = recorded::execution(log, operations, data);
    let beginning = recorded::execution(log.take(from), operations, data);
    recorded::lemma_beginning(log, operations, data, from);
    recorded::law_log_is_execution(log, operations, data);
    recorded::law_log_is_execution(log.take(from), operations, data);
    let i = beginning.len() - 1;
    let end = run.len() - 1;
    assert(run[i] == beginning[i]);
    assert(recorded::agrees(run[i], t, operations[t], recorded::events_of(log.take(from), t)));
    assert(recorded::agrees(run[end], t, operations[t], recorded::events_of(log, t)));
    let m = laws::law_read_was_current(run, data, operations.len(), t, i, end, wrapper);
    laws::law_always_safe(run, data, operations.len(), m);
    recorded::lemma_moment(log, operations, data, from, m)
}

/// A variable that nobody has written to gives its first value, under version 0; and whatever else
/// has been written, version 0 is that of the first value.
pub proof fn law_recorded_read_of_new<T>(
    log: Log<T>,
    operations: Seq<Operation<T>>,
    data: T,
    t: int,
    known: Option<Wrapper<T>>,
    wrapper: Wrapper<T>,
)
    requires
        recorded::is_log(log, operations, data),
        0 <= t < operations.len(),
        operations[t] == (Operation::Read { known }),
        operations::reads(recorded::events_of(log, t), protocol::read_from(known), wrapper),
    ensures
        wrapper.version < counter(log, data),
        wrapper.version == 0 ==> wrapper.data == data,
        counter(log, data) == 1 ==> wrapper == (Wrapper { data, version: 0 }),
{
    let run = recorded::execution(log, operations, data);
    let end = lemma_moment_after(log, operations, data, log.len() as int);
    assert(log.take(log.len() as int) =~= log);
    assert(recorded::agrees(run[end], t, operations[t], recorded::events_of(log, t)));
    laws::law_read_of_new(run, data, operations.len(), t, end, wrapper);
}

/// Writes are linearizable: if operation `t` is one that has not begun by the event `from`, and that
/// writes and returns `version`, then one event from then on puts its value, under that version, in
/// the place of the value of the version before, which is the expected one if one was expected.
pub proof fn law_recorded_write_took_effect<T>(
    log: Log<T>,
    operations: Seq<Operation<T>>,
    data: T,
    from: int,
    t: int,
    version: Version,
) -> (k: int)
    requires
        recorded::is_log(log, operations, data),
        0 <= from <= log.len(),
        0 <= t < operations.len(),
        recorded::events_of(log.take(from), t).len() == 0,
        recorded::comes_to(operations[t], recorded::events_of(log, t), Ok(version)),
    ensures
        from <= k < log.len(),
        recorded::memory_after(Memory::initial(data), log.take(k)) matches Some(memory)
            && memory.current().version + 1 == version && recorded::is_current(
            log,
            data,
            k,
            memory.current(),
        ) && recorded::is_current(
            log,
            data,
            k + 1,
            (Wrapper { data: written(operations[t], memory.current().data), version }),
        ),
        operations[t] matches Operation::Write { request: Request::CompareAndSet { expected, .. } }
            ==> expected + 1 == version,
{
    let run = recorded::execution(log, operations, data);
    let i = lemma_moment_after(log, operations, data, from);
    let end = lemma_moment_after(log, operations, data, log.len() as int);
    let n = operations.len();
    let intent = recorded::intent_of(operations[t]);
    assert(log.take(log.len() as int) =~= log);
    assert(recorded::agrees(run[i], t, operations[t], recorded::events_of(log.take(from), t)));
    assert(recorded::agrees(run[end], t, operations[t], recorded::events_of(log, t)));
    let m = laws::law_write_took_effect(run, data, n, t, i, end, intent, version);
    laws::law_history_grows(run, data, n, i, m);
    laws::law_history_grows(run, data, n, m + 1, end);
    assert(run[end].task_ok(run[end].tasks[t]));
    let k = recorded::lemma_publishing_event(log, operations, data, from, version);
    let before = lemma_moment_after(log, operations, data, k);
    let after = lemma_moment_after(log, operations, data, k + 1);
    laws::law_history_grows(run, data, n, before, end);
    laws::law_history_grows(run, data, n, after, end);
    assert(run[after].history[version as int] == run[end].history[version as int]);
    assert(run[before].history[version - 1] == run[end].history[version - 1]);
    k
}

/// An update puts what `f` returned in the place of what `f` was called with: if operation `u` is a
/// read that gives `old`, `f` returns `new` for the value of `old`, and operation `t` is a
/// compare-and-set of `new` that expects the version of `old` and returns `version`, then one event
/// replaces `old` as the current value by `new`, under `version`. So nothing that was written in
/// between is lost.
pub proof fn law_recorded_update<T, F: Fn(&T) -> T>(
    log: Log<T>,
    operations: Seq<Operation<T>>,
    data: T,
    f: F,
    u: int,
    known: Option<Wrapper<T>>,
    old_value: Wrapper<T>,
    new_value: T,
    from: int,
    t: int,
    version: Version,
) -> (k: int)
    requires
        recorded::is_log(log, operations, data),
        0 <= u < operations.len(),
        operations[u] == (Operation::Read { known }),
        operations::reads(recorded::events_of(log, u), protocol::read_from(known), old_value),
        call_ensures(f, (&old_value.data,), new_value),
        0 <= from <= log.len(),
        0 <= t < operations.len(),
        operations[t] == (Operation::Write {
            request: Request::CompareAndSet { data: new_value, expected: old_value.version },
        }),
        recorded::events_of(log.take(from), t).len() == 0,
        recorded::comes_to(operations[t], recorded::events_of(log, t), Ok(version)),
    ensures
        from <= k < log.len(),
        version == old_value.version + 1,
        recorded::is_current(log, data, k, old_value),
        recorded::is_current(log, data, k + 1, (Wrapper { data: new_value, version })),
{
    let k = law_recorded_write_took_effect(log, operations, data, from, t, version);
    assert(log.take(0) =~= Seq::empty());
    let l = law_recorded_read_was_current(log, operations, data, 0, u, known, old_value);
    let replaced = recorded::memory_after(Memory::initial(data), log.take(k))->0.current();
    if k <= l {
        law_recorded_versions_name_values(log, operations, data, k, replaced, l, old_value);
    } else {
        law_recorded_versions_name_values(log, operations, data, l, old_value, k, replaced);
    }
    k
}

/// What a read that ends with the lock in hand has done, an update under the lock has done so far.
proof fn lemma_locked_read<T>(
    g: spec_fn(T) -> T,
    run: Seq<Event<Wrapper<T>>>,
    state: ReadState<Wrapper<T>>,
)
    requires
        ReadState::Start.reach(run) == Some(state),
        !(state is Done),
    ensures
        UpdateState::reach(g, run) == Some(UpdateState::<T>::Reading { state }),
    decreases run.len(),
{
    if run.len() > 0 {
        lemma_locked_read(g, run.drop_last(), ReadState::Start.reach(run.drop_last())->0);
    }
}

/// What is written under the lock after that, the update has gone on to do.
proof fn lemma_locked_write<T>(
    g: spec_fn(T) -> T,
    run: Seq<Event<Wrapper<T>>>,
    j: int,
    old_value: Wrapper<T>,
    wait: WriteState<T>,
    state: WriteState<T>,
)
    requires
        0 <= j < run.len(),
        UpdateState::reach(g, run.take(j)) == Some(
            (UpdateState::<T>::Reading {
                state: ReadState::Unlock { wrapper: old_value, found: old_value.version },
            }),
        ),
        wait == (WriteState::Wait {
            data: g(old_value.data),
            version: protocol::successor(old_value.version),
        }),
        wait.reach(run.skip(j)) == Some(state),
    ensures
        UpdateState::reach(g, run) == Some(UpdateState::<T>::Writing { state }),
    decreases run.len(),
{
    let shorter = run.drop_last();
    assert(shorter.skip(j) =~= run.skip(j).drop_last());
    assert(shorter.take(j) =~= run.take(j));
    if j == run.len() - 1 {
        assert(run.skip(j).drop_last() =~= Seq::empty());
        assert(run.take(j) =~= shorter);
    } else {
        lemma_locked_write(g, shorter, j, old_value, wait, wait.reach(shorter.skip(j))->0);
    }
}

/// The first events of an operation are all that it did in some beginning of the log.
proof fn lemma_prefix_with<T>(log: Log<T>, t: int, j: int) -> (l: int)
    requires
        0 <= j <= recorded::events_of(log, t).len(),
    ensures
        0 <= l <= log.len(),
        recorded::events_of(log.take(l), t) == recorded::events_of(log, t).take(j),
    decreases log.len(),
{
    let events = recorded::events_of(log, t);
    if j == events.len() {
        assert(log.take(log.len() as int) =~= log);
        assert(events.take(j) =~= events);
        log.len() as int
    } else {
        let shorter = log.drop_last();
        let l = lemma_prefix_with(shorter, t, j);
        assert(shorter.take(l) =~= log.take(l));
        assert(events.take(j) =~= recorded::events_of(shorter, t).take(j));
        l
    }
}

/// An update under the write lock puts what `f` returned in the place of what `f` was called with:
/// if operation `t` is such an update, in which `f` returned `new_value` for the value of
/// `old_value`, then one event replaces `old_value` as the current value by `new_value`.
pub proof fn law_recorded_locked_update<T, F: Fn(&T) -> T>(
    log: Log<T>,
    operations: Seq<Operation<T>>,
    data: T,
    f: F,
    g: spec_fn(T) -> T,
    from: int,
    t: int,
    j: int,
    old_value: Wrapper<T>,
    new_value: T,
    version: Version,
) -> (k: int)
    requires
        recorded::is_log(log, operations, data),
        0 <= from <= log.len(),
        0 <= t < operations.len(),
        operations[t] == (Operation::Update { f: g }),
        g(old_value.data) == new_value,
        recorded::events_of(log.take(from), t).len() == 0,
        operations::locks(recorded::events_of(log, t), f, j, old_value, new_value, version),
    ensures
        from <= k < log.len(),
        version == old_value.version + 1,
        recorded::is_current(log, data, k, old_value),
        recorded::is_current(log, data, k + 1, (Wrapper { data: new_value, version })),
        recorded::comes_to(operations[t], recorded::events_of(log, t), Ok(version)),
{
    let run = recorded::events_of(log, t);
    let read = ReadState::Unlock { wrapper: old_value, found: old_value.version };
    let wait = WriteState::Wait { data: new_value, version };
    let done = WriteState::<T>::Done { outcome: Ok(version) };
    lemma_locked_read(g, run.take(j), read);
    lemma_locked_write(g, run, j, old_value, wait, done);
    let k = law_recorded_write_took_effect(log, operations, data, from, t, version);
    let l = lemma_prefix_with(log, t, j);
    let i = lemma_moment_after(log, operations, data, l);
    let s = recorded::execution(log, operations, data)[i];
    assert(recorded::agrees(s, t, operations[t], run.take(j)));
    assert(s.task_ok(s.tasks[t]));
    let replaced = recorded::memory_after(Memory::initial(data), log.take(k))->0.current();
    if k <= l {
        law_recorded_versions_name_values(log, operations, data, k, replaced, l, old_value);
    } else {
        law_recorded_versions_name_values(log, operations, data, l, old_value, k, replaced);
    }
    k
}

/// A compare-and-set that is refused gets its value back with a version that is not the expected
/// one, and that was current after some event since it began.
pub proof fn law_recorded_compare_and_set_refuses<T>(
    log: Log<T>,
    operations: Seq<Operation<T>>,
    data: T,
    from: int,
    t: int,
    value: T,
    version: Version,
) -> (k: int)
    requires
        recorded::is_log(log, operations, data),
        0 <= from <= log.len(),
        0 <= t < operations.len(),
        recorded::events_of(log.take(from), t).len() == 0,
        recorded::comes_to(operations[t], recorded::events_of(log, t), Err((value, version))),
    ensures
        from <= k <= log.len(),
        recorded::memory_after(Memory::initial(data), log.take(k)) matches Some(memory)
            && memory.next_version == version + 1,
        operations[t] matches Operation::Write {
            request: Request::CompareAndSet { data: wanted, expected },
        } && value == wanted && version != expected,
{
    let run = recorded::execution(log, operations, data);
    let i = lemma_moment_after(log, operations, data, from);
    let end = lemma_moment_after(log, operations, data, log.len() as int);
    let intent = recorded::intent_of(operations[t]);
    let n = operations.len();
    assert(log.take(log.len() as int) =~= log);
    assert(recorded::agrees(run[i], t, operations[t], recorded::events_of(log.take(from), t)));
    assert(recorded::agrees(run[end], t, operations[t], recorded::events_of(log, t)));
    let m = laws::law_compare_and_set_refuses(run, data, n, t, i, end, intent, value, version);
    laws::law_history_grows(run, data, n, i, m);
    laws::law_history_grows(run, data, n, m, end);
    lemma_counter_reached(log, operations, data, from, version)
}

/// The version counter goes through all numbers on its way.
proof fn lemma_counter_reached<T>(
    log: Log<T>,
    operations: Seq<Operation<T>>,
    data: T,
    from: int,
    version: Version,
) -> (k: int)
    requires
        recorded::is_log(log, operations, data),
        0 <= from <= log.len(),
        recorded::memory_after(Memory::initial(data), log.take(from)) matches Some(memory)
            && memory.next_version <= version + 1,
        version < counter(log, data),
    ensures
        from <= k <= log.len(),
        recorded::memory_after(Memory::initial(data), log.take(k)) matches Some(memory)
            && memory.next_version == version + 1,
{
    if recorded::memory_after(Memory::initial(data), log.take(from))->0.next_version == version + 1 {
        from
    } else {
        recorded::lemma_publishing_event(log, operations, data, from, version) + 1
    }
}

/// A read gives back what was written: if operation `t` has written and returned `version` by the
/// `k`th event, and operation `u` is a read that has not begun by then and gives `wrapper`, then
/// `wrapper` is of that version or a higher one; it is of that version if nothing else has been
/// published; and if it is of that version, its value is the one that was written.
pub proof fn law_recorded_read_after_write<T>(
    log: Log<T>,
    operations: Seq<Operation<T>>,
    data: T,
    k: int,
    t: int,
    version: Version,
    u: int,
    known: Option<Wrapper<T>>,
    wrapper: Wrapper<T>,
)
    requires
        recorded::is_log(log, operations, data),
        0 <= k <= log.len(),
        0 <= t < operations.len(),
        recorded::comes_to(operations[t], recorded::events_of(log.take(k), t), Ok(version)),
        0 <= u < operations.len(),
        operations[u] == (Operation::Read { known }),
        recorded::events_of(log.take(k), u).len() == 0,
        operations::reads(recorded::events_of(log, u), protocol::read_from(known), wrapper),
    ensures
        wrapper.version >= version,
        counter(log, data) == version + 1 ==> wrapper.version == version,
        wrapper.version == version ==> (operations[t] matches Operation::Write { request }
            ==> wrapper.data == alone::wanted(request)),
{
    let run = recorded::execution(log, operations, data);
    let i = lemma_moment_after(log, operations, data, k);
    let end = lemma_moment_after(log, operations, data, log.len() as int);
    let intent = recorded::intent_of(operations[t]);
    let n = operations.len();
    assert(log.take(log.len() as int) =~= log);
    assert(recorded::agrees(run[i], t, operations[t], recorded::events_of(log.take(k), t)));
    assert(recorded::agrees(run[i], u, operations[u], recorded::events_of(log.take(k), u)));
    assert(recorded::agrees(run[end], u, operations[u], recorded::events_of(log, u)));
    laws::law_read_after_write(run, data, n, t, intent, version, i, u, wrapper, i, end);
}

/// Later reads see no older values: if operation `t` is a read that has given `first` by the `k`th
/// event, and operation `u` is a read that has not begun by then and gives `second`, then `second`
/// is the same or of a higher version.
pub proof fn law_recorded_reads_never_go_back<T>(
    log: Log<T>,
    operations: Seq<Operation<T>>,
    data: T,
    k: int,
    t: int,
    first_known: Option<Wrapper<T>>,
    first: Wrapper<T>,
    u: int,
    second_known: Option<Wrapper<T>>,
    second: Wrapper<T>,
)
    requires
        recorded::is_log(log, operations, data),
        0 <= k <= log.len(),
        0 <= t < operations.len(),
        operations[t] == (Operation::Read { known: first_known }),
        operations::reads(
            recorded::events_of(log.take(k), t),
            protocol::read_from(first_known),
            first,
        ),
        0 <= u < operations.len(),
        operations[u] == (Operation::Read { known: second_known }),
        recorded::events_of(log.take(k), u).len() == 0,
        operations::reads(recorded::events_of(log, u), protocol::read_from(second_known), second),
    ensures
        first.version <= second.version,
        first.version == second.version ==> first == second,
{
    let run = recorded::execution(log, operations, data);
    let i = lemma_moment_after(log, operations, data, k);
    let end = lemma_moment_after(log, operations, data, log.len() as int);
    let n = operations.len();
    assert(log.take(log.len() as int) =~= log);
    assert(recorded::agrees(run[i], t, operations[t], recorded::events_of(log.take(k), t)));
    assert(recorded::agrees(run[i], u, operations[u], recorded::events_of(log.take(k), u)));
    assert(recorded::agrees(run[end], u, operations[u], recorded::events_of(log, u)));
    laws::law_reads_never_go_back(run, data, n, t, first, i, u, second, i, end);
}

/// Of two compare-and-sets that expect the same version, one is refused.
pub proof fn law_recorded_one_compare_and_set_wins<T>(
    log: Log<T>,
    operations: Seq<Operation<T>>,
    data: T,
    t: int,
    first: T,
    first_outcome: Outcome<T>,
    u: int,
    second: T,
    second_outcome: Outcome<T>,
    expected: Version,
)
    requires
        recorded::is_log(log, operations, data),
        0 <= t < operations.len(),
        0 <= u < operations.len(),
        t != u,
        operations[t] == (Operation::Write {
            request: Request::CompareAndSet { data: first, expected },
        }),
        operations[u] == (Operation::Write {
            request: Request::CompareAndSet { data: second, expected },
        }),
        recorded::comes_to(operations[t], recorded::events_of(log, t), first_outcome),
        recorded::comes_to(operations[u], recorded::events_of(log, u), second_outcome),
    ensures
        first_outcome is Err || second_outcome is Err,
{
    if first_outcome is Ok && second_outcome is Ok {
        let first_version = first_outcome->Ok_0;
        let second_version = second_outcome->Ok_0;
        assert(log.take(0) =~= Seq::empty());
        let _ = law_recorded_write_took_effect(log, operations, data, 0, t, first_version);
        let _ = law_recorded_write_took_effect(log, operations, data, 0, u, second_version);
        law_recorded_versions_differ(
            log,
            operations,
            data,
            t,
            first_version,
            u,
            second_version,
        );
    }
}

/// No two writes get the same version, even at the same time.
pub proof fn law_recorded_versions_differ<T>(
    log: Log<T>,
    operations: Seq<Operation<T>>,
    data: T,
    t: int,
    first: Version,
    u: int,
    second: Version,
)
    requires
        recorded::is_log(log, operations, data),
        0 <= t < operations.len(),
        0 <= u < operations.len(),
        t != u,
        recorded::comes_to(operations[t], recorded::events_of(log, t), Ok(first)),
        recorded::comes_to(operations[u], recorded::events_of(log, u), Ok(second)),
    ensures
        first != second,
{
    let run = recorded::execution(log, operations, data);
    let end = lemma_moment_after(log, operations, data, log.len() as int);
    let n = operations.len();
    let first_intent = recorded::intent_of(operations[t]);
    let second_intent = recorded::intent_of(operations[u]);
    assert(log.take(log.len() as int) =~= log);
    assert(recorded::agrees(run[end], t, operations[t], recorded::events_of(log, t)));
    assert(recorded::agrees(run[end], u, operations[u], recorded::events_of(log, u)));
    laws::law_versions_differ(run, data, n, end, t, first_intent, first, u, second_intent, second);
}

/// No two operations have published under the same version, whether they are over or not.
pub proof fn law_recorded_publishers_differ<T>(
    log: Log<T>,
    operations: Seq<Operation<T>>,
    data: T,
    t: int,
    first: Version,
    u: int,
    second: Version,
)
    requires
        recorded::is_log(log, operations, data),
        0 <= t < operations.len(),
        0 <= u < operations.len(),
        t != u,
        recorded::publishes(operations[t], recorded::events_of(log, t), first),
        recorded::publishes(operations[u], recorded::events_of(log, u), second),
    ensures
        first != second,
{
    let end = lemma_moment_after(log, operations, data, log.len() as int);
    let s = recorded::execution(log, operations, data)[end];
    assert(log.take(log.len() as int) =~= log);
    assert(recorded::agrees(s, t, operations[t], recorded::events_of(log, t)));
    assert(recorded::agrees(s, u, operations[u], recorded::events_of(log, u)));
    assert(s.tasks[t].won() == Some(first));
    assert(s.tasks[u].won() == Some(second));
}

/// Writes are numbered in the order in which they take effect: if operation `t` has written and
/// returned `first` by the `k`th event, and operation `u` has not begun by then, and writes and
/// returns `second`, then `second` is higher.
pub proof fn law_recorded_versions_follow_time<T>(
    log: Log<T>,
    operations: Seq<Operation<T>>,
    data: T,
    k: int,
    t: int,
    first: Version,
    u: int,
    second: Version,
)
    requires
        recorded::is_log(log, operations, data),
        0 <= k <= log.len(),
        0 <= t < operations.len(),
        recorded::comes_to(operations[t], recorded::events_of(log.take(k), t), Ok(first)),
        0 <= u < operations.len(),
        recorded::events_of(log.take(k), u).len() == 0,
        recorded::comes_to(operations[u], recorded::events_of(log, u), Ok(second)),
    ensures
        first < second,
{
    let run = recorded::execution(log, operations, data);
    let i = lemma_moment_after(log, operations, data, k);
    let end = lemma_moment_after(log, operations, data, log.len() as int);
    let n = operations.len();
    let first_intent = recorded::intent_of(operations[t]);
    let second_intent = recorded::intent_of(operations[u]);
    assert(log.take(log.len() as int) =~= log);
    assert(recorded::agrees(run[i], t, operations[t], recorded::events_of(log.take(k), t)));
    assert(recorded::agrees(run[i], u, operations[u], recorded::events_of(log.take(k), u)));
    assert(recorded::agrees(run[end], u, operations[u], recorded::events_of(log, u)));
    laws::law_versions_follow_time(
        run,
        data,
        n,
        t,
        first_intent,
        first,
        i,
        u,
        second_intent,
        second,
        i,
        end,
    );
}

/// What is current stays so until another version is.
pub proof fn law_recorded_current_stays<T>(
    log: Log<T>,
    operations: Seq<Operation<T>>,
    data: T,
    k: int,
    current: Wrapper<T>,
    l: int,
)
    requires
        recorded::is_log(log, operations, data),
        0 <= k <= l <= log.len(),
        recorded::is_current(log, data, k, current),
        counter(log.take(l), data) == current.version + 1,
    ensures
        recorded::is_current(log, data, l, current),
{
    let i = lemma_moment_after(log, operations, data, l);
    let s = recorded::execution(log, operations, data)[i];
    assert(recorded::is_current(log, data, l, s.memory.current()));
    law_recorded_versions_name_values(log, operations, data, k, current, l, s.memory.current());
}

/// The operation has published its value.
pub open spec fn has_published<T>(operation: Operation<T>, events: Seq<Event<Wrapper<T>>>) -> bool {
    match recorded::writing(operation, events) {
        Some(WriteState::Unlock { outcome }) => outcome is Ok,
        Some(WriteState::Done { outcome }) => outcome is Ok,
        _ => false,
    }
}

/// An operation that is refused publishes nothing on its way.
pub(crate) proof fn lemma_refused_publishes_nothing<T>(
    operation: Operation<T>,
    log: Log<T>,
    t: int,
    k: int,
    l: int,
)
    requires
        0 <= k <= l <= log.len(),
        operation is Write,
        recorded::writing(operation, recorded::events_of(log.take(l), t)) matches Some(state) && !(
        has_published(operation, recorded::events_of(log.take(l), t))),
    ensures
        !has_published(operation, recorded::events_of(log.take(k), t)),
    decreases l - k,
{
    if k < l {
        assert(log.take(l).drop_last() =~= log.take(l - 1));
        let events = recorded::events_of(log.take(l), t);
        if log.take(l).last().0 == t {
            assert(events.drop_last() =~= recorded::events_of(log.take(l - 1), t));
        }
        lemma_refused_publishes_nothing(operation, log, t, k, l - 1);
    }
}

/// How many of the first `n` operations have published their values.
pub open spec fn publications<T>(log: Log<T>, operations: Seq<Operation<T>>, n: nat) -> nat
    decreases n,
{
    if n == 0 {
        0
    } else {
        publications(log, operations, (n - 1) as nat) + (if has_published(
            operations[n - 1],
            recorded::events_of(log, n - 1),
        ) {
            1nat
        } else {
            0nat
        })
    }
}

/// An operation publishes with the advance of the version counter, and does so once.
proof fn lemma_publishes_once<T>(
    operation: Operation<T>,
    events: Seq<Event<Wrapper<T>>>,
    event: Event<Wrapper<T>>,
)
    requires
        recorded::follows(operation, events.push(event)),
    ensures
        has_published(operation, events.push(event)) <==> has_published(operation, events)
            || event is Advanced,
        event is Advanced ==> !has_published(operation, events),
{
    assert(events.push(event).drop_last() =~= events);
}

proof fn lemma_publications_step<T>(log: Log<T>, operations: Seq<Operation<T>>, n: nat)
    requires
        log.len() > 0,
        n <= operations.len(),
        0 <= log.last().0 < operations.len(),
        recorded::follows(
            operations[log.last().0],
            recorded::events_of(log, log.last().0),
        ),
    ensures
        publications(log, operations, n) == publications(log.drop_last(), operations, n) + (if log.last().0
            < n && log.last().1 is Advanced {
            1nat
        } else {
            0nat
        }),
    decreases n,
{
    if n > 0 {
        lemma_publications_step(log, operations, (n - 1) as nat);
        let (t, event) = log.last();
        if t == n - 1 {
            lemma_publishes_once(operations[t], recorded::events_of(log.drop_last(), t), event);
        }
    }
}

/// The version counter counts the operations that have published their values.
pub proof fn law_recorded_versions_are_counted<T>(
    log: Log<T>,
    operations: Seq<Operation<T>>,
    data: T,
)
    requires
        recorded::is_log(log, operations, data),
    ensures
        counter(log, data) == 1 + publications(log, operations, operations.len()),
    decreases log.len(),
{
    let n = operations.len();
    if log.len() == 0 {
        lemma_nothing_published(operations, n);
        assert(log =~= Seq::empty());
    } else {
        let (t, event) = log.last();
        assert(log[log.len() - 1] == log.last());
        recorded::lemma_shorter(log, operations, data);
        law_recorded_versions_are_counted(log.drop_last(), operations, data);
        assert(recorded::follows(operations[t], recorded::events_of(log, t)));
        lemma_publications_step(log, operations, n);
    }
}

proof fn lemma_nothing_published<T>(operations: Seq<Operation<T>>, n: nat)
    ensures
        publications(Seq::<(int, Event<Wrapper<T>>)>::empty(), operations, n) == 0,
    decreases n,
{
    if n > 0 {
        lemma_nothing_published(operations, (n - 1) as nat);
    }
}

/// Each version but the first value's was given to an operation, which has published its value
/// under it.
pub proof fn law_recorded_every_version_is_given<T>(
    log: Log<T>,
    operations: Seq<Operation<T>>,
    data: T,
    version: Version,
) -> (t: int)
    requires
        recorded::is_log(log, operations, data),
        1 <= version < counter(log, data),
    ensures
        0 <= t < operations.len(),
        recorded::publishes(operations[t], recorded::events_of(log, t), version),
    decreases log.len(),
{
    let shorter = log.drop_last();
    let (u, event) = log.last();
    assert(log[log.len() - 1] == log.last());
    recorded::lemma_shorter(log, operations, data);
    let events = recorded::events_of(shorter, u);
    assert(recorded::follows(operations[u], recorded::events_of(log, u)));
    assert(recorded::events_of(log, u).drop_last() =~= events);
    if version < counter(shorter, data) {
        law_recorded_every_version_is_given(shorter, operations, data, version)
    } else {
        let run = recorded::execution(shorter, operations, data);
        let end = lemma_moment_after(shorter, operations, data, shorter.len() as int);
        assert(shorter.take(shorter.len() as int) =~= shorter);
        assert(recorded::agrees(run[end], u, operations[u], events));
        assert(run[end].task_ok(run[end].tasks[u]));
        u
    }
}

/// Value and version belong together: what a read gives under a version other than 0 is what the
/// operation wrote that was given this version.
pub proof fn law_recorded_value_belongs<T>(
    log: Log<T>,
    operations: Seq<Operation<T>>,
    data: T,
    u: int,
    known: Option<Wrapper<T>>,
    wrapper: Wrapper<T>,
) -> (t: int)
    requires
        recorded::is_log(log, operations, data),
        0 <= u < operations.len(),
        operations[u] == (Operation::Read { known }),
        operations::reads(recorded::events_of(log, u), protocol::read_from(known), wrapper),
        wrapper.version >= 1,
    ensures
        0 <= t < operations.len(),
        recorded::publishes(operations[t], recorded::events_of(log, t), wrapper.version),
        operations[t] matches Operation::Write { request } ==> wrapper.data == alone::wanted(
            request,
        ),
{
    let run = recorded::execution(log, operations, data);
    let end = lemma_moment_after(log, operations, data, log.len() as int);
    assert(log.take(log.len() as int) =~= log);
    law_recorded_read_of_new(log, operations, data, u, known, wrapper);
    let t = law_recorded_every_version_is_given(log, operations, data, wrapper.version);
    assert(recorded::agrees(run[end], t, operations[t], recorded::events_of(log, t)));
    assert(recorded::agrees(run[end], u, operations[u], recorded::events_of(log, u)));
    assert(run[end].task_ok(run[end].tasks[t]));
    assert(run[end].task_ok(run[end].tasks[u]));
    t
}

/// How many of the first `n` operations are not reads.
pub open spec fn writers<T>(operations: Seq<Operation<T>>, n: nat) -> nat
    decreases n,
{
    if n == 0 {
        0
    } else {
        writers(operations, (n - 1) as nat) + (if operations[n - 1] is Read {
            0nat
        } else {
            1nat
        })
    }
}

/// Where nothing but reads is counted, there is nothing but reads.
pub(crate) proof fn lemma_no_writers<T>(operations: Seq<Operation<T>>, n: nat)
    requires
        n <= operations.len(),
        writers(operations, n) == 0,
    ensures
        forall|t: int| 0 <= t < n ==> (#[trigger] operations[t]) is Read,
    decreases n,
{
    if n > 0 {
        lemma_no_writers(operations, (n - 1) as nat);
    }
}

/// All operations that are not reads have written by the end of `log`, and returned the version that
/// `versions` has for them.
pub open spec fn all_written<T>(
    log: Log<T>,
    operations: Seq<Operation<T>>,
    versions: Seq<Version>,
) -> bool {
    &&& versions.len() == operations.len()
    &&& forall|t: int|
        0 <= t < operations.len() && !((#[trigger] operations[t]) is Read) ==> recorded::comes_to(
            operations[t],
            recorded::events_of(log, t),
            Ok(versions[t]),
        )
}

/// No more have published than are not reads, and no fewer if those are done.
pub(crate) proof fn lemma_writers_publish<T>(
    log: Log<T>,
    operations: Seq<Operation<T>>,
    versions: Seq<Version>,
    n: nat,
)
    requires
        n <= operations.len(),
    ensures
        publications(log, operations, n) <= writers(operations, n),
        all_written(log, operations, versions) ==> publications(log, operations, n) == writers(
            operations,
            n,
        ),
    decreases n,
{
    if n > 0 {
        lemma_writers_publish(log, operations, versions, (n - 1) as nat);
        if all_written(log, operations, versions) && !(operations[n - 1] is Read) {
            assert(recorded::comes_to(
                operations[n - 1],
                recorded::events_of(log, n - 1),
                Ok(versions[n - 1]),
            ));
        }
    }
}

/// Versions are given out without gaps: the versions that writes return, once all are done, are the
/// numbers from 1 to the number of writes, each of which is returned by one of them.
pub proof fn law_recorded_versions_have_no_gaps<T>(
    log: Log<T>,
    operations: Seq<Operation<T>>,
    data: T,
    versions: Seq<Version>,
)
    requires
        recorded::is_log(log, operations, data),
        all_written(log, operations, versions),
    ensures
        counter(log, data) == writers(operations, operations.len()) + 1,
        forall|t: int|
            0 <= t < operations.len() && !((#[trigger] operations[t]) is Read) ==> 1 <= versions[t]
                <= writers(operations, operations.len()),
        forall|t: int, u: int|
            0 <= t < operations.len() && 0 <= u < operations.len() && t != u && !((
            #[trigger] operations[t]) is Read) && !((#[trigger] operations[u]) is Read)
                ==> versions[t] != versions[u],
        forall|version: Version|
            1 <= version <= writers(operations, operations.len()) ==> #[trigger] is_given(
                operations,
                versions,
                version,
            ),
{
    let n = operations.len();
    law_recorded_versions_are_counted(log, operations, data);
    lemma_writers_publish(log, operations, versions, n);
    assert(log.take(0) =~= Seq::empty());
    let end = lemma_moment_after(log, operations, data, log.len() as int);
    let s = recorded::execution(log, operations, data)[end];
    assert(log.take(log.len() as int) =~= log);
    assert forall|t: int| 0 <= t < n && !((#[trigger] operations[t]) is Read) implies 1
        <= versions[t] <= writers(operations, n) by {
        let _ = law_recorded_write_took_effect(log, operations, data, 0, t, versions[t]);
        assert(recorded::agrees(s, t, operations[t], recorded::events_of(log, t)));
        assert(s.task_ok(s.tasks[t]));
    }
    assert forall|t: int, u: int|
        0 <= t < n && 0 <= u < n && t != u && !((#[trigger] operations[t]) is Read) && !((
        #[trigger] operations[u]) is Read) implies versions[t] != versions[u] by {
        law_recorded_versions_differ(log, operations, data, t, versions[t], u, versions[u]);
    }
    assert forall|version: Version| 1 <= version <= writers(operations, n) implies #[trigger] is_given(
        operations,
        versions,
        version,
    ) by {
        let t = law_recorded_every_version_is_given(log, operations, data, version);
        assert(!(operations[t] is Read));
    }
}

/// One of `operations`, not a read, has returned `version`.
pub open spec fn is_given<T>(
    operations: Seq<Operation<T>>,
    versions: Seq<Version>,
    version: Version,
) -> bool {
    exists|t: int|
        0 <= t < operations.len() && !((#[trigger] operations[t]) is Read) && versions[t] == version
}

/// Once all writes are done, a read gives the last of them: its version is the number of writes, and
/// its value is what the write wrote that returned this version, or the first value if there was no
/// write.
pub proof fn law_recorded_last_write_is_read<T>(
    log: Log<T>,
    operations: Seq<Operation<T>>,
    data: T,
    versions: Seq<Version>,
    k: int,
    u: int,
    known: Option<Wrapper<T>>,
    wrapper: Wrapper<T>,
)
    requires
        recorded::is_log(log, operations, data),
        0 <= k <= log.len(),
        all_written(log.take(k), operations, versions),
        0 <= u < operations.len(),
        operations[u] == (Operation::Read { known }),
        recorded::events_of(log.take(k), u).len() == 0,
        operations::reads(recorded::events_of(log, u), protocol::read_from(known), wrapper),
    ensures
        wrapper.version == writers(operations, operations.len()),
        writers(operations, operations.len()) == 0 ==> wrapper.data == data,
        forall|t: int|
            0 <= t < operations.len() && versions[t] == wrapper.version ==> ((
            #[trigger] operations[t]) matches Operation::Write { request } ==> wrapper.data
                == alone::wanted(request)),
{
    let n = operations.len();
    let beginning = log.take(k);
    recorded::lemma_beginning(log, operations, data, k);
    law_recorded_versions_have_no_gaps(beginning, operations, data, versions);
    law_recorded_versions_are_counted(log, operations, data);
    lemma_writers_publish(log, operations, versions, n);
    law_recorded_read_of_new(log, operations, data, u, known, wrapper);
    let last = writers(operations, n);
    if last > 0 {
        assert(is_given(operations, versions, last as u64));
        let t = choose|t: int|
            0 <= t < n && !((#[trigger] operations[t]) is Read) && versions[t] == last as u64;
        law_recorded_read_after_write(
            log,
            operations,
            data,
            k,
            t,
            versions[t],
            u,
            known,
            wrapper,
        );
    }
}

} // verus!
