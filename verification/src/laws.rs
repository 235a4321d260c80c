//! What users of the variable can rely on, whatever the threads do and however they interleave.
use crate::model;
use crate::model::{Action, Intent, System, Task, Waiting};
use crate::protocol;
use crate::protocol::{Event, ReadState, Request, Version, Wrapper, WriteState};
use crate::safety;
use vstd::prelude::*;

verus! {

/// `run` is what becomes of `n` threads that share a variable whose first value is `data`.
pub open spec fn is_execution<T>(run: Seq<System<T>>, data: T, n: nat) -> bool {
    &&& run.len() > 0
    &&& run[0] == System::initial(data, n)
    &&& model::is_run(run)
}

/// Thread `t` is idle at moment `i` of `run`, and `j` is that moment or a later one: what the thread
/// is in the middle of at `j`, it has begun since `i`.
pub open spec fn spans<T>(run: Seq<System<T>>, t: int, i: int, j: int) -> bool {
    &&& 0 <= i <= j < run.len()
    &&& 0 <= t < run[0].tasks.len()
    &&& run[i].tasks[t] is Idle
}

/// Thread `t` of `s` has read `wrapper`.
pub open spec fn has_read<T>(s: System<T>, t: int, wrapper: Wrapper<T>) -> bool {
    &&& 0 <= t < s.tasks.len()
    &&& s.tasks[t] matches Task::Read { state, .. }
    &&& state == (ReadState::Done { wrapper })
}

/// Thread `t` of `s` is done with a write of intent `intent`, which came to `outcome`.
pub open spec fn has_written<T>(
    s: System<T>,
    t: int,
    intent: Intent<T>,
    outcome: protocol::Outcome<T>,
) -> bool {
    &&& 0 <= t < s.tasks.len()
    &&& s.tasks[t] matches Task::Write { state, intent: wanted, .. }
    &&& state == (WriteState::Done { outcome })
    &&& intent == wanted
}

/// The invariant holds at every moment, and the number of threads stays as it is.
pub proof fn law_always_safe<T>(run: Seq<System<T>>, data: T, n: nat, i: int)
    requires
        is_execution(run, data, n),
        0 <= i < run.len(),
    ensures
        run[i].inv(),
        run[i].tasks.len() == n,
    decreases i,
{
    if i == 0 {
        safety::lemma_initial(data, n);
    } else {
        law_always_safe(run, data, n, i - 1);
        assert(model::steps_to(run[i - 1], run[i - 1 + 1]));
        let (t, action) = choose|t: int, action: Action<T>| #[trigger]
            run[i - 1].enabled(t, action) && run[i] == run[i - 1].after(t, action);
        safety::lemma_step(run[i - 1], t, action);
    }
}

/// One step publishes at most one value, and takes none back.
proof fn lemma_step_grows<T>(pre: System<T>, post: System<T>)
    requires
        pre.inv(),
        model::steps_to(pre, post),
    ensures
        pre.history.is_prefix_of(post.history),
        pre.history.len() <= post.history.len() <= pre.history.len() + 1,
        post.inv(),
        post.tasks.len() == pre.tasks.len(),
{
    let (t, action) = choose|t: int, action: Action<T>| #[trigger]
        pre.enabled(t, action) && post == pre.after(t, action);
    safety::lemma_step(pre, t, action);
}

/// A published value is never changed or taken back: what has been published by moment `i` is, in
/// the same order, the beginning of what has been published by any later moment `j`.
pub proof fn law_history_grows<T>(run: Seq<System<T>>, data: T, n: nat, i: int, j: int)
    requires
        is_execution(run, data, n),
        0 <= i <= j < run.len(),
    ensures
        run[i].history.is_prefix_of(run[j].history),
        run[i].memory.next_version <= run[j].memory.next_version,
    decreases j,
{
    law_always_safe(run, data, n, i);
    law_always_safe(run, data, n, j);
    if i < j {
        law_history_grows(run, data, n, i, j - 1);
        law_always_safe(run, data, n, j - 1);
        assert(model::steps_to(run[j - 1], run[j - 1 + 1]));
        lemma_step_grows(run[j - 1], run[j]);
        assert(run[i].history =~= run[j].history.subrange(0, run[i].history.len() as int));
    }
}

/// Versions become current one by one: each of those between what was current at `i` and what is
/// current at `j` was so at some moment in between.
proof fn lemma_each_is_current<T>(
    run: Seq<System<T>>,
    data: T,
    n: nat,
    i: int,
    j: int,
    length: nat,
) -> (m: int)
    requires
        is_execution(run, data, n),
        0 <= i <= j < run.len(),
        run[i].history.len() <= length <= run[j].history.len(),
    ensures
        i <= m <= j,
        run[m].history.len() == length,
    decreases j,
{
    if length == run[j].history.len() {
        j
    } else {
        law_always_safe(run, data, n, j - 1);
        assert(model::steps_to(run[j - 1], run[j - 1 + 1]));
        lemma_step_grows(run[j - 1], run[j]);
        lemma_each_is_current(run, data, n, i, j - 1, length)
    }
}

/// What a thread has begun since moment `i` says so.
proof fn lemma_since<T>(run: Seq<System<T>>, data: T, n: nat, t: int, i: int, j: int)
    requires
        is_execution(run, data, n),
        spans(run, t, i, j),
    ensures
        match run[j].tasks[t] {
            Task::Idle => true,
            Task::Read { since, .. } => run[i].memory.next_version <= since,
            Task::Write { since, .. } => run[i].memory.next_version <= since,
        },
    decreases j,
{
    if i < j {
        lemma_since(run, data, n, t, i, j - 1);
        law_history_grows(run, data, n, i, j - 1);
        law_always_safe(run, data, n, j - 1);
        assert(model::steps_to(run[j - 1], run[j - 1 + 1]));
        let (u, action) = choose|u: int, action: Action<T>| #[trigger]
            run[j - 1].enabled(u, action) && run[j] == run[j - 1].after(u, action);
        if u != t {
            assert(run[j].tasks[t] == run[j - 1].tasks[t]);
        }
    }
}

/// Reads are linearizable: the value and version that a read gives were, together, the current
/// ones at some moment between its beginning and its end.
pub proof fn law_read_was_current<T>(
    run: Seq<System<T>>,
    data: T,
    n: nat,
    t: int,
    i: int,
    j: int,
    wrapper: Wrapper<T>,
) -> (m: int)
    requires
        is_execution(run, data, n),
        spans(run, t, i, j),
        has_read(run[j], t, wrapper),
    ensures
        i <= m <= j,
        run[m].memory.next_version == wrapper.version + 1,
        run[m].history.last() == wrapper.data,
{
    law_always_safe(run, data, n, i);
    law_always_safe(run, data, n, j);
    lemma_since(run, data, n, t, i, j);
    assert(run[j].task_ok(run[j].tasks[t]));
    let m = lemma_each_is_current(run, data, n, i, j, (wrapper.version + 1) as nat);
    law_always_safe(run, data, n, m);
    law_history_grows(run, data, n, m, j);
    assert(run[m].history[wrapper.version as int] == run[j].history[wrapper.version as int]);
    m
}

/// What a read has given was published, and remains so: it can be at hand for any later read.
pub proof fn law_read_is_published<T>(
    run: Seq<System<T>>,
    data: T,
    n: nat,
    t: int,
    wrapper: Wrapper<T>,
    i: int,
    j: int,
)
    requires
        is_execution(run, data, n),
        0 <= i <= j < run.len(),
        has_read(run[i], t, wrapper),
    ensures
        run[j].published(wrapper),
{
    law_always_safe(run, data, n, i);
    assert(run[i].task_ok(run[i].tasks[t]));
    law_history_grows(run, data, n, i, j);
}

/// Later reads see no older values: a read that begins after another one has ended gives the
/// same version with the same value, or a higher version. The two may be by any two threads.
pub proof fn law_reads_never_go_back<T>(
    run: Seq<System<T>>,
    data: T,
    n: nat,
    t: int,
    first: Wrapper<T>,
    i: int,
    u: int,
    second: Wrapper<T>,
    j: int,
    k: int,
)
    requires
        is_execution(run, data, n),
        0 <= i <= j,
        has_read(run[i], t, first),
        spans(run, u, j, k),
        has_read(run[k], u, second),
    ensures
        first.version <= second.version,
        first.version == second.version ==> first == second,
{
    law_always_safe(run, data, n, i);
    law_always_safe(run, data, n, k);
    assert(run[i].task_ok(run[i].tasks[t]));
    assert(run[k].task_ok(run[k].tasks[u]));
    law_history_grows(run, data, n, i, j);
    law_history_grows(run, data, n, i, k);
    lemma_since(run, data, n, u, j, k);
}

/// A read gives back what was written: one that begins after a value was published gives that
/// value and its version, unless something else has been published by then, in which case it
/// gives a value of that or a higher version.
pub proof fn law_read_after_write<T>(
    run: Seq<System<T>>,
    data: T,
    n: nat,
    t: int,
    intent: Intent<T>,
    version: Version,
    i: int,
    u: int,
    wrapper: Wrapper<T>,
    j: int,
    k: int,
)
    requires
        is_execution(run, data, n),
        0 <= i <= j,
        has_written(run[i], t, intent, Ok(version)),
        spans(run, u, j, k),
        has_read(run[k], u, wrapper),
    ensures
        wrapper.version >= version,
        wrapper.version == version ==> run[i].fulfils(intent, wrapper.data, version),
        run[k].memory.next_version == version + 1 ==> wrapper.version == version,
{
    law_always_safe(run, data, n, i);
    law_always_safe(run, data, n, k);
    assert(run[i].task_ok(run[i].tasks[t]));
    assert(run[k].task_ok(run[k].tasks[u]));
    law_history_grows(run, data, n, i, j);
    law_history_grows(run, data, n, i, k);
    lemma_since(run, data, n, u, j, k);
}

/// A variable that nobody has written to gives its first value, under version 0.
pub proof fn law_read_of_new<T>(
    run: Seq<System<T>>,
    data: T,
    n: nat,
    t: int,
    j: int,
    wrapper: Wrapper<T>,
)
    requires
        is_execution(run, data, n),
        0 <= j < run.len(),
        has_read(run[j], t, wrapper),
    ensures
        wrapper.version < run[j].memory.next_version,
        wrapper.version == 0 ==> wrapper.data == data,
        run[j].memory.next_version == 1 ==> wrapper == (Wrapper { data, version: 0 }),
{
    law_always_safe(run, data, n, j);
    law_history_grows(run, data, n, 0, j);
    assert(run[j].task_ok(run[j].tasks[t]));
    assert(run[0].history[0] == run[j].history[0]);
}

/// Writes are linearizable: a write that succeeds publishes its value under the version that it
/// gives, right after the version before, at one moment between its beginning and its end.
pub proof fn law_write_took_effect<T>(
    run: Seq<System<T>>,
    data: T,
    n: nat,
    t: int,
    i: int,
    j: int,
    intent: Intent<T>,
    version: Version,
) -> (m: int)
    requires
        is_execution(run, data, n),
        spans(run, t, i, j),
        has_written(run[j], t, intent, Ok(version)),
    ensures
        i <= m < j,
        run[m].memory.next_version == version,
        run[m + 1].memory.next_version == version + 1,
        run[m + 1].history == run[m].history.push(run[m + 1].history.last()),
        run[m].fulfils(intent, run[m + 1].history.last(), version),
{
    law_always_safe(run, data, n, i);
    law_always_safe(run, data, n, j);
    lemma_since(run, data, n, t, i, j);
    assert(run[j].task_ok(run[j].tasks[t]));
    let m = lemma_publication(run, data, n, i, j, version as nat);
    law_always_safe(run, data, n, m);
    law_always_safe(run, data, n, m + 1);
    law_history_grows(run, data, n, m + 1, j);
    law_history_grows(run, data, n, m, m + 1);
    assert(run[m + 1].history[version as int] == run[j].history[version as int]);
    assert(run[m + 1].history =~= run[m].history.push(run[m + 1].history.last()));
    if version >= 1 {
        assert(run[m].history[version - 1] == run[m + 1].history[version - 1]);
        assert(run[m + 1].history[version - 1] == run[j].history[version - 1]);
    }
    m
}

/// A version that becomes current between two moments does so in one step.
proof fn lemma_publication<T>(
    run: Seq<System<T>>,
    data: T,
    n: nat,
    i: int,
    j: int,
    length: nat,
) -> (m: int)
    requires
        is_execution(run, data, n),
        0 <= i <= j < run.len(),
        run[i].history.len() <= length < run[j].history.len(),
    ensures
        i <= m < j,
        run[m].history.len() == length,
        run[m + 1].history.len() == length + 1,
    decreases j,
{
    law_always_safe(run, data, n, j - 1);
    assert(model::steps_to(run[j - 1], run[j - 1 + 1]));
    lemma_step_grows(run[j - 1], run[j]);
    if run[j - 1].history.len() == length {
        j - 1
    } else {
        lemma_publication(run, data, n, i, j - 1, length)
    }
}

/// Writes are numbered in the order in which they take effect: a write that begins after another
/// one has succeeded gets a higher version.
pub proof fn law_versions_follow_time<T>(
    run: Seq<System<T>>,
    data: T,
    n: nat,
    t: int,
    first_intent: Intent<T>,
    first: Version,
    i: int,
    u: int,
    second_intent: Intent<T>,
    second: Version,
    j: int,
    k: int,
)
    requires
        is_execution(run, data, n),
        0 <= i <= j,
        has_written(run[i], t, first_intent, Ok(first)),
        spans(run, u, j, k),
        has_written(run[k], u, second_intent, Ok(second)),
    ensures
        first < second,
{
    law_always_safe(run, data, n, i);
    law_always_safe(run, data, n, k);
    assert(run[i].task_ok(run[i].tasks[t]));
    assert(run[k].task_ok(run[k].tasks[u]));
    law_history_grows(run, data, n, i, j);
    lemma_since(run, data, n, u, j, k);
}

/// No two writes get the same version, even at the same time.
pub proof fn law_versions_differ<T>(
    run: Seq<System<T>>,
    data: T,
    n: nat,
    i: int,
    t: int,
    first_intent: Intent<T>,
    first: Version,
    u: int,
    second_intent: Intent<T>,
    second: Version,
)
    requires
        is_execution(run, data, n),
        0 <= i < run.len(),
        t != u,
        has_written(run[i], t, first_intent, Ok(first)),
        has_written(run[i], u, second_intent, Ok(second)),
    ensures
        first != second,
{
    law_always_safe(run, data, n, i);
    assert(run[i].tasks[t].won() == Some(first));
    assert(run[i].tasks[u].won() == Some(second));
}

/// A compare-and-set that succeeds replaces exactly the value that was expected: its version is
/// the one after the expected one, and its value follows that of the expected version.
pub proof fn law_compare_and_set_replaces<T>(
    run: Seq<System<T>>,
    data: T,
    n: nat,
    t: int,
    i: int,
    value: T,
    expected: Version,
    version: Version,
)
    requires
        is_execution(run, data, n),
        0 <= i < run.len(),
        has_written(
            run[i],
            t,
            Intent::Request { request: Request::CompareAndSet { data: value, expected } },
            Ok(version),
        ),
    ensures
        version == expected + 1,
        version < run[i].history.len(),
        run[i].history[version as int] == value,
{
    law_always_safe(run, data, n, i);
    assert(run[i].task_ok(run[i].tasks[t]));
}

/// No two compare-and-sets that expect the same version succeed.
pub proof fn law_one_compare_and_set_wins<T>(
    run: Seq<System<T>>,
    data: T,
    n: nat,
    i: int,
    t: int,
    first: T,
    first_version: Version,
    u: int,
    second: T,
    second_version: Version,
    first_expected: Version,
    second_expected: Version,
)
    requires
        is_execution(run, data, n),
        0 <= i < run.len(),
        t != u,
        has_written(
            run[i],
            t,
            Intent::Request {
                request: Request::CompareAndSet { data: first, expected: first_expected },
            },
            Ok(first_version),
        ),
        has_written(
            run[i],
            u,
            Intent::Request {
                request: Request::CompareAndSet { data: second, expected: second_expected },
            },
            Ok(second_version),
        ),
    ensures
        first_expected != second_expected,
{
    law_always_safe(run, data, n, i);
    assert(run[i].task_ok(run[i].tasks[t]));
    assert(run[i].task_ok(run[i].tasks[u]));
    assert(run[i].tasks[t].won() == Some(first_version));
    assert(run[i].tasks[u].won() == Some(second_version));
}

/// A compare-and-set that is refused gives back its value with a version that is not the expected
/// one, and that was current at some moment between its beginning and its end.
pub proof fn law_compare_and_set_refuses<T>(
    run: Seq<System<T>>,
    data: T,
    n: nat,
    t: int,
    i: int,
    j: int,
    intent: Intent<T>,
    value: T,
    version: Version,
) -> (m: int)
    requires
        is_execution(run, data, n),
        spans(run, t, i, j),
        has_written(run[j], t, intent, Err((value, version))),
    ensures
        intent matches Intent::Request {
            request: Request::CompareAndSet { data: wanted, expected },
        } && value == wanted && version != expected,
        i <= m <= j,
        run[m].memory.next_version == version + 1,
{
    law_always_safe(run, data, n, i);
    law_always_safe(run, data, n, j);
    lemma_since(run, data, n, t, i, j);
    assert(run[j].task_ok(run[j].tasks[t]));
    let m = lemma_each_is_current(run, data, n, i, j, (version + 1) as nat);
    law_always_safe(run, data, n, m);
    m
}

/// Only a compare-and-set is ever refused.
pub proof fn law_overwrite_succeeds<T>(
    run: Seq<System<T>>,
    data: T,
    n: nat,
    t: int,
    i: int,
    value: T,
    outcome: protocol::Outcome<T>,
)
    requires
        is_execution(run, data, n),
        0 <= i < run.len(),
        has_written(
            run[i],
            t,
            Intent::Request { request: Request::Overwrite { data: value } },
            outcome,
        ),
    ensures
        outcome matches Ok(version) && version < run[i].history.len()
            && run[i].history[version as int] == value,
{
    law_always_safe(run, data, n, i);
    assert(run[i].task_ok(run[i].tasks[t]));
}

/// A refused write leaves everything as it is: it goes straight from finding that the expected
/// version is not the current one to giving its value back, and publishes nothing and puts
/// nothing into a slot on its way.
pub proof fn law_refusal_changes_nothing<T>(
    s: System<T>,
    t: int,
    action: Action<T>,
    value: T,
    expected: Version,
)
    requires
        s.inv(),
        s.enabled(t, action),
        s.tasks[t] matches Task::Write { state, .. } && (state == (WriteState::LoadVersion {
            request: Request::CompareAndSet { data: value, expected },
        }) && expected + 1 != s.memory.next_version || (state matches WriteState::Unlock {
            outcome: Err(_),
        })),
    ensures
        s.after(t, action).history == s.history,
        s.after(t, action).memory.next_version == s.memory.next_version,
        s.after(t, action).memory.slots == s.memory.slots,
        s.tasks[t]->Write_state is LoadVersion ==> s.after(t, action).tasks[t]->Write_state == (
        WriteState::Unlock { outcome: Err((value, (s.memory.next_version - 1) as u64)) }),
        s.tasks[t]->Write_state is Unlock ==> s.after(t, action).tasks[t]->Write_state == (
        WriteState::Done { outcome: s.tasks[t]->Write_state->Unlock_outcome }),
{
}

/// Writers exclude each other.
pub proof fn law_one_writer<T>(run: Seq<System<T>>, data: T, n: nat, i: int, t: int, u: int)
    requires
        is_execution(run, data, n),
        0 <= i < run.len(),
        0 <= t < n,
        0 <= u < n,
        run[i].tasks[t].has_lock(),
        run[i].tasks[u].has_lock(),
    ensures
        t == u,
{
    law_always_safe(run, data, n, i);
    assert(run[i].tasks[t].has_lock() <==> run[i].memory.holder == Some(t));
    assert(run[i].tasks[u].has_lock() <==> run[i].memory.holder == Some(u));
}

/// A reader's slot is left alone: from when a reader has validated its version until it has taken
/// the wrapper, its slot holds the value of that version, and no step of any thread changes that.
pub proof fn law_slot_is_stable<T>(
    run: Seq<System<T>>,
    data: T,
    n: nat,
    i: int,
    t: int,
    version: Version,
    u: int,
    action: Action<T>,
)
    requires
        is_execution(run, data, n),
        0 <= i < run.len(),
        0 <= t < n,
        run[i].tasks[t] matches Task::Read { state, .. } && state == (ReadState::<Wrapper<T>>::Load {
            version,
        }),
        run[i].enabled(u, action),
    ensures
        run[i].memory.slot(protocol::slot_of(version)).wrapper == (Wrapper {
            data: run[i].history[version as int],
            version,
        }),
        run[i].after(u, action).memory.slot(protocol::slot_of(version)).wrapper
            == run[i].memory.slot(protocol::slot_of(version)).wrapper,
{
    law_always_safe(run, data, n, i);
    assert(run[i].task_ok(run[i].tasks[t]));
    assert(run[i].task_ok(run[i].tasks[u]));
}

/// A writer that puts a value into a slot and a reader that takes one from it never meet there.
pub proof fn law_slot_is_uncontended<T>(
    run: Seq<System<T>>,
    data: T,
    n: nat,
    i: int,
    t: int,
    read: Version,
    u: int,
    value: T,
    written: Version,
)
    requires
        is_execution(run, data, n),
        0 <= i < run.len(),
        0 <= t < n,
        0 <= u < n,
        run[i].tasks[t] matches Task::Read { state, .. } && (state == (ReadState::<Wrapper<T>>::Load {
            version: read,
        }) || state == (ReadState::<Wrapper<T>>::LockedLoad { version: read })),
        run[i].tasks[u] matches Task::Write { state, .. } && state == (WriteState::Swap {
            data: value,
            version: written,
        }),
    ensures
        protocol::slot_of(read) != protocol::slot_of(written),
{
    law_always_safe(run, data, n, i);
    assert(run[i].task_ok(run[i].tasks[t]));
    assert(run[i].task_ok(run[i].tasks[u]));
    assert(run[i].tasks[u].replaces());
}

/// No wake-up is lost: while a writer sleeps, a reader is in the slot that the writer waits for,
/// or a thread is on its way to wake it.
pub proof fn law_no_lost_wakeup<T>(run: Seq<System<T>>, data: T, n: nat, i: int) -> (t: int)
    requires
        is_execution(run, data, n),
        0 <= i < run.len(),
        run[i].memory.waiting is Parked,
    ensures
        0 <= t < n,
        run[i].tasks[t].inside(protocol::slot_of(run[i].memory.next_version))
            || run[i].tasks[t].will_signal(run[i].memory.next_version),
{
    law_always_safe(run, data, n, i);
    let s = run[i];
    let slot = protocol::slot_of(s.memory.next_version);
    if s.memory.slot(slot).readers > 0 {
        safety::lemma_counted_is_inside(s.tasks, slot)
    } else {
        choose|t: int|
            0 <= t < s.tasks.len() && (#[trigger] s.tasks[t]).will_signal(s.memory.next_version)
    }
}

/// The thread is in the middle of something.
pub open spec fn is_busy<T>(task: Task<T>) -> bool {
    match task {
        Task::Idle => false,
        Task::Read { state, .. } => !(state is Done),
        Task::Write { state, .. } => !(state is Done),
    }
}

/// The action takes the thread on with what it is in the middle of.
pub open spec fn is_progress<T>(action: Action<T>) -> bool {
    action is Happens || action is Look || action is Commit || action is Park
}

/// A slot has no more readers than there are threads, and fewer if one of them is elsewhere.
proof fn lemma_readers_bounded<T>(tasks: Seq<Task<T>>, slot: usize, t: int)
    requires
        0 <= t < tasks.len(),
    ensures
        safety::readers_in(tasks, slot) <= tasks.len(),
        !tasks[t].inside(slot) ==> safety::readers_in(tasks, slot) < tasks.len(),
    decreases tasks.len(),
{
    let rest = tasks.drop_last();
    if rest.len() > 0 {
        lemma_readers_bounded(rest, slot, if t < rest.len() { t } else { 0 });
    } else {
        assert(safety::readers_in(rest, slot) == 0);
    }
}

/// A busy thread that waits for no one can go on.
proof fn lemma_can_go_on<T>(s: System<T>, t: int) -> (action: Action<T>)
    requires
        s.inv(),
        s.tasks.len() <= u32::MAX,
        s.memory.next_version < u64::MAX,
        0 <= t < s.tasks.len(),
        is_busy(s.tasks[t]),
        s.memory.waiting is Away || s.memory.waiting is Parked,
        s.tasks[t].waits() ==> s.memory.waiting is Away,
        s.memory.holder is None || s.tasks[t].has_lock() || s.tasks[t].inside(0)
            || s.tasks[t].inside(1) || s.tasks[t].will_signal(s.memory.next_version),
    ensures
        s.enabled(t, action),
        is_progress(action),
{
    let memory = s.memory;
    let seen = Event::Version { next_version: memory.next_version };
    lemma_readers_bounded(s.tasks, 0, t);
    lemma_readers_bounded(s.tasks, 1, t);
    assert(s.task_ok(s.tasks[t]));
    match s.tasks[t] {
        Task::Idle => Action::Look,
        Task::Read { state, .. } => {
            let event = match state {
                ReadState::Enter { version } => Event::Entered { slot: protocol::slot_of(version) },
                ReadState::Load { version } => {
                    let slot = protocol::slot_of(version);
                    let wrapper = memory.slot(slot).wrapper;
                    Event::Loaded { slot, wrapper, version: wrapper.version }
                },
                ReadState::LockedLoad { version } => {
                    let slot = protocol::slot_of(version);
                    let wrapper = memory.slot(slot).wrapper;
                    Event::Loaded { slot, wrapper, version: wrapper.version }
                },
                ReadState::Leave { version, .. } => {
                    let slot = protocol::slot_of(version);
                    Event::Left { slot, before: memory.slot(slot).readers as u32 }
                },
                ReadState::Abandon { version } => {
                    let slot = protocol::slot_of(version);
                    Event::Left { slot, before: memory.slot(slot).readers as u32 }
                },
                ReadState::Signal { .. } => Event::Signalled,
                ReadState::SignalRetry => Event::Signalled,
                ReadState::TakeLock => Event::Locked,
                ReadState::Unlock { .. } => Event::Unlocked,
                _ => seen,
            };
            Action::Happens { event }
        },
        Task::Write { state, .. } => match state {
            WriteState::TakeLock { .. } => Action::Happens { event: Event::Locked },
            WriteState::LoadVersion { .. } => Action::Happens { event: seen },
            WriteState::Wait { .. } => Action::Look,
            WriteState::Swap { data, version } => Action::Happens {
                event: Event::Swapped {
                    slot: protocol::slot_of(version),
                    wrapper: Wrapper { data, version },
                },
            },
            WriteState::Advance { .. } => Action::Happens {
                event: Event::Advanced { from: memory.next_version },
            },
            _ => Action::Happens { event: Event::Unlocked },
        },
    }
}

/// There is no deadlock: while a thread is in the middle of something, some thread can go on with
/// what it is in the middle of. The threads are few enough to be counted by the readers' counters,
/// and the version counter can still be advanced.
pub proof fn law_no_deadlock<T>(run: Seq<System<T>>, data: T, n: nat, i: int, busy: int) -> (res: (
    int,
    Action<T>,
))
    requires
        is_execution(run, data, n),
        n <= u32::MAX,
        0 <= i < run.len(),
        run[i].memory.next_version < u64::MAX,
        0 <= busy < n,
        is_busy(run[i].tasks[busy]),
    ensures
        run[i].enabled(res.0, res.1),
        is_progress(res.1),
{
    law_always_safe(run, data, n, i);
    let s = run[i];
    let next_version = s.memory.next_version;
    match s.memory.waiting {
        Waiting::Looking => {
            let writer = s.memory.holder->0;
            let slot = protocol::slot_of(next_version);
            assert(s.task_ok(s.tasks[writer]));
            if s.memory.slot(slot).readers == 0 {
                (writer, Action::Happens { event: Event::Idle { slot, readers: 0 } })
            } else {
                (writer, Action::Commit)
            }
        },
        Waiting::Committed => (s.memory.holder->0, Action::Park),
        Waiting::Parked => {
            let t = law_no_lost_wakeup(run, data, n, i);
            (t, lemma_can_go_on(s, t))
        },
        Waiting::Away => {
            let t = match s.memory.holder {
                Some(holder) => holder,
                None => busy,
            };
            assert(s.tasks[t].has_lock() <==> s.memory.holder == Some(t));
            (t, lemma_can_go_on(s, t))
        },
    }
}

/// What `f` makes of `x` when it is applied `times` times.
pub open spec fn applied<T>(f: spec_fn(T) -> T, times: nat, x: T) -> T
    decreases times,
{
    if times == 0 {
        x
    } else {
        f(applied(f, (times - 1) as nat, x))
    }
}

/// The write is an update by `f`: it writes what `f` makes of a published value, if that value is
/// still current.
pub open spec fn is_update<T>(s: System<T>, intent: Intent<T>, f: spec_fn(T) -> T) -> bool {
    match intent {
        Intent::Request { request: Request::CompareAndSet { data, expected } } => expected
            < s.history.len() && data == f(s.history[expected as int]),
        Intent::Request { request: Request::Overwrite { .. } } => false,
        Intent::Apply { f: g } => g == f,
    }
}

/// All that is ever written in `run` are updates by `f`.
pub open spec fn only_updates<T>(run: Seq<System<T>>, f: spec_fn(T) -> T) -> bool {
    forall|i: int, t: int|
        0 <= i < run.len() && 0 <= t < run[i].tasks.len() ==> ((#[trigger] run[i].tasks[t]) matches Task::Write {
            intent,
            ..
        } ==> is_update(run[i], intent, f))
}

/// To read a value and to compare-and-set what `f` makes of it, with the version that was read,
/// is to update by `f`.
pub proof fn law_read_then_compare_and_set_updates<T>(
    run: Seq<System<T>>,
    data: T,
    n: nat,
    t: int,
    wrapper: Wrapper<T>,
    i: int,
    j: int,
    f: spec_fn(T) -> T,
)
    requires
        is_execution(run, data, n),
        0 <= i <= j < run.len(),
        has_read(run[i], t, wrapper),
    ensures
        is_update(
            run[j],
            Intent::Request {
                request: Request::CompareAndSet {
                    data: f(wrapper.data),
                    expected: wrapper.version,
                },
            },
            f,
        ),
{
    law_always_safe(run, data, n, i);
    assert(run[i].task_ok(run[i].tasks[t]));
    law_history_grows(run, data, n, i, j);
}

/// An update that succeeds publishes what `f` makes of the value right before it.
pub proof fn law_update_applies_once<T>(
    run: Seq<System<T>>,
    data: T,
    n: nat,
    t: int,
    i: int,
    intent: Intent<T>,
    version: Version,
    f: spec_fn(T) -> T,
)
    requires
        is_execution(run, data, n),
        0 <= i < run.len(),
        has_written(run[i], t, intent, Ok(version)),
        is_update(run[i], intent, f),
    ensures
        1 <= version < run[i].history.len(),
        run[i].history[version as int] == f(run[i].history[version - 1]),
{
    law_always_safe(run, data, n, i);
    assert(run[i].task_ok(run[i].tasks[t]));
}

/// No update is lost: if all that is written are updates by `f`, then each version holds what `f`
/// makes of the first value when it is applied as often as the version says.
pub proof fn law_no_update_is_lost<T>(
    run: Seq<System<T>>,
    data: T,
    n: nat,
    f: spec_fn(T) -> T,
    i: int,
    version: nat,
)
    requires
        is_execution(run, data, n),
        only_updates(run, f),
        0 <= i < run.len(),
        version < run[i].history.len(),
    ensures
        run[i].history[version as int] == applied(f, version, data),
    decreases i, version,
{
    law_always_safe(run, data, n, i);
    if i > 0 {
        law_always_safe(run, data, n, i - 1);
        assert(model::steps_to(run[i - 1], run[i - 1 + 1]));
        lemma_step_grows(run[i - 1], run[i]);
        if version < run[i - 1].history.len() {
            law_no_update_is_lost(run, data, n, f, i - 1, version);
            assert(run[i - 1].history[version as int] == run[i].history[version as int]);
        } else {
            let (t, action) = choose|t: int, action: Action<T>| #[trigger]
                run[i - 1].enabled(t, action) && run[i] == run[i - 1].after(t, action);
            law_no_update_is_lost(run, data, n, f, i - 1, (version - 1) as nat);
            assert(run[i - 1].task_ok(run[i - 1].tasks[t]));
            assert(run[i - 1].tasks[t] is Write);
        }
    }
}

} // verus!
