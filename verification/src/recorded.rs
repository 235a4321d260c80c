//! What the records of several threads say together.
//!
//! Each operation leaves a record of its events. Put in the order in which they happened to the
//! shared memory, the events of all operations are a log. Such a log is an execution of a
//! [`System`], so all that holds of executions holds of what the operations return.
use crate::laws;
use crate::model;
use crate::model::{Action, Intent, Memory, System, Task, Waiting};
use crate::protocol;
use crate::protocol::{Event, Outcome, ReadState, Request, Version, Wrapper, WriteState};
use vstd::prelude::*;

verus! {

/// An operation. Each is thought of as a thread of its own. An attempt at an update is two of them:
/// a read, and a compare-and-set that expects what was read.
#[verifier::reject_recursive_types(T)]
pub enum Operation<T> {
    /// A read by a thread that has `known` at hand from an earlier one.
    Read { known: Option<Wrapper<T>> },
    Write { request: Request<T> },
    /// An update under the write lock: a read that takes the lock, and keeps it until what `f` makes
    /// of the value has been published.
    Update { f: spec_fn(T) -> T },
}

/// How far a thread has come in an update under the write lock.
#[allow(inconsistent_fields)]
pub enum UpdateState<T> {
    Reading { state: ReadState<Wrapper<T>> },
    Writing { state: WriteState<T> },
}

impl<T> UpdateState<T> {
    /// What a thread that is to update by `f` has done last when `event` comes next: holding the
    /// write lock, it goes on from reading to writing.
    pub open spec fn turned(self, f: spec_fn(T) -> T, event: Event<Wrapper<T>>) -> UpdateState<T> {
        match self {
            UpdateState::Reading { state: ReadState::Unlock { wrapper, found } } if event is Idle => {
                let state = WriteState::Wait {
                    data: f(wrapper.data),
                    version: protocol::successor(found),
                };
                UpdateState::Writing { state }
            },
            _ => self,
        }
    }

    /// Whether `event` is one that the protocol has come next. The lock is not released between
    /// reading and writing.
    pub open spec fn accepts(self, event: Event<Wrapper<T>>) -> bool {
        match self {
            UpdateState::Reading { state } => !(state is Unlock) && state.accepts(event),
            UpdateState::Writing { state } => state.accepts(event),
        }
    }

    /// Where `event` leads.
    pub open spec fn next(self, event: Event<Wrapper<T>>) -> UpdateState<T> {
        match self {
            UpdateState::Reading { state } => UpdateState::Reading { state: state.next(event) },
            UpdateState::Writing { state } => UpdateState::Writing { state: state.next(event) },
        }
    }

    /// Where `events` lead in an update by `f`, one after the other; nowhere if the protocol does
    /// not have them come in this order.
    pub open spec fn reach(f: spec_fn(T) -> T, events: Seq<Event<Wrapper<T>>>) -> Option<
        UpdateState<T>,
    >
        decreases events.len(),
    {
        if events.len() == 0 {
            Some(UpdateState::Reading { state: ReadState::Start })
        } else {
            match Self::reach(f, events.drop_last()) {
                Some(state) => {
                    let state = state.turned(f, events.last());
                    if state.accepts(events.last()) {
                        Some(state.next(events.last()))
                    } else {
                        None
                    }
                },
                None => None,
            }
        }
    }
}

/// Events in the order in which they happened, each with the operation that it belongs to.
pub type Log<T> = Seq<(int, Event<Wrapper<T>>)>;

/// The events of operation `t`.
pub open spec fn events_of<T>(log: Log<T>, t: int) -> Seq<Event<Wrapper<T>>>
    decreases log.len(),
{
    if log.len() == 0 {
        Seq::empty()
    } else if log.last().0 == t {
        events_of(log.drop_last(), t).push(log.last().1)
    } else {
        events_of(log.drop_last(), t)
    }
}

/// The memory in which `event` happens: a writer that waits for its slot takes the signal lock
/// right before it sees that there are no readers.
pub open spec fn ready<T>(memory: Memory<T>, event: Event<Wrapper<T>>) -> Memory<T> {
    if event is Idle {
        Memory { waiting: Waiting::Looking, ..memory }
    } else {
        memory
    }
}

/// The memory after all of `log` has happened to `memory`; `None` if it could not have happened.
pub open spec fn memory_after<T>(memory: Memory<T>, log: Log<T>) -> Option<Memory<T>>
    decreases log.len(),
{
    if log.len() == 0 {
        Some(memory)
    } else {
        match memory_after(memory, log.drop_last()) {
            Some(memory) => {
                let (t, event) = log.last();
                let memory = ready(memory, event);
                if memory.allows(t, event) {
                    Some(memory.after(t, event))
                } else {
                    None
                }
            },
            None => None,
        }
    }
}

/// The protocol has these events come in this order in an operation, complete or not.
pub open spec fn follows<T>(operation: Operation<T>, events: Seq<Event<Wrapper<T>>>) -> bool {
    match operation {
        Operation::Read { known } => protocol::read_from(known).reach(events) is Some,
        Operation::Write { request } => WriteState::TakeLock { request }.reach(events) is Some,
        Operation::Update { f } => UpdateState::reach(f, events) is Some,
    }
}

/// How far an operation that writes has come with its write, once it has begun with it.
pub open spec fn writing<T>(operation: Operation<T>, events: Seq<Event<Wrapper<T>>>) -> Option<
    WriteState<T>,
> {
    match operation {
        Operation::Read { .. } => None,
        Operation::Write { request } => WriteState::TakeLock { request }.reach(events),
        Operation::Update { f } => match UpdateState::reach(f, events) {
            Some(UpdateState::Writing { state }) => Some(state),
            _ => None,
        },
    }
}

/// The operation has written, and its write came to `outcome`.
pub open spec fn comes_to<T>(
    operation: Operation<T>,
    events: Seq<Event<Wrapper<T>>>,
    outcome: Outcome<T>,
) -> bool {
    writing(operation, events) == Some(WriteState::Done { outcome })
}

/// The operation has published its value, under `version`, whether it is over or not.
pub open spec fn publishes<T>(
    operation: Operation<T>,
    events: Seq<Event<Wrapper<T>>>,
    version: Version,
) -> bool {
    ||| writing(operation, events) == Some(WriteState::<T>::Unlock { outcome: Ok(version) })
    ||| writing(operation, events) == Some(WriteState::<T>::Done { outcome: Ok(version) })
}

/// What an operation that writes is to bring about.
pub open spec fn intent_of<T>(operation: Operation<T>) -> Intent<T>
    recommends
        !(operation is Read),
{
    match operation {
        Operation::Read { .. } => arbitrary(),
        Operation::Write { request } => Intent::Request { request },
        Operation::Update { f } => Intent::Apply { f },
    }
}

/// After the first `k` events of `log`, `wrapper` was the current value.
pub open spec fn is_current<T>(log: Log<T>, data: T, k: int, wrapper: Wrapper<T>) -> bool {
    memory_after(Memory::initial(data), log.take(k)) matches Some(memory) && memory.current()
        == wrapper && memory.next_version == wrapper.version + 1
}

/// `wrapper` was the current value at some time before operation `t` began.
pub open spec fn was_current<T>(log: Log<T>, data: T, t: int, wrapper: Wrapper<T>) -> bool {
    exists|k: int|
        0 <= k <= log.len() && events_of(log.take(k), t).len() == 0 && #[trigger] is_current(
            log,
            data,
            k,
            wrapper,
        )
}

/// `log` is what happened to a new memory whose first value is `data`: what the memory allowed, and
/// for each of `operations` what the protocol has. What a read has at hand was current before the
/// read began.
pub open spec fn is_log<T>(log: Log<T>, operations: Seq<Operation<T>>, data: T) -> bool {
    &&& memory_after(Memory::initial(data), log) is Some
    &&& forall|k: int| 0 <= k < log.len() ==> 0 <= (#[trigger] log[k]).0 < operations.len()
    &&& forall|t: int|
        0 <= t < operations.len() ==> follows(#[trigger] operations[t], events_of(log, t))
    &&& forall|t: int|
        0 <= t < operations.len() && events_of(log, t).len() > 0 ==> ((
        #[trigger] operations[t]) matches Operation::Read { known: Some(wrapper) } ==> was_current(
            log,
            data,
            t,
            wrapper,
        ))
}

/// What a thread of `s` is to do first for `operation`, if it has not begun.
spec fn begun<T>(s: System<T>, operation: Operation<T>, t: int) -> Seq<System<T>> {
    if s.tasks[t] is Idle {
        match operation {
            Operation::Read { known } => seq![s.after(t, Action::BeginRead { known })],
            Operation::Write { request } => seq![s.after(t, Action::BeginWrite { request })],
            Operation::Update { .. } => seq![s.after(t, Action::BeginRead { known: None })],
        }
    } else {
        seq![]
    }
}

/// What a thread of `s` is to do for `operation` between reading and writing, if `event` comes next.
spec fn turned<T>(
    s: System<T>,
    operation: Operation<T>,
    t: int,
    event: Event<Wrapper<T>>,
) -> Seq<System<T>> {
    match operation {
        Operation::Update { f } if event is Idle => seq![s.after(t, Action::GoOn { f })],
        _ => seq![],
    }
}

/// What becomes of `run` when `event` happens to thread `t`, whose operation is `operation`.
#[verifier::opaque]
spec fn extended<T>(
    run: Seq<System<T>>,
    operation: Operation<T>,
    t: int,
    event: Event<Wrapper<T>>,
) -> Seq<System<T>> {
    let run = run + begun(run.last(), operation, t);
    let run = run + turned(run.last(), operation, t, event);
    let run = if event is Idle {
        run.push(run.last().after(t, Action::Look))
    } else {
        run
    };
    run.push(run.last().after(t, Action::Happens { event }))
}

/// Until the event happens, slots and version counter stay as they are.
proof fn lemma_extended<T>(
    run: Seq<System<T>>,
    operation: Operation<T>,
    t: int,
    event: Event<Wrapper<T>>,
)
    requires
        run.len() > 0,
    ensures
        run.is_prefix_of(extended(run, operation, t, event)),
        extended(run, operation, t, event).len() > run.len(),
        forall|m: int|
            run.len() <= m < extended(run, operation, t, event).len() - 1 ==> {
                let memory = (#[trigger] extended(run, operation, t, event)[m]).memory;
                &&& memory.slots == run.last().memory.slots
                &&& memory.next_version == run.last().memory.next_version
            },
{
    reveal(extended);
    let second = run + begun(run.last(), operation, t);
    let third = second + turned(second.last(), operation, t, event);
    let whole = extended(run, operation, t, event);
    assert(second.last().memory.slots == run.last().memory.slots);
    assert(third.last().memory.slots == run.last().memory.slots);
    assert(run =~= whole.subrange(0, run.len() as int));
}

/// An update under the write lock has been handed its turn to write by the time it writes.
proof fn lemma_update_turned<T>(f: spec_fn(T) -> T, events: Seq<Event<Wrapper<T>>>)
    ensures
        UpdateState::reach(f, events) matches Some(UpdateState::Writing { state }) ==> !(
        state is Wait) && !(state is TakeLock) && !(state is LoadVersion),
    decreases events.len(),
{
    if events.len() > 0 {
        lemma_update_turned(f, events.drop_last());
    }
}

/// The execution that `log` is.
pub closed spec fn execution<T>(log: Log<T>, operations: Seq<Operation<T>>, data: T) -> Seq<
    System<T>,
>
    decreases log.len(),
{
    if log.len() == 0 {
        seq![System::initial(data, operations.len())]
    } else {
        let (t, event) = log.last();
        extended(execution(log.drop_last(), operations, data), operations[t], t, event)
    }
}

/// Thread `t` of `s` has come as far in `operation` as `events` say.
pub open spec fn agrees<T>(
    s: System<T>,
    t: int,
    operation: Operation<T>,
    events: Seq<Event<Wrapper<T>>>,
) -> bool {
    if events.len() == 0 {
        s.tasks[t] is Idle
    } else {
        match operation {
            Operation::Read { known } => s.tasks[t] matches Task::Read { state, .. }
                && protocol::read_from(known).reach(events) == Some(state),
            Operation::Write { request } => s.tasks[t] matches Task::Write { state, intent, .. }
                && WriteState::TakeLock { request }.reach(events) == Some(state) && intent
                == (Intent::Request { request }),
            Operation::Update { f } => match s.tasks[t] {
                Task::Idle => false,
                Task::Read { state, .. } => UpdateState::reach(f, events) == Some(
                    UpdateState::Reading { state },
                ),
                Task::Write { state, intent, .. } => UpdateState::reach(f, events) == Some(
                    UpdateState::Writing { state },
                ) && intent == (Intent::Apply { f }),
            },
        }
    }
}

proof fn lemma_run_push<T>(run: Seq<System<T>>, t: int, action: Action<T>)
    requires
        run.len() > 0,
        model::is_run(run),
        run.last().enabled(t, action),
    ensures
        model::is_run(run.push(run.last().after(t, action))),
{
    let next = run.last().after(t, action);
    let longer = run.push(next);
    assert(model::steps_to(run.last(), next));
    assert forall|i: int| 0 <= i < longer.len() - 1 implies #[trigger] model::steps_to(
        longer[i],
        longer[i + 1],
    ) by {
        if i < run.len() - 1 {
            assert(model::steps_to(run[i], run[i + 1]));
        }
    }
}

/// The beginning of a log is a log.
pub(crate) proof fn lemma_shorter<T>(log: Log<T>, operations: Seq<Operation<T>>, data: T)
    requires
        is_log(log, operations, data),
        log.len() > 0,
    ensures
        is_log(log.drop_last(), operations, data),
{
    let shorter = log.drop_last();
    assert forall|k: int| 0 <= k < shorter.len() implies 0 <= (#[trigger] shorter[k]).0
        < operations.len() by {
        assert(shorter[k] == log[k]);
    }
    assert forall|t: int| 0 <= t < operations.len() implies follows(
        #[trigger] operations[t],
        events_of(shorter, t),
    ) by {
        assert(follows(operations[t], events_of(log, t)));
        if log.last().0 == t {
            assert(events_of(log, t).drop_last() =~= events_of(shorter, t));
        }
    }
    assert forall|t: int|
        0 <= t < operations.len() && events_of(shorter, t).len() > 0 implies ((
    #[trigger] operations[t]) matches Operation::Read { known: Some(wrapper) } ==> was_current(
        shorter,
        data,
        t,
        wrapper,
    )) by {
        if let Operation::Read { known: Some(wrapper) } = operations[t] {
            assert(was_current(log, data, t, wrapper));
            let k = choose|k: int|
                0 <= k <= log.len() && events_of(log.take(k), t).len() == 0
                    && #[trigger] is_current(log, data, k, wrapper);
            assert(log.take(log.len() as int) =~= log);
            assert(shorter.take(k) =~= log.take(k));
            assert(is_current(shorter, data, k, wrapper));
        }
    }
}

/// What a read has at hand when its first event comes is published by then.
proof fn lemma_known_is_published<T>(
    log: Log<T>,
    operations: Seq<Operation<T>>,
    data: T,
    t: int,
    wrapper: Wrapper<T>,
)
    requires
        is_log(log, operations, data),
        log.len() > 0,
        log.last().0 == t,
        0 <= t < operations.len(),
        operations[t] == (Operation::Read { known: Some(wrapper) }),
    ensures
        execution(log.drop_last(), operations, data).last().published(wrapper),
    decreases log.len() - 1, 2int,
{
    let shorter = log.drop_last();
    let n = operations.len();
    lemma_shorter(log, operations, data);
    assert(was_current(log, data, t, wrapper));
    let k = choose|k: int|
        0 <= k <= log.len() && events_of(log.take(k), t).len() == 0 && #[trigger] is_current(
            log,
            data,
            k,
            wrapper,
        );
    assert(log.take(log.len() as int) =~= log);
    assert(shorter.take(k) =~= log.take(k));
    let run = execution(shorter, operations, data);
    let beginning = execution(shorter.take(k), operations, data);
    lemma_beginning(shorter, operations, data, k);
    law_log_is_execution(shorter, operations, data);
    law_log_is_execution(shorter.take(k), operations, data);
    laws::law_always_safe(beginning, data, n, beginning.len() - 1);
    assert(run[beginning.len() - 1] == beginning.last());
    laws::law_history_grows(run, data, n, beginning.len() - 1, run.len() - 1);
}

/// A log is an execution: of threads that each do one operation, which have come as far at its end
/// as their events say, on a memory that is then what the log made of it.
pub proof fn law_log_is_execution<T>(log: Log<T>, operations: Seq<Operation<T>>, data: T)
    requires
        is_log(log, operations, data),
    ensures
        laws::is_execution(execution(log, operations, data), data, operations.len()),
        Some(execution(log, operations, data).last().memory) == memory_after(
            Memory::initial(data),
            log,
        ),
        execution(log, operations, data).last().tasks.len() == operations.len(),
        forall|t: int|
            0 <= t < operations.len() ==> agrees(
                execution(log, operations, data).last(),
                t,
                #[trigger] operations[t],
                events_of(log, t),
            ),
        execution(log, operations, data).last().memory.waiting is Away,
    decreases log.len(), 0int,
{
    let run = execution(log, operations, data);
    if log.len() > 0 {
        let shorter = log.drop_last();
        lemma_shorter(log, operations, data);
        law_log_is_execution(shorter, operations, data);
        let first = execution(shorter, operations, data);
        let s = first.last();
        let (t, event) = log.last();
        assert(log[log.len() - 1] == log.last());
        let operation = operations[t];
        assert(agrees(s, t, operation, events_of(shorter, t)));
        assert(follows(operation, events_of(log, t)));
        assert(events_of(log, t).drop_last() =~= events_of(shorter, t));
        reveal(extended);
        let second = first + begun(s, operation, t);
        if s.tasks[t] is Idle {
            match operation {
                Operation::Read { known } => {
                    if let Some(wrapper) = known {
                        lemma_known_is_published(log, operations, data, t, wrapper);
                    }
                    lemma_run_push(first, t, Action::BeginRead { known });
                    assert(second =~= first.push(s.after(t, Action::BeginRead { known })));
                },
                Operation::Write { request } => {
                    lemma_run_push(first, t, Action::BeginWrite { request });
                    assert(second =~= first.push(s.after(t, Action::BeginWrite { request })));
                },
                Operation::Update { .. } => {
                    let known = None::<Wrapper<T>>;
                    lemma_run_push(first, t, Action::BeginRead { known });
                    assert(second =~= first.push(s.after(t, Action::BeginRead { known })));
                },
            }
        } else {
            assert(second =~= first);
        }
        let third = second + turned(second.last(), operation, t, event);
        if let Operation::Update { f } = operation {
            if event is Idle {
                lemma_update_turned(f, events_of(shorter, t));
                lemma_run_push(second, t, Action::GoOn { f });
                assert(third =~= second.push(second.last().after(t, Action::GoOn { f })));
            }
        }
        if !(operation is Update && event is Idle) {
            assert(third =~= second);
        }
        let fourth = if event is Idle {
            lemma_run_push(third, t, Action::Look);
            third.push(third.last().after(t, Action::Look))
        } else {
            third
        };
        lemma_run_push(fourth, t, Action::Happens { event });
        assert(run =~= fourth.push(fourth.last().after(t, Action::Happens { event })));
        assert(run[0] == first[0]);
        assert forall|u: int| 0 <= u < operations.len() implies agrees(
            run.last(),
            u,
            #[trigger] operations[u],
            events_of(log, u),
        ) by {
            assert(agrees(s, u, operations[u], events_of(shorter, u)));
        }
    }
}

/// The beginning of a log is the beginning of the execution.
pub(crate) proof fn lemma_beginning<T>(log: Log<T>, operations: Seq<Operation<T>>, data: T, k: int)
    requires
        is_log(log, operations, data),
        0 <= k <= log.len(),
    ensures
        is_log(log.take(k), operations, data),
        execution(log.take(k), operations, data).is_prefix_of(execution(log, operations, data)),
        execution(log.take(k), operations, data).len() > 0,
    decreases log.len(), 1int,
{
    let run = execution(log, operations, data);
    law_log_is_execution(log, operations, data);
    if k == log.len() {
        assert(log.take(k) =~= log);
        assert(run =~= run.subrange(0, run.len() as int));
    } else {
        let shorter = log.drop_last();
        lemma_shorter(log, operations, data);
        lemma_beginning(shorter, operations, data, k);
        assert(shorter.take(k) =~= log.take(k));
        let first = execution(shorter, operations, data);
        lemma_extended(first, operations[log.last().0], log.last().0, log.last().1);
        let beginning = execution(log.take(k), operations, data);
        assert(beginning =~= run.subrange(0, beginning.len() as int));
    }
}

/// At each moment of the execution, slots and version counter are as they were after some event.
pub(crate) proof fn lemma_moment<T>(
    log: Log<T>,
    operations: Seq<Operation<T>>,
    data: T,
    from: int,
    m: int,
) -> (k: int)
    requires
        is_log(log, operations, data),
        0 <= from <= log.len(),
        execution(log.take(from), operations, data).len() - 1 <= m < execution(
            log,
            operations,
            data,
        ).len(),
    ensures
        from <= k <= log.len(),
        memory_after(Memory::initial(data), log.take(k)) matches Some(memory) && memory.slots
            == execution(log, operations, data)[m].memory.slots && memory.next_version
            == execution(log, operations, data)[m].memory.next_version,
    decreases log.len(),
{
    let run = execution(log, operations, data);
    law_log_is_execution(log, operations, data);
    lemma_beginning(log, operations, data, from);
    assert(log.take(log.len() as int) =~= log);
    if m == run.len() - 1 {
        log.len() as int
    } else if from == log.len() {
        from
    } else {
        let shorter = log.drop_last();
        let first = execution(shorter, operations, data);
        lemma_shorter(log, operations, data);
        law_log_is_execution(shorter, operations, data);
        assert(shorter.take(from) =~= log.take(from));
        lemma_extended(first, operations[log.last().0], log.last().0, log.last().1);
        if m < first.len() {
            let k = lemma_moment(shorter, operations, data, from, m);
            assert(shorter.take(k) =~= log.take(k));
            assert(run[m] == first[m]);
            k
        } else {
            assert(log.take(log.len() - 1) =~= shorter);
            log.len() - 1
        }
    }
}

/// A version that becomes current does so with one event.
pub(crate) proof fn lemma_publishing_event<T>(
    log: Log<T>,
    operations: Seq<Operation<T>>,
    data: T,
    from: int,
    version: Version,
) -> (k: int)
    requires
        is_log(log, operations, data),
        0 <= from <= log.len(),
        memory_after(Memory::initial(data), log.take(from)) matches Some(memory)
            && memory.next_version <= version,
        version < memory_after(Memory::initial(data), log)->0.next_version,
    ensures
        from <= k < log.len(),
        memory_after(Memory::initial(data), log.take(k)) matches Some(memory)
            && memory.next_version == version,
        memory_after(Memory::initial(data), log.take(k + 1)) matches Some(memory)
            && memory.next_version == version + 1,
    decreases log.len(),
{
    assert(log.take(log.len() as int) =~= log);
    let shorter = log.drop_last();
    lemma_shorter(log, operations, data);
    assert(log.take(log.len() - 1) =~= shorter);
    if memory_after(Memory::initial(data), shorter)->0.next_version <= version {
        log.len() - 1
    } else {
        assert(shorter.take(from) =~= log.take(from));
        let k = lemma_publishing_event(shorter, operations, data, from, version);
        assert(shorter.take(k) =~= log.take(k));
        assert(shorter.take(k + 1) =~= log.take(k + 1));
        k
    }
}

} // verus!
