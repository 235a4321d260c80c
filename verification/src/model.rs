//! Any number of threads that follow the protocol on one shared memory, in any interleaving.
//!
//! A [`System`] is the shared memory with all its threads at one moment; an [`Action`] is one
//! step of one thread. The memory is sequentially consistent: each event takes effect at once and
//! is seen by all.
use crate::protocol;
use crate::protocol::{Event, ReadState, Request, Version, Wrapper, WriteState};
use vstd::prelude::*;

verus! {

/// How far the writer has come that sleeps until its slot is free of readers.
pub enum Waiting {
    /// There is none, or it has yet to take the signal lock.
    Away,
    /// It holds the signal lock and will count the readers.
    Looking,
    /// It holds the signal lock, saw readers in the slot and will fall asleep.
    Committed,
    /// It sleeps, having released the signal lock, until it is woken.
    Parked,
}

/// One of the two places that a value can be in.
pub struct Slot<T> {
    pub wrapper: Wrapper<T>,
    pub readers: nat,
}

/// What the threads share.
pub struct Memory<T> {
    pub slots: Seq<Slot<T>>,
    pub next_version: u64,
    /// The thread that holds the write lock.
    pub holder: Option<int>,
    pub waiting: Waiting,
}

impl<T> Memory<T> {
    /// The memory as it is before any thread uses it, with `data` as the first value.
    pub open spec fn initial(data: T) -> Memory<T> {
        let slot = Slot { wrapper: Wrapper { data, version: 0 }, readers: 0 };
        Memory {
            slots: seq![slot, slot],
            next_version: 1,
            holder: None,
            waiting: Waiting::Away,
        }
    }

    pub open spec fn slot(self, slot: usize) -> Slot<T> {
        self.slots[slot as int]
    }

    pub open spec fn with_slot(self, slot: usize, new: Slot<T>) -> Memory<T> {
        Memory { slots: self.slots.update(slot as int, new), ..self }
    }

    /// Whether `event` can happen to thread `t` now. What a thread sees is what the memory holds;
    /// a lock can be taken while nobody has it; counters must not overflow.
    pub open spec fn allows(self, t: int, event: Event<Wrapper<T>>) -> bool {
        match event {
            Event::Version { next_version } => next_version == self.next_version,
            Event::Entered { slot } => slot < 2 && self.slot(slot).readers < u32::MAX,
            Event::Loaded { slot, wrapper, version } => slot < 2 && wrapper == self.slot(
                slot,
            ).wrapper && version == wrapper.version,
            Event::Left { slot, before } => slot < 2 && before == self.slot(slot).readers,
            Event::Signalled => self.waiting is Away || self.waiting is Parked,
            Event::GaveUp => true,
            Event::Locked => self.holder is None,
            Event::Unlocked => self.holder == Some(t),
            Event::Idle { slot, readers } => slot < 2 && self.waiting is Looking && readers
                == self.slot(slot).readers,
            Event::Swapped { slot, .. } => slot < 2,
            Event::Advanced { from } => from == self.next_version && from < u64::MAX,
        }
    }

    /// The memory after `event` happened to thread `t`.
    pub open spec fn after(self, t: int, event: Event<Wrapper<T>>) -> Memory<T> {
        match event {
            Event::Entered { slot } => self.with_slot(
                slot,
                Slot { readers: self.slot(slot).readers + 1, ..self.slot(slot) },
            ),
            Event::Left { slot, .. } => self.with_slot(
                slot,
                Slot { readers: (self.slot(slot).readers - 1) as nat, ..self.slot(slot) },
            ),
            Event::Signalled => Memory { waiting: Waiting::Away, ..self },
            Event::Locked => Memory { holder: Some(t), ..self },
            Event::Unlocked => Memory { holder: None, ..self },
            Event::Idle { .. } => Memory { waiting: Waiting::Away, ..self },
            Event::Swapped { slot, wrapper } => self.with_slot(
                slot,
                Slot { wrapper, ..self.slot(slot) },
            ),
            Event::Advanced { from } => Memory { next_version: (from + 1) as u64, ..self },
            _ => self,
        }
    }
}

/// What a write is to bring about.
#[verifier::reject_recursive_types(T)]
pub enum Intent<T> {
    Request { request: Request<T> },
    /// Replace the current value by what `f` makes of it.
    Apply { f: spec_fn(T) -> T },
}

/// What a thread is doing. `since` is what the version counter held when it began.
#[allow(inconsistent_fields)]
#[verifier::reject_recursive_types(T)]
pub enum Task<T> {
    Idle,
    Read { state: ReadState<Wrapper<T>>, since: u64 },
    Write { state: WriteState<T>, intent: Intent<T>, since: u64 },
}

impl<T> Task<T> {
    /// Whether the thread counts among the readers of `slot`.
    pub open spec fn inside(self, slot: usize) -> bool {
        match self {
            Task::Read { state: ReadState::Validate { version }, .. } => protocol::slot_of(version) == slot,
            Task::Read { state: ReadState::Load { version }, .. } => protocol::slot_of(version) == slot,
            Task::Read { state: ReadState::Leave { version, .. }, .. } => protocol::slot_of(version) == slot,
            Task::Read { state: ReadState::Abandon { version }, .. } => protocol::slot_of(version) == slot,
            _ => false,
        }
    }

    /// Whether the thread has the write lock.
    pub open spec fn has_lock(self) -> bool {
        match self {
            Task::Idle => false,
            Task::Read { state, .. } => state is LockedVersion || state is LockedLoad
                || state is Unlock,
            Task::Write { state, .. } => !(state is TakeLock || state is Done),
        }
    }

    /// Whether the thread is a writer that waits for its slot to be free of readers.
    pub open spec fn waits(self) -> bool {
        self matches Task::Write { state: WriteState::Wait { .. }, .. }
    }

    /// Whether the thread is a writer that has found its slot free of readers, and has not
    /// published yet.
    pub open spec fn replaces(self) -> bool {
        match self {
            Task::Write { state: WriteState::Swap { .. }, .. } => true,
            Task::Write { state: WriteState::Advance { .. }, .. } => true,
            _ => false,
        }
    }

    /// Whether the thread will wake a sleeping writer, the version counter staying as it is.
    pub open spec fn will_signal(self, next_version: u64) -> bool {
        match self {
            Task::Read { state: ReadState::Signal { .. }, .. } => true,
            Task::Read { state: ReadState::SignalRetry, .. } => true,
            Task::Read { state: ReadState::Recheck { found, .. }, .. } => found != protocol::current(
                next_version,
            ),
            _ => false,
        }
    }

    /// The version that the thread has published its value under.
    pub open spec fn won(self) -> Option<Version> {
        match self {
            Task::Write { state: WriteState::Unlock { outcome: Ok(version) }, .. } => Some(version),
            Task::Write { state: WriteState::Done { outcome: Ok(version) }, .. } => Some(version),
            _ => None,
        }
    }
}

/// One step of one thread.
#[verifier::reject_recursive_types(T)]
pub enum Action<T> {
    /// It begins to read, with `known` at hand, a published value that it got from an earlier read.
    BeginRead { known: Option<Wrapper<T>> },
    BeginWrite { request: Request<T> },
    /// `event` happens to it.
    Happens { event: Event<Wrapper<T>> },
    /// Holding the write lock for a read, it goes on to write what `f` makes of the value.
    GoOn { f: spec_fn(T) -> T },
    /// Waiting for its slot to be free of readers, it takes the signal lock.
    Look,
    /// It sees readers in the slot.
    Commit,
    /// It falls asleep.
    Park,
    /// It is done, and ready to begin anew.
    End,
}

/// The memory and all threads at one moment. `history` holds all values published so far, in
/// order.
#[verifier::reject_recursive_types(T)]
pub struct System<T> {
    pub memory: Memory<T>,
    pub tasks: Seq<Task<T>>,
    pub history: Seq<T>,
}

impl<T> System<T> {
    /// `n` idle threads on a new memory, with `data` as the first value.
    pub open spec fn initial(data: T, n: nat) -> System<T> {
        System {
            memory: Memory::initial(data),
            tasks: Seq::new(n, |t: int| Task::Idle),
            history: seq![data],
        }
    }

    /// `wrapper` is one of the published values, with its version.
    pub open spec fn published(self, wrapper: Wrapper<T>) -> bool {
        &&& wrapper.version < self.history.len()
        &&& self.history[wrapper.version as int] == wrapper.data
    }

    /// Whether thread `t` can do `action` now.
    pub open spec fn enabled(self, t: int, action: Action<T>) -> bool {
        &&& 0 <= t < self.tasks.len()
        &&& match (action, self.tasks[t]) {
            (Action::BeginRead { known }, Task::Idle) => known matches Some(wrapper)
                ==> self.published(wrapper),
            (Action::BeginWrite { .. }, Task::Idle) => true,
            (Action::Happens { event }, Task::Read { state, .. }) => state.accepts(event)
                && self.memory.allows(t, event),
            (Action::Happens { event }, Task::Write { state, .. }) => state.accepts(event)
                && self.memory.allows(t, event),
            (Action::GoOn { .. }, Task::Read { state: ReadState::Unlock { .. }, .. }) => true,
            (
                Action::Look,
                Task::Write { state: WriteState::Wait { .. }, .. },
            ) => self.memory.waiting is Away,
            (
                Action::Commit,
                Task::Write { state: WriteState::Wait { version, .. }, .. },
            ) => self.memory.waiting is Looking && self.memory.slot(protocol::slot_of(version)).readers > 0,
            (
                Action::Park,
                Task::Write { state: WriteState::Wait { .. }, .. },
            ) => self.memory.waiting is Committed,
            (Action::End, Task::Read { state, .. }) => state is Done,
            (Action::End, Task::Write { state, .. }) => state is Done,
            _ => false,
        }
    }

    pub open spec fn with_task(self, t: int, task: Task<T>) -> System<T> {
        System { tasks: self.tasks.update(t, task), ..self }
    }

    pub open spec fn with_waiting(self, waiting: Waiting) -> System<T> {
        System { memory: Memory { waiting, ..self.memory }, ..self }
    }

    /// The values published once `event` has happened: the advance of the version counter
    /// publishes what is in the slot of the version that becomes current.
    pub open spec fn history_after(self, event: Event<Wrapper<T>>) -> Seq<T> {
        match event {
            Event::Advanced { from } => self.history.push(
                self.memory.slot(protocol::slot_of(from)).wrapper.data,
            ),
            _ => self.history,
        }
    }

    /// The system after thread `t` did `action`.
    pub open spec fn after(self, t: int, action: Action<T>) -> System<T> {
        let since = self.memory.next_version;
        match (action, self.tasks[t]) {
            (Action::BeginRead { known }, _) => self.with_task(
                t,
                Task::Read { state: protocol::read_from(known), since },
            ),
            (Action::BeginWrite { request }, _) => self.with_task(
                t,
                Task::Write {
                    state: WriteState::TakeLock { request },
                    intent: Intent::Request { request },
                    since,
                },
            ),
            (Action::Happens { event }, Task::Read { state, since }) => System {
                memory: self.memory.after(t, event),
                history: self.history_after(event),
                ..self
            }.with_task(t, Task::Read { state: state.next(event), since }),
            (Action::Happens { event }, Task::Write { state, intent, since }) => System {
                memory: self.memory.after(t, event),
                history: self.history_after(event),
                ..self
            }.with_task(t, Task::Write { state: state.next(event), intent, since }),
            (
                Action::GoOn { f },
                Task::Read { state: ReadState::Unlock { wrapper, found }, since },
            ) => self.with_task(
                t,
                Task::Write {
                    state: WriteState::Wait { data: f(wrapper.data), version: protocol::successor(found) },
                    intent: Intent::Apply { f },
                    since,
                },
            ),
            (Action::Look, _) => self.with_waiting(Waiting::Looking),
            (Action::Commit, _) => self.with_waiting(Waiting::Committed),
            (Action::Park, _) => self.with_waiting(Waiting::Parked),
            (Action::End, _) => self.with_task(t, Task::Idle),
            _ => self,
        }
    }
}

/// `run` is a sequence of moments of one system, each reached from the one before by a step of
/// some thread.
pub open spec fn is_run<T>(run: Seq<System<T>>) -> bool {
    forall|i: int| 0 <= i < run.len() - 1 ==> #[trigger] steps_to(run[i], run[i + 1])
}

/// Some thread can take a step from `pre` to `post`.
pub open spec fn steps_to<T>(pre: System<T>, post: System<T>) -> bool {
    exists|t: int, action: Action<T>| #[trigger]
        pre.enabled(t, action) && post == pre.after(t, action)
}

} // verus!
