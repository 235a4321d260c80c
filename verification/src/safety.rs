//! What holds of a [`System`] at every moment, and the proof that no step breaks it.
use crate::model::{Action, Intent, System, Task};
use crate::protocol;
use crate::protocol::{ReadState, Request, Version, Wrapper, WriteState};
use vstd::prelude::*;

verus! {

/// How many of `tasks` count among the readers of `slot`.
pub open spec fn readers_in<T>(tasks: Seq<Task<T>>, slot: usize) -> nat
    decreases tasks.len(),
{
    if tasks.len() == 0 {
        0
    } else {
        readers_in(tasks.drop_last(), slot) + (if tasks.last().inside(slot) {
            1nat
        } else {
            0nat
        })
    }
}

impl<T> System<T> {
    /// `wrapper` is one of the published values, and it was current when the version counter held
    /// `since` or later.
    pub open spec fn fresh(self, wrapper: Wrapper<T>, since: u64) -> bool {
        &&& self.published(wrapper)
        &&& since <= wrapper.version + 1
    }

    /// Publishing `data` under `version` is what `intent` wants.
    pub open spec fn fulfils(self, intent: Intent<T>, data: T, version: Version) -> bool {
        match intent {
            Intent::Request { request: Request::Overwrite { data: wanted } } => data == wanted,
            Intent::Request { request: Request::CompareAndSet { data: wanted, expected } } => data
                == wanted && version == expected + 1,
            Intent::Apply { f } => version >= 1 && data == f(self.history[version - 1]),
        }
    }

    /// No writer is about to replace the value in its slot, or has replaced it and not published
    /// yet.
    pub open spec fn undisturbed(self) -> bool {
        forall|u: int| 0 <= u < self.tasks.len() ==> !(#[trigger] self.tasks[u]).replaces()
    }

    /// What holds of a thread that reads.
    pub open spec fn read_ok(self, state: ReadState<Wrapper<T>>, since: u64) -> bool {
        let next_version = self.memory.next_version;
        match state {
            ReadState::Cached { wrapper, version } => self.published(wrapper) && version
                == wrapper.version,
            ReadState::Start => true,
            ReadState::Enter { version } => since <= version + 1 <= next_version,
            ReadState::Validate { version } => since <= version + 1 <= next_version,
            ReadState::Load { version } => {
                &&& since <= version + 1 <= next_version <= version + 2
                &&& self.memory.slot(protocol::slot_of(version)).wrapper == Wrapper {
                    data: self.history[version as int],
                    version,
                }
                &&& next_version == version + 2 ==> self.undisturbed()
            },
            ReadState::Leave { version, wrapper, found } => self.fresh(wrapper, since) && found
                == wrapper.version && version == found,
            ReadState::Recheck { wrapper, found } => self.fresh(wrapper, since) && found
                == wrapper.version,
            ReadState::Signal { wrapper } => self.fresh(wrapper, since),
            ReadState::Abandon { version } => since <= version + 1 <= next_version,
            ReadState::SignalRetry => true,
            ReadState::TakeLock => true,
            ReadState::LockedVersion => true,
            ReadState::LockedLoad { version } => version + 1 == next_version,
            ReadState::Unlock { wrapper, found } => self.fresh(wrapper, since) && found
                == wrapper.version && found + 1 == next_version,
            ReadState::Done { wrapper } => self.fresh(wrapper, since),
        }
    }

    /// What holds of a thread that writes.
    pub open spec fn write_ok(self, state: WriteState<T>, intent: Intent<T>, since: u64) -> bool {
        let next_version = self.memory.next_version;
        match state {
            WriteState::TakeLock { request } => intent == (Intent::Request { request }),
            WriteState::LoadVersion { request } => intent == (Intent::Request { request }),
            WriteState::Wait { data, version } => version == next_version && self.fulfils(
                intent,
                data,
                version,
            ),
            WriteState::Swap { data, version } => version == next_version && self.fulfils(
                intent,
                data,
                version,
            ),
            WriteState::Advance { version } => {
                let wrapper = self.memory.slot(protocol::slot_of(version)).wrapper;
                &&& version == next_version
                &&& wrapper.version == version
                &&& self.fulfils(intent, wrapper.data, version)
            },
            WriteState::Unlock { outcome } => self.settled(intent, outcome, since),
            WriteState::Done { outcome } => self.settled(intent, outcome, since),
        }
    }

    /// What holds of a write that comes to `outcome`.
    pub open spec fn settled(
        self,
        intent: Intent<T>,
        outcome: protocol::Outcome<T>,
        since: u64,
    ) -> bool {
        match outcome {
            Ok(version) => {
                &&& since <= version < self.memory.next_version
                &&& self.fulfils(intent, self.history[version as int], version)
            },
            Err((data, version)) => {
                &&& since <= version + 1 <= self.memory.next_version
                &&& intent matches Intent::Request {
                    request: Request::CompareAndSet { data: wanted, expected },
                }
                &&& data == wanted
                &&& version != expected
            },
        }
    }

    pub open spec fn task_ok(self, task: Task<T>) -> bool {
        match task {
            Task::Idle => true,
            Task::Read { state, since } => since <= self.memory.next_version && self.read_ok(
                state,
                since,
            ),
            Task::Write { state, intent, since } => since <= self.memory.next_version
                && self.write_ok(state, intent, since),
        }
    }

    /// What holds of every thread.
    pub open spec fn threads_ok(self) -> bool {
        forall|t: int| 0 <= t < self.tasks.len() ==> self.task_ok(#[trigger] self.tasks[t])
    }

    /// The version counter counts the published values, and the slot of the current version holds
    /// the current value.
    pub open spec fn values_ok(self) -> bool {
        let next_version = self.memory.next_version;
        &&& self.memory.slots.len() == 2
        &&& next_version >= 1
        &&& self.history.len() == next_version
        &&& self.memory.slot(protocol::slot_of((next_version - 1) as u64)).wrapper == Wrapper {
            data: self.history[next_version - 1],
            version: (next_version - 1) as u64,
        }
    }

    /// Each slot counts its readers.
    pub open spec fn counts_ok(self) -> bool {
        &&& self.memory.slot(0).readers == readers_in(self.tasks, 0)
        &&& self.memory.slot(1).readers == readers_in(self.tasks, 1)
    }

    /// The write lock is had by the thread that holds it and by no other.
    pub open spec fn lock_ok(self) -> bool {
        &&& forall|t: int|
            0 <= t < self.tasks.len() ==> ((#[trigger] self.tasks[t]).has_lock() <==> self.memory.holder
                == Some(t))
        &&& self.memory.holder matches Some(t) ==> 0 <= t < self.tasks.len()
    }

    /// A writer that sleeps, or is about to, has the write lock; and someone will wake it: a
    /// reader is in its slot, or a thread that is on its way to wake it.
    pub open spec fn sleep_ok(self) -> bool {
        &&& !(self.memory.waiting is Away) ==> {
            &&& self.memory.holder is Some
            &&& self.tasks[self.memory.holder->0].waits()
        }
        &&& self.memory.waiting is Committed || self.memory.waiting is Parked ==> {
            ||| self.memory.slot(protocol::slot_of(self.memory.next_version)).readers > 0
            ||| exists|t: int|
                0 <= t < self.tasks.len() && (#[trigger] self.tasks[t]).will_signal(
                    self.memory.next_version,
                )
        }
    }

    /// No two writes were given the same version.
    pub open spec fn versions_ok(self) -> bool {
        forall|t: int, u: int|
            0 <= t < self.tasks.len() && 0 <= u < self.tasks.len() && t != u && (
            #[trigger] self.tasks[t]).won() is Some ==> self.tasks[t].won() != (
            #[trigger] self.tasks[u]).won()
    }

    /// What holds of the system at every moment.
    pub open spec fn inv(self) -> bool {
        &&& self.values_ok()
        &&& self.threads_ok()
        &&& self.counts_ok()
        &&& self.lock_ok()
        &&& self.sleep_ok()
        &&& self.versions_ok()
    }
}

/// A thread that changes what it does changes the number of readers by itself alone.
proof fn lemma_readers_update<T>(tasks: Seq<Task<T>>, t: int, task: Task<T>, slot: usize)
    requires
        0 <= t < tasks.len(),
    ensures
        readers_in(tasks.update(t, task), slot) + (if tasks[t].inside(slot) {
            1nat
        } else {
            0nat
        }) == readers_in(tasks, slot) + (if task.inside(slot) {
            1nat
        } else {
            0nat
        }),
    decreases tasks.len(),
{
    if t == tasks.len() - 1 {
        assert(tasks.update(t, task).drop_last() =~= tasks.drop_last());
    } else {
        assert(tasks.update(t, task).drop_last() =~= tasks.drop_last().update(t, task));
        lemma_readers_update(tasks.drop_last(), t, task, slot);
    }
}

/// A thread that is in a slot is counted there.
proof fn lemma_inside_is_counted<T>(tasks: Seq<Task<T>>, t: int, slot: usize)
    requires
        0 <= t < tasks.len(),
        tasks[t].inside(slot),
    ensures
        readers_in(tasks, slot) > 0,
    decreases tasks.len(),
{
    if t < tasks.len() - 1 {
        lemma_inside_is_counted(tasks.drop_last(), t, slot);
    }
}

/// A slot that counts a reader has a thread in it.
pub proof fn lemma_counted_is_inside<T>(tasks: Seq<Task<T>>, slot: usize) -> (t: int)
    requires
        readers_in(tasks, slot) > 0,
    ensures
        0 <= t < tasks.len(),
        tasks[t].inside(slot),
    decreases tasks.len(),
{
    if tasks.last().inside(slot) {
        tasks.len() - 1
    } else {
        lemma_counted_is_inside(tasks.drop_last(), slot)
    }
}

/// Nobody is in a slot of a new system.
proof fn lemma_idle_readers<T>(tasks: Seq<Task<T>>, slot: usize)
    requires
        forall|t: int| 0 <= t < tasks.len() ==> #[trigger] tasks[t] == Task::<T>::Idle,
    ensures
        readers_in(tasks, slot) == 0,
    decreases tasks.len(),
{
    if tasks.len() > 0 {
        assert(tasks.last() == tasks[tasks.len() - 1]);
        assert forall|t: int| 0 <= t < tasks.drop_last().len() implies #[trigger] tasks.drop_last()[t]
            == Task::<T>::Idle by {
            assert(tasks.drop_last()[t] == tasks[t]);
        }
        lemma_idle_readers(tasks.drop_last(), slot);
    }
}

/// The invariant holds of a new system.
pub proof fn lemma_initial<T>(data: T, n: nat)
    ensures
        System::initial(data, n).inv(),
{
    let s = System::initial(data, n);
    lemma_idle_readers(s.tasks, 0);
    lemma_idle_readers(s.tasks, 1);
}


proof fn lemma_step_values<T>(s: System<T>, t: int, action: Action<T>)
    requires
        s.inv(),
        s.enabled(t, action),
    ensures
        s.after(t, action).values_ok(),
{
}

proof fn lemma_step_counts<T>(s: System<T>, t: int, action: Action<T>)
    requires
        s.inv(),
        s.enabled(t, action),
    ensures
        s.after(t, action).counts_ok(),
{
    let post = s.after(t, action);
    assert(post.tasks == s.tasks.update(t, post.tasks[t]) || post.tasks == s.tasks);
    lemma_readers_update(s.tasks, t, post.tasks[t], 0);
    lemma_readers_update(s.tasks, t, post.tasks[t], 1);
}

proof fn lemma_step_lock<T>(s: System<T>, t: int, action: Action<T>)
    requires
        s.inv(),
        s.enabled(t, action),
    ensures
        s.after(t, action).lock_ok(),
{
}

proof fn lemma_step_versions<T>(s: System<T>, t: int, action: Action<T>)
    requires
        s.inv(),
        s.enabled(t, action),
    ensures
        s.after(t, action).versions_ok(),
{
}

proof fn lemma_step_sleep<T>(s: System<T>, t: int, action: Action<T>)
    requires
        s.inv(),
        s.enabled(t, action),
    ensures
        s.after(t, action).sleep_ok(),
{
    let post = s.after(t, action);
    let next_version = s.memory.next_version;
    let slot = protocol::slot_of(next_version);
    if (post.memory.waiting is Committed || post.memory.waiting is Parked) && !(action is Commit) {
        assert(s.memory.waiting is Committed || s.memory.waiting is Parked);
        assert(post.memory.next_version == next_version);
        if s.memory.slot(slot).readers > 0 {
            if post.memory.slot(slot).readers == 0 {
                assert(s.task_ok(s.tasks[t]));
                assert(post.tasks[t].will_signal(next_version));
            }
        } else {
            let w = choose|w: int|
                0 <= w < s.tasks.len() && (#[trigger] s.tasks[w]).will_signal(next_version);
            assert(post.tasks[w].will_signal(next_version));
        }
    }
}

proof fn lemma_step_threads<T>(s: System<T>, t: int, action: Action<T>)
    requires
        s.inv(),
        s.enabled(t, action),
    ensures
        s.after(t, action).threads_ok(),
{
    let post = s.after(t, action);
    assert(s.task_ok(s.tasks[t]));
    assert forall|u: int| 0 <= u < post.tasks.len() && u != t implies post.task_ok(
        #[trigger] post.tasks[u],
    ) by {
        assert(post.tasks[u] == s.tasks[u]);
        assert(s.task_ok(s.tasks[u]));
        if let Task::Read { state: ReadState::Load { version }, .. } = s.tasks[u] {
            if s.tasks[t].replaces() {
                assert(s.memory.next_version == version + 1);
            }
            if post.tasks[t].replaces() {
                lemma_inside_is_counted(s.tasks, u, protocol::slot_of(version));
            }
            if post.memory.next_version == version + 2 {
                assert forall|k: int| 0 <= k < post.tasks.len() implies !(
                #[trigger] post.tasks[k]).replaces() by {
                }
            }
        }
    }
    assert(post.task_ok(post.tasks[t]));
}

/// No step of any thread breaks the invariant.
pub proof fn lemma_step<T>(s: System<T>, t: int, action: Action<T>)
    requires
        s.inv(),
        s.enabled(t, action),
    ensures
        s.after(t, action).inv(),
{
    lemma_step_values(s, t, action);
    lemma_step_threads(s, t, action);
    lemma_step_counts(s, t, action);
    lemma_step_lock(s, t, action);
    lemma_step_sleep(s, t, action);
    lemma_step_versions(s, t, action);
}

} // verus!
