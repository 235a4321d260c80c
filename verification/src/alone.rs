//! What one thread gets from a memory that no other thread uses at the same time.
use crate::model::{Memory, Slot, Waiting};
use crate::operations;
use crate::protocol;
use crate::protocol::{Event, ReadState, Request, Version, Wrapper, WriteState};
use vstd::prelude::*;

verus! {

impl<T> Memory<T> {
    /// No thread is using it, and the slot of the current version holds a value of that version.
    /// There are versions left.
    pub open spec fn is_quiet(self) -> bool {
        &&& self.slots.len() == 2
        &&& 1 <= self.next_version < u64::MAX
        &&& self.holder is None
        &&& self.waiting is Away
        &&& self.slots[0].readers == 0
        &&& self.slots[1].readers == 0
        &&& self.current().version + 1 == self.next_version
    }

    /// The current value.
    pub open spec fn current(self) -> Wrapper<T> {
        self.slot(protocol::slot_of(protocol::current(self.next_version))).wrapper
    }

    /// The memory once `wrapper` has been published.
    pub open spec fn publishing(self, wrapper: Wrapper<T>) -> Memory<T> {
        let slot = protocol::slot_of(wrapper.version);
        Memory {
            next_version: protocol::successor(wrapper.version),
            ..self.with_slot(slot, Slot { wrapper, ..self.slot(slot) })
        }
    }

    /// The memory after the events of `run` have happened to thread `t` and nothing else has
    /// happened; `None` if they could not have happened so. A writer that waits for its slot takes
    /// the signal lock right before it sees that there are no readers.
    pub open spec fn replay(self, t: int, run: Seq<Event<Wrapper<T>>>) -> Option<Memory<T>>
        decreases run.len(),
    {
        if run.len() == 0 {
            Some(self)
        } else {
            match self.replay(t, run.drop_last()) {
                Some(memory) => {
                    let event = run.last();
                    let memory = if event is Idle && memory.waiting is Away {
                        Memory { waiting: Waiting::Looking, ..memory }
                    } else {
                        memory
                    };
                    if memory.allows(t, event) {
                        Some(memory.after(t, event))
                    } else {
                        None
                    }
                },
                None => None,
            }
        }
    }
}

/// How `memory` differs from `start` while a read is at `state`, and what the read has seen.
spec fn reads_alone<T>(
    start: Memory<T>,
    t: int,
    state: ReadState<Wrapper<T>>,
    memory: Memory<T>,
) -> bool {
    let version = protocol::current(start.next_version);
    let slot = protocol::slot_of(version);
    let entered = start.with_slot(slot, Slot { readers: 1, ..start.slot(slot) });
    let locked = Memory { holder: Some(t), ..start };
    match state {
        ReadState::Cached { wrapper, version: found } => memory == start && wrapper.version == found
            && (found == version ==> wrapper == start.current()),
        ReadState::Start => memory == start,
        ReadState::Enter { version: v } => memory == start && v == version,
        ReadState::Validate { version: v } => memory == entered && v == version,
        ReadState::Load { version: v } => memory == entered && v == version,
        ReadState::Leave { version: v, wrapper, found } => memory == entered && v == version
            && wrapper == start.current() && found == version,
        ReadState::Recheck { wrapper, found } => memory == start && wrapper == start.current()
            && found == version,
        ReadState::Signal { .. } => false,
        ReadState::Abandon { .. } => false,
        ReadState::SignalRetry => false,
        ReadState::TakeLock => memory == start,
        ReadState::LockedVersion => memory == locked,
        ReadState::LockedLoad { version: v } => memory == locked && v == version,
        ReadState::Unlock { wrapper, .. } => memory == locked && wrapper == start.current(),
        ReadState::Done { wrapper } => memory == start && wrapper == start.current(),
    }
}

proof fn lemma_reads_alone<T>(
    start: Memory<T>,
    t: int,
    first: ReadState<Wrapper<T>>,
    run: Seq<Event<Wrapper<T>>>,
)
    requires
        start.is_quiet(),
        reads_alone(start, t, first, start),
        first.reach(run) is Some,
        start.replay(t, run) is Some,
    ensures
        reads_alone(start, t, first.reach(run)->0, start.replay(t, run)->0),
    decreases run.len(),
{
    if run.len() > 0 {
        lemma_reads_alone(start, t, first, run.drop_last());
        let slot = protocol::slot_of(protocol::current(start.next_version));
        let entered = start.with_slot(slot, Slot { readers: 1, ..start.slot(slot) });
        let post = start.replay(t, run)->0;
        assert(post.slots =~= start.slots || post.slots =~= entered.slots);
    }
}

/// A read that no other thread interferes with gives the current value, and leaves the memory as
/// it found it. What the thread has read before does not change that.
pub proof fn law_read_alone<T>(
    memory: Memory<T>,
    t: int,
    known: Option<Wrapper<T>>,
    run: Seq<Event<Wrapper<T>>>,
    wrapper: Wrapper<T>,
    post: Memory<T>,
)
    requires
        memory.is_quiet(),
        known matches Some(cached) ==> cached.version == memory.current().version ==> cached
            == memory.current(),
        protocol::read_from(known).reach(run) == Some((ReadState::Done { wrapper })),
        memory.replay(t, run) == Some(post),
    ensures
        wrapper == memory.current(),
        post == memory,
{
    lemma_reads_alone(memory, t, protocol::read_from(known), run);
}

/// How `memory` differs from `start` while a write of `request` is at `state`.
spec fn writes_alone<T>(
    start: Memory<T>,
    t: int,
    request: Request<T>,
    state: WriteState<T>,
    memory: Memory<T>,
) -> bool {
    let locked = Memory { holder: Some(t), ..start };
    let planned = WriteState::planned(request, start.next_version);
    match state {
        WriteState::TakeLock { request: r } => memory == start && r == request,
        WriteState::LoadVersion { request: r } => memory == locked && r == request,
        WriteState::Wait { data, version } => memory == locked && planned == state,
        WriteState::Swap { data, version } => memory == locked && planned == (WriteState::Wait {
            data,
            version,
        }),
        WriteState::Advance { version } => {
            &&& planned matches WriteState::Wait { data, version: v }
            &&& v == version
            &&& memory == locked.with_slot(
                protocol::slot_of(version),
                Slot {
                    wrapper: Wrapper { data, version },
                    ..locked.slot(protocol::slot_of(version))
                },
            )
        },
        WriteState::Unlock { outcome } => match planned {
            WriteState::Wait { data, version } => outcome == Ok::<Version, (T, Version)>(version)
                && memory == locked.publishing(Wrapper { data, version }),
            _ => planned == state && memory == locked,
        },
        WriteState::Done { outcome } => match planned {
            WriteState::Wait { data, version } => outcome == Ok::<Version, (T, Version)>(version)
                && memory == start.publishing(Wrapper { data, version }),
            _ => planned == (WriteState::Unlock { outcome }) && memory == start,
        },
    }
}

proof fn lemma_writes_alone<T>(
    start: Memory<T>,
    t: int,
    request: Request<T>,
    run: Seq<Event<Wrapper<T>>>,
)
    requires
        start.is_quiet(),
        (WriteState::TakeLock { request }).reach(run) is Some,
        start.replay(t, run) is Some,
    ensures
        writes_alone(
            start,
            t,
            request,
            (WriteState::TakeLock { request }).reach(run)->0,
            start.replay(t, run)->0,
        ),
    decreases run.len(),
{
    if run.len() > 0 {
        lemma_writes_alone(start, t, request, run.drop_last());
    }
}

/// The value that `request` asks to write.
pub open spec fn wanted<T>(request: Request<T>) -> T {
    match request {
        Request::Overwrite { data } => data,
        Request::CompareAndSet { data, .. } => data,
    }
}

/// Whether `request` is to be refused while `current` is the current version.
pub open spec fn mismatched<T>(request: Request<T>, current: Version) -> bool {
    request matches Request::CompareAndSet { expected, .. } && expected != current
}

/// A write that no other thread interferes with is refused if and only if it expects another
/// version than the current one; then it gets its value back with the current version, and the
/// memory stays as it was. Otherwise its value becomes the current one, and its version is the next
/// one after the version that was current.
pub proof fn law_write_alone<T>(
    memory: Memory<T>,
    t: int,
    request: Request<T>,
    run: Seq<Event<Wrapper<T>>>,
    outcome: protocol::Outcome<T>,
    post: Memory<T>,
)
    requires
        memory.is_quiet(),
        (WriteState::TakeLock { request }).reach(run) == Some((WriteState::Done { outcome })),
        memory.replay(t, run) == Some(post),
    ensures
        mismatched(request, memory.current().version) ==> post == memory && outcome == Err::<
            Version,
            (T, Version),
        >((wanted(request), memory.current().version)),
        !mismatched(request, memory.current().version) ==> outcome == Ok::<Version, (T, Version)>(
            (memory.current().version + 1) as u64,
        ) && post.current() == (Wrapper {
            data: wanted(request),
            version: (memory.current().version + 1) as u64,
        }) && post.next_version == memory.next_version + 1 && (post.next_version < u64::MAX
            ==> post.is_quiet()),
{
    lemma_writes_alone(memory, t, request, run);
}

/// A read that follows a write, without another thread interfering, gives back what was written,
/// under the version that the write returned.
pub proof fn law_write_then_read_alone<T>(
    memory: Memory<T>,
    t: int,
    request: Request<T>,
    writing: Seq<Event<Wrapper<T>>>,
    version: Version,
    written: Memory<T>,
    u: int,
    reading: Seq<Event<Wrapper<T>>>,
    wrapper: Wrapper<T>,
    post: Memory<T>,
)
    requires
        memory.is_quiet(),
        memory.next_version < u64::MAX - 1,
        (WriteState::TakeLock { request }).reach(writing) == Some(
            (WriteState::<T>::Done { outcome: Ok(version) }),
        ),
        memory.replay(t, writing) == Some(written),
        ReadState::Start.reach(reading) == Some((ReadState::Done { wrapper })),
        written.replay(u, reading) == Some(post),
    ensures
        wrapper == (Wrapper { data: wanted(request), version }),
        version == memory.current().version + 1,
        post == written,
{
    law_write_alone(memory, t, request, writing, Ok(version), written);
    law_read_alone(written, u, None, reading, wrapper, post);
}

/// The memory after all of `runs` have happened to it, one after the other, each to a thread of its
/// own; `None` if they could not have happened so.
pub open spec fn replay_all<T>(memory: Memory<T>, runs: Seq<Seq<Event<Wrapper<T>>>>) -> Option<
    Memory<T>,
>
    decreases runs.len(),
{
    if runs.len() == 0 {
        Some(memory)
    } else {
        match replay_all(memory, runs.drop_last()) {
            Some(memory) => memory.replay(runs.len() - 1, runs.last()),
            None => None,
        }
    }
}

/// Writes that are made one after the other, without another thread interfering, return the
/// versions that come next, one after the other; then the current value is what was written last,
/// under the version that was returned last.
pub proof fn law_writes_in_turn<T>(
    memory: Memory<T>,
    values: Seq<T>,
    runs: Seq<Seq<Event<Wrapper<T>>>>,
    versions: Seq<Version>,
    post: Memory<T>,
)
    requires
        memory.is_quiet(),
        memory.next_version + values.len() < u64::MAX,
        values.len() == runs.len() == versions.len(),
        forall|i: int|
            0 <= i < runs.len() ==> (WriteState::TakeLock {
                request: Request::Overwrite { data: values[i] },
            }).reach(#[trigger] runs[i]) == Some(
                (WriteState::<T>::Done { outcome: Ok(versions[i]) }),
            ),
        replay_all(memory, runs) == Some(post),
    ensures
        post.is_quiet(),
        post.next_version == memory.next_version + values.len(),
        forall|i: int|
            0 <= i < versions.len() ==> #[trigger] versions[i] == memory.current().version + 1 + i,
        values.len() > 0 ==> post.current() == (Wrapper {
            data: values.last(),
            version: versions.last(),
        }),
        values.len() == 0 ==> post == memory,
    decreases values.len(),
{
    if values.len() > 0 {
        let n = runs.len() - 1;
        let before = replay_all(memory, runs.drop_last())->0;
        assert forall|i: int| 0 <= i < n implies (WriteState::TakeLock {
            request: Request::Overwrite { data: values.drop_last()[i] },
        }).reach(#[trigger] runs.drop_last()[i]) == Some(
            (WriteState::<T>::Done { outcome: Ok(versions.drop_last()[i]) }),
        ) by {
            assert(runs.drop_last()[i] == runs[i]);
        }
        law_writes_in_turn(
            memory,
            values.drop_last(),
            runs.drop_last(),
            versions.drop_last(),
            before,
        );
        assert(runs[n] == runs.last());
        law_write_alone(
            before,
            n,
            Request::Overwrite { data: values.last() },
            runs.last(),
            Ok(versions.last()),
            post,
        );
        assert forall|i: int| 0 <= i < versions.len() implies #[trigger] versions[i]
            == memory.current().version + 1 + i by {
            if i < n {
                assert(versions.drop_last()[i] == versions[i]);
            }
        }
    }
}

/// What happens in a run happens in its first part and then in the rest.
proof fn lemma_replay_parts<T>(memory: Memory<T>, t: int, run: Seq<Event<Wrapper<T>>>, i: int)
    requires
        0 <= i <= run.len(),
        memory.replay(t, run) is Some,
    ensures
        memory.replay(t, run.take(i)) is Some,
        memory.replay(t, run.take(i))->0.replay(t, run.skip(i)) == memory.replay(t, run),
    decreases run.len(),
{
    if i == run.len() {
        assert(run.take(i) =~= run);
        assert(run.skip(i) =~= Seq::empty());
    } else {
        lemma_replay_parts(memory, t, run.drop_last(), i);
        assert(run.drop_last().take(i) =~= run.take(i));
        assert(run.drop_last().skip(i) =~= run.skip(i).drop_last());
    }
}

/// An attempt at an update that no other thread interferes with reads the current value and is not
/// refused.
proof fn lemma_attempts_alone<T, F: Fn(&T) -> T>(
    memory: Memory<T>,
    t: int,
    run: Seq<Event<Wrapper<T>>>,
    f: F,
    j: int,
    old: Wrapper<T>,
    new: T,
    outcome: protocol::Outcome<T>,
)
    requires
        memory.is_quiet(),
        operations::attempts(run, f, j, old, new, outcome),
        memory.replay(t, run) is Some,
    ensures
        old == memory.current(),
        outcome is Ok,
        memory.replay(t, run)->0.current() == (Wrapper {
            data: new,
            version: (old.version + 1) as u64,
        }),
{
    let read = memory.replay(t, run.take(j))->0;
    let post = memory.replay(t, run)->0;
    let request = Request::CompareAndSet { data: new, expected: old.version };
    lemma_replay_parts(memory, t, run, j);
    law_read_alone(memory, t, None, run.take(j), old, read);
    law_write_alone(memory, t, request, run.skip(j), outcome, post);
}

/// Without other threads interfering, no attempt fails.
proof fn lemma_fails_alone<T, F: Fn(&T) -> T>(
    memory: Memory<T>,
    t: int,
    run: Seq<Event<Wrapper<T>>>,
    f: F,
    n: nat,
)
    requires
        memory.is_quiet(),
        operations::fails(run, f, n),
        memory.replay(t, run) is Some,
    ensures
        n == 0,
        run.len() == 0,
    decreases n,
{
    if n > 0 {
        let (i, j, old, new, refusal) = choose|
            i: int,
            j: int,
            old: Wrapper<T>,
            new: T,
            refusal: (T, Version),
        |
            {
                &&& 0 <= i <= run.len()
                &&& operations::fails(run.take(i), f, (n - 1) as nat)
                &&& #[trigger] operations::attempts(run.skip(i), f, j, old, new, Err(refusal))
            };
        lemma_replay_parts(memory, t, run, i);
        lemma_fails_alone(memory, t, run.take(i), f, (n - 1) as nat);
        assert(run.take(i) =~= Seq::empty());
        lemma_attempts_alone(memory, t, run.skip(i), f, j, old, new, Err(refusal));
    }
}

/// An update that no other thread interferes with calls its function with the current value, and
/// makes what the function returns the current value, under the next version. It succeeds at the
/// first attempt.
pub proof fn law_update_alone<T, F: Fn(&T) -> T>(
    memory: Memory<T>,
    t: int,
    run: Seq<Event<Wrapper<T>>>,
    f: F,
    n: nat,
    i: int,
    j: int,
    old: Wrapper<T>,
    new: T,
    version: Version,
    post: Memory<T>,
)
    requires
        memory.is_quiet(),
        operations::updates(run, f, n, i, j, old, new, version),
        memory.replay(t, run) == Some(post),
    ensures
        n == 0,
        old == memory.current(),
        call_ensures(f, (&memory.current().data,), new),
        version == memory.current().version + 1,
        post.current() == (Wrapper { data: new, version }),
{
    lemma_replay_parts(memory, t, run, i);
    lemma_fails_alone(memory, t, run.take(i), f, n);
    assert(run.take(i) =~= Seq::empty());
    lemma_attempts_alone(memory, t, run.skip(i), f, j, old, new, Ok(version));
}

/// A new memory is quiet, and its first value is the current one, under version 0.
pub proof fn law_new_is_quiet<T>(data: T)
    ensures
        Memory::initial(data).is_quiet(),
        Memory::initial(data).current() == (Wrapper { data, version: 0 }),
{
}

} // verus!
