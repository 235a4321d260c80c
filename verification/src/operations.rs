//! Reads, writes and updates, as the protocol has them.
use crate::alone;
use crate::protocol;
use crate::protocol::{Event, Outcome, ReadState, Request, Version, Wrapper, WriteState};
use crate::slot_pair::Reader;
use crate::ThreadSafeVarRef;
use rclite::Arc;
use vstd::prelude::*;

use access::{Access, InnerSlotPairTSV, Run};

pub mod access;

verus! {

/// How often a read or an update races against writers before it locks them out.
pub const RETRY_LIMIT: u64 = 0xffff_ffff_ffff_ffff;

/// What a [`Reader`] stands for in the protocol.
pub open spec fn shown<T: Sync + Send + 'static>() -> spec_fn(Reader<T>) -> Wrapper<T> {
    |reader: Reader<T>| reader@
}

/// The state that a read begins in which has `cached` at hand.
pub open spec fn started<T: Sync + Send + 'static>(cached: Option<Reader<T>>) -> ReadState<
    Wrapper<T>,
> {
    protocol::read_from(
        match cached {
            Some(reader) => Some(reader@),
            None => None,
        },
    )
}

/// How often a slot is entered in `run`.
pub open spec fn entries<W>(run: Seq<Event<W>>) -> nat
    decreases run.len(),
{
    if run.len() == 0 {
        0
    } else if run.last() is Entered {
        entries(run.drop_last()) + 1
    } else {
        entries(run.drop_last())
    }
}

/// Whether someone gives up in `run`.
pub open spec fn gives_up<W>(run: Seq<Event<W>>) -> bool {
    exists|i: int| 0 <= i < run.len() && (#[trigger] run[i]) is GaveUp
}

/// `run` is a read that begins in `start` and gives `wrapper`. In it a thread gives up only after
/// it has entered slots in vain [`RETRY_LIMIT`] times.
pub open spec fn reads<T>(
    run: Seq<Event<Wrapper<T>>>,
    start: ReadState<Wrapper<T>>,
    wrapper: Wrapper<T>,
) -> bool {
    &&& start.reach(run) == Some(ReadState::Done { wrapper })
    &&& gives_up(run) ==> entries(run) >= RETRY_LIMIT
}

proof fn lemma_entries_push<W>(run: Seq<Event<W>>, event: Event<W>)
    ensures
        entries(run.push(event)) == entries(run) + (if event is Entered {
            1nat
        } else {
            0nat
        }),
{
    assert(run.push(event).drop_last() =~= run);
}

proof fn lemma_entries_add<W>(first: Seq<Event<W>>, second: Seq<Event<W>>)
    ensures
        entries(first + second) == entries(first) + entries(second),
    decreases second.len(),
{
    if second.len() == 0 {
        assert(first + second =~= first);
    } else {
        lemma_entries_add(first, second.drop_last());
        assert((first + second).drop_last() =~= first + second.drop_last());
    }
}

/// One more event leads on from where the others have led.
proof fn lemma_read_push<W>(
    start: ReadState<W>,
    run: Seq<Event<W>>,
    state: ReadState<W>,
    event: Event<W>,
)
    requires
        start.reach(run) == Some(state),
        state.accepts(event),
    ensures
        start.reach(run.push(event)) == Some(state.next(event)),
{
    assert(run.push(event).drop_last() =~= run);
}

/// A run can be followed by another that begins where the first has led.
proof fn lemma_read_add<W>(
    start: ReadState<W>,
    first: Seq<Event<W>>,
    middle: ReadState<W>,
    second: Seq<Event<W>>,
    end: ReadState<W>,
)
    requires
        start.reach(first) == Some(middle),
        middle.reach(second) == Some(end),
    ensures
        start.reach(first + second) == Some(end),
    decreases second.len(),
{
    if second.len() == 0 {
        assert(first + second =~= first);
    } else {
        let before = middle.reach(second.drop_last())->0;
        lemma_read_add(start, first, middle, second.drop_last(), before);
        assert((first + second).drop_last() =~= first + second.drop_last());
    }
}

/// The wrapper that a read has at hand, if it has one.
pub open spec fn at_hand<W>(state: ReadState<W>) -> Option<W> {
    match state {
        ReadState::Cached { wrapper, .. } => Some(wrapper),
        ReadState::Leave { wrapper, .. } => Some(wrapper),
        ReadState::Recheck { wrapper, .. } => Some(wrapper),
        ReadState::Signal { wrapper } => Some(wrapper),
        ReadState::Unlock { wrapper, .. } => Some(wrapper),
        ReadState::Done { wrapper } => Some(wrapper),
        _ => None,
    }
}

/// What a read has at hand was loaded in it, if it was not so from the start.
pub(crate) proof fn lemma_read_gave<T: Sync + Send + 'static>(
    tsv: InnerSlotPairTSV<T>,
    run: Run<T>,
    start: ReadState<Wrapper<T>>,
    state: ReadState<Wrapper<T>>,
)
    requires
        tsv.had(run),
        start is Start || start is Cached,
        start.reach(run.events) == Some(state),
    ensures
        at_hand(state) matches Some(wrapper) ==> at_hand(start) == Some(wrapper) || tsv.gave(
            wrapper,
        ),
    decreases run.events.len(),
{
    let n = run.events.len() as int;
    if n > 0 {
        let shorter = run.part(0, n - 1);
        access::lemma_part_had(tsv, run, 0, n - 1);
        assert(shorter.events =~= run.events.drop_last());
        lemma_read_gave(tsv, shorter, start, start.reach(shorter.events)->0);
        let event = run.events[n - 1];
        assert(tsv.happened(
            event,
            run.by,
            run.stamp_before(n - 1),
            run.stamps[n - 1],
        ));
        if let Event::Loaded { slot, wrapper, version } = event {
            access::lemma_loaded_gave(
                tsv,
                slot,
                wrapper,
                version,
                run.by,
                run.stamp_before(n - 1),
                run.stamps[n - 1],
            );
        }
    }
}

/// How many more events an attempt to read can take, at most.
spec fn rank<W>(state: ReadState<W>) -> nat {
    match state {
        ReadState::Cached { .. } => 8,
        ReadState::Start => 1,
        ReadState::Enter { .. } => 7,
        ReadState::Validate { .. } => 6,
        ReadState::Load { .. } => 5,
        ReadState::Leave { .. } => 4,
        ReadState::Recheck { .. } => 3,
        ReadState::Signal { .. } => 2,
        ReadState::Abandon { .. } => 5,
        ReadState::SignalRetry => 4,
        _ => 0,
    }
}

impl<'a, T: Sync + Send + 'static> Access<'a, T> {
    /// Does what comes next in a read that races against writers.
    fn read_step(&mut self, state: ReadState<Reader<T>>) -> (next: ReadState<Reader<T>>)
        requires
            rank(state) > 0,
        ensures
            ({
                let event = final(self).trace().last();
                &&& final(self).records(*old(self), event)
                &&& !(event is GaveUp)
                &&& state.map(shown()).accepts(event)
                &&& next.map(shown()) == state.map(shown()).next(event)
                &&& rank(next) < rank(state) || state is Start
                &&& rank(next) > 0 || next is Done
            }),
    {
        let event: Event<Reader<T>> = match &state {
            ReadState::Enter { version } => {
                let slot: usize = protocol::slot_index(*version);
                self.enter(slot);
                Event::Entered { slot }
            },
            ReadState::Load { version } => {
                let slot: usize = protocol::slot_index(*version);
                let wrapper = Reader::new(self.load(slot));
                let version: Version = wrapper.version();
                Event::Loaded { slot, wrapper, version }
            },
            ReadState::Leave { version, .. } => {
                let slot: usize = protocol::slot_index(*version);
                let before: u32 = self.leave(slot);
                Event::Left { slot, before }
            },
            ReadState::Abandon { version } => {
                let slot: usize = protocol::slot_index(*version);
                let before: u32 = self.leave(slot);
                Event::Left { slot, before }
            },
            ReadState::Signal { .. } => {
                self.signal();
                Event::Signalled
            },
            ReadState::SignalRetry => {
                self.signal();
                Event::Signalled
            },
            _ => {
                let next_version: u64 = self.load_version();
                Event::Version { next_version }
            },
        };
        proof {
            protocol::lemma_read_maps(state, event, shown::<T>());
        }
        state.advance(event)
    }

    /// Reads the current value. The write lock is had.
    fn read_locked(&mut self) -> (reader: Reader<T>)
        ensures
            final(self).continues(*old(self)),
            ReadState::LockedVersion.reach(final(self).since(*old(self))) == Some(
                (ReadState::Unlock { wrapper: reader@, found: reader@.version }),
            ),
    {
        let ghost before = *self;
        let next_version: u64 = self.load_version();
        let ghost middle = *self;
        let version: Version = protocol::current_version(next_version);
        let reader = Reader::new(self.load(protocol::slot_index(version)));
        proof {
            let start = ReadState::<Wrapper<T>>::LockedVersion;
            let first = middle.trace().last();
            let second = self.trace().last();
            access::lemma_since_now(before);
            access::lemma_since_push(before, before, middle, first);
            access::lemma_since_push(before, middle, *self, second);
            lemma_read_push(start, Seq::empty(), start, first);
            lemma_read_push(start, middle.since(before), start.next(first), second);
        }
        reader
    }

    /// Reads the current value after having given up to race for it.
    fn read_after_giving_up(&mut self) -> (reader: Reader<T>)
        ensures
            final(self).continues(*old(self)),
            ReadState::Start.reach(final(self).since(*old(self))) == Some(
                (ReadState::Done { wrapper: reader@ }),
            ),
    {
        let ghost before = *self;
        self.give_up();
        let ghost gave_up = *self;
        let guard = self.lock();
        let ghost locked = *self;
        let reader = self.read_locked();
        let ghost read = *self;
        self.release(guard);
        proof {
            let start = ReadState::<Wrapper<T>>::Start;
            let found = ReadState::Unlock { wrapper: reader@, found: reader@.version };
            access::lemma_since_now(before);
            access::lemma_since_push(before, before, gave_up, Event::GaveUp);
            access::lemma_since_push(before, gave_up, locked, Event::Locked);
            access::lemma_since_add(before, locked, read);
            access::lemma_since_push(before, read, *self, Event::Unlocked);
            lemma_read_push(start, Seq::empty(), start, Event::GaveUp);
            lemma_read_push(start, gave_up.since(before), ReadState::TakeLock, Event::Locked);
            lemma_read_add(
                start,
                locked.since(before),
                ReadState::LockedVersion,
                read.since(locked),
                found,
            );
            lemma_read_push(start, read.since(before), found, Event::Unlocked);
        }
        reader
    }

    /// Reads the current value. `cached` is what the thread has read before, if it still has it:
    /// that is what it gets if it is still current.
    ///
    /// A read is a race against writers, which it runs until it wins. Only when it has lost
    /// [`RETRY_LIMIT`] times does it lock them out.
    pub fn read(&mut self, cached: Option<Reader<T>>) -> (reader: Reader<T>)
        ensures
            final(self).continues(*old(self)),
            reads(final(self).since(*old(self)), started(cached), reader@),
    {
        let ghost start = started(cached);
        let mut state: ReadState<Reader<T>> = match cached {
            Some(reader) => {
                let version: Version = reader.version();
                ReadState::Cached { wrapper: reader, version }
            },
            None => ReadState::Start,
        };
        let mut attempts: u64 = RETRY_LIMIT;
        let ghost before = *self;
        proof {
            access::lemma_since_now(before);
        }
        loop
            invariant
                before == *old(self),
                start == started(cached),
                self.continues(before),
                start.reach(self.since(before)) == Some(state.map(shown())),
                rank(state) > 0 || state is Done,
                !gives_up(self.since(before)),
                entries(self.since(before)) + attempts + (if state is Enter {
                    1nat
                } else {
                    0nat
                }) == RETRY_LIMIT,
            decreases attempts, rank(state),
        {
            let ghost entry = *self;
            match state {
                ReadState::Done { wrapper } => {
                    return wrapper;
                },
                ReadState::Start => {
                    if attempts == 0 {
                        let reader = self.read_after_giving_up();
                        proof {
                            let first = entry.since(before);
                            let second = self.since(entry);
                            let end = ReadState::Done { wrapper: reader@ };
                            access::lemma_since_add(before, entry, *self);
                            lemma_read_add(start, first, ReadState::Start, second, end);
                            lemma_entries_add(first, second);
                        }
                        return reader;
                    }
                    attempts = attempts - 1;
                },
                _ => {},
            }
            let ghost previous = state;
            state = self.read_step(state);
            proof {
                let run = entry.since(before);
                let event = self.trace().last();
                access::lemma_since_push(before, entry, *self, event);
                lemma_read_push(start, run, previous.map(shown()), event);
                lemma_entries_push(run, event);
                assert forall|i: int| 0 <= i < run.push(event).len() implies !((
                #[trigger] run.push(event)[i]) is GaveUp) by {
                    if i < run.len() {
                        assert(run[i] == run.push(event)[i]);
                    }
                }
            }
        }
    }
}

/// `run` is a write of `request` that comes to `outcome`.
pub open spec fn writes<T>(
    run: Seq<Event<Wrapper<T>>>,
    request: Request<T>,
    outcome: Outcome<T>,
) -> bool {
    WriteState::TakeLock { request }.reach(run) == Some(WriteState::Done { outcome })
}

/// What the outcome of a write says, whatever the other threads do: only a compare-and-set is
/// refused, and then it gets its data back with a version other than the expected one; if it is
/// not refused, its version is the one after the expected one.
pub open spec fn granted<T>(request: Request<T>, outcome: Outcome<T>) -> bool {
    match request {
        Request::Overwrite { .. } => outcome is Ok,
        Request::CompareAndSet { data, expected } => match outcome {
            Ok(version) => version == protocol::successor(expected),
            Err((refused, current)) => refused == data && current != expected,
        },
    }
}

/// One more event leads on from where the others have led.
proof fn lemma_write_push<T>(
    start: WriteState<T>,
    run: Seq<Event<Wrapper<T>>>,
    state: WriteState<T>,
    event: Event<Wrapper<T>>,
)
    requires
        start.reach(run) == Some(state),
        state.accepts(event),
    ensures
        start.reach(run.push(event)) == Some(state.next(event)),
{
    assert(run.push(event).drop_last() =~= run);
}

/// A run can be followed by another that begins where the first has led.
proof fn lemma_write_add<T>(
    start: WriteState<T>,
    first: Seq<Event<Wrapper<T>>>,
    middle: WriteState<T>,
    second: Seq<Event<Wrapper<T>>>,
    end: WriteState<T>,
)
    requires
        start.reach(first) == Some(middle),
        middle.reach(second) == Some(end),
    ensures
        start.reach(first + second) == Some(end),
    decreases second.len(),
{
    if second.len() == 0 {
        assert(first + second =~= first);
    } else {
        let before = middle.reach(second.drop_last())->0;
        lemma_write_add(start, first, middle, second.drop_last(), before);
        assert((first + second).drop_last() =~= first + second.drop_last());
    }
}

/// What a write that is to write `data` has done by `state`: before it has put that into a slot, it
/// still has it.
spec fn puts<T: Sync + Send + 'static>(
    tsv: InnerSlotPairTSV<T>,
    data: T,
    state: WriteState<T>,
) -> bool {
    match state {
        WriteState::TakeLock { request } => alone::wanted(request) == data,
        WriteState::LoadVersion { request } => alone::wanted(request) == data,
        WriteState::Wait { data: value, .. } => value == data,
        WriteState::Swap { data: value, .. } => value == data,
        WriteState::Advance { version } => tsv.took(
            protocol::slot_of(version),
            Wrapper { data, version },
        ),
        WriteState::Unlock { outcome: Ok(version) } => tsv.took(
            protocol::slot_of(version),
            Wrapper { data, version },
        ),
        WriteState::Done { outcome: Ok(version) } => tsv.took(
            protocol::slot_of(version),
            Wrapper { data, version },
        ),
        _ => true,
    }
}

proof fn lemma_write_puts<T: Sync + Send + 'static>(
    tsv: InnerSlotPairTSV<T>,
    run: Run<T>,
    data: T,
    start: WriteState<T>,
    state: WriteState<T>,
)
    requires
        tsv.had(run),
        puts(tsv, data, start),
        start.reach(run.events) == Some(state),
    ensures
        puts(tsv, data, state),
    decreases run.events.len(),
{
    let n = run.events.len() as int;
    if n > 0 {
        let shorter = run.part(0, n - 1);
        access::lemma_part_had(tsv, run, 0, n - 1);
        assert(shorter.events =~= run.events.drop_last());
        lemma_write_puts(tsv, shorter, data, start, start.reach(shorter.events)->0);
        assert(tsv.happened(
            run.events[n - 1],
            run.by,
            run.stamp_before(n - 1),
            run.stamps[n - 1],
        ));
    }
}

/// A write that returns `version` has put its value, with that version, into the slot of that
/// version.
pub(crate) proof fn lemma_write_took<T: Sync + Send + 'static>(
    tsv: InnerSlotPairTSV<T>,
    run: Run<T>,
    request: Request<T>,
    version: Version,
)
    requires
        tsv.had(run),
        (WriteState::TakeLock { request }).reach(run.events) == Some(
            (WriteState::<T>::Done { outcome: Ok(version) }),
        ),
    ensures
        tsv.took(
            protocol::slot_of(version),
            (Wrapper { data: alone::wanted(request), version }),
        ),
{
    lemma_write_puts(
        tsv,
        run,
        alone::wanted(request),
        WriteState::TakeLock { request },
        WriteState::Done { outcome: Ok(version) },
    );
}

impl<'a, T: Sync + Send + 'static> Access<'a, T> {
    /// Publishes `data` under `version`, which is what the version counter holds. The write lock
    /// is had.
    fn publish(&mut self, data: T, version: Version)
        ensures
            final(self).continues(*old(self)),
            (WriteState::Wait { data, version }).reach(final(self).since(*old(self))) == Some(
                (WriteState::<T>::Unlock { outcome: Ok(version) }),
            ),
        opens_invariants [old(self).clock().id()]
    {
        let ghost before = *self;
        let ghost start = WriteState::Wait { data, version };
        let slot: usize = protocol::slot_index(version);
        let wrapper = Arc::new(Wrapper::new(data, version));
        let _ = self.wait_until_idle(slot);
        let ghost idle = *self;
        // What is replaced is dropped on return, after the new value is current: what its
        // destructor reads from the variable is the new value.
        let _replaced = self.swap(slot, wrapper);
        let ghost swapped = *self;
        let _ = self.advance();
        proof {
            let first = idle.trace().last();
            let second = swapped.trace().last();
            let third = self.trace().last();
            access::lemma_since_now(before);
            access::lemma_since_push(before, before, idle, first);
            access::lemma_since_push(before, idle, swapped, second);
            access::lemma_since_push(before, swapped, *self, third);
            lemma_write_push(start, Seq::empty(), start, first);
            lemma_write_push(start, idle.since(before), start.next(first), second);
            lemma_write_push(
                start,
                swapped.since(before),
                start.next(first).next(second),
                third,
            );
        }
    }

    /// Does what `request` asks for.
    pub fn write(&mut self, request: Request<T>) -> (outcome: Outcome<T>)
        ensures
            final(self).continues(*old(self)),
            (WriteState::TakeLock { request }).reach(final(self).since(*old(self))) == Some(
                (WriteState::Done { outcome }),
            ),
            granted(request, outcome),
        opens_invariants [old(self).clock().id()]
    {
        let ghost before = *self;
        let ghost start = WriteState::TakeLock { request };
        let guard = self.lock();
        let ghost locked = *self;
        let next_version: u64 = self.load_version();
        let ghost looked = *self;
        let state = WriteState::plan(request, next_version);
        proof {
            let first = locked.trace().last();
            let second = looked.trace().last();
            access::lemma_since_now(before);
            access::lemma_since_push(before, before, locked, first);
            access::lemma_since_push(before, locked, looked, second);
            lemma_write_push(start, Seq::empty(), start, first);
            lemma_write_push(start, locked.since(before), start.next(first), second);
            access::lemma_since_now(looked);
        }
        let ghost planned = state;
        let outcome: Outcome<T> = match state {
            WriteState::Wait { data, version } => {
                self.publish(data, version);
                Ok(version)
            },
            WriteState::Unlock { outcome } => outcome,
            _ => Ok(next_version),
        };
        let ghost settled = *self;
        self.release(guard);
        proof {
            let end = WriteState::Unlock { outcome };
            let run = settled.since(looked);
            access::lemma_since_add(before, looked, settled);
            access::lemma_since_push(before, settled, *self, Event::Unlocked);
            lemma_write_add(start, looked.since(before), planned, run, end);
            lemma_write_push(start, settled.since(before), end, Event::Unlocked);
        }
        outcome
    }
}

/// `run` is an attempt at an update: up to its `j`th event, `old` is read; then it is tried to put
/// `new`, which `f` returned for the value of `old`, in the place of `old`, which comes to
/// `outcome`.
pub open spec fn attempts<T, F: Fn(&T) -> T>(
    run: Seq<Event<Wrapper<T>>>,
    f: F,
    j: int,
    old: Wrapper<T>,
    new: T,
    outcome: Outcome<T>,
) -> bool {
    let request = Request::CompareAndSet { data: new, expected: old.version };
    &&& 0 <= j <= run.len()
    &&& reads(run.take(j), ReadState::Start, old)
    &&& call_ensures(f, (&old.data,), new)
    &&& WriteState::TakeLock { request }.reach(run.skip(j)) == Some(WriteState::Done { outcome })
}

/// `run` consists of `n` attempts at an update that are all refused.
pub open spec fn fails<T, F: Fn(&T) -> T>(run: Seq<Event<Wrapper<T>>>, f: F, n: nat) -> bool
    decreases n,
{
    if n == 0 {
        run.len() == 0
    } else {
        exists|i: int, j: int, old: Wrapper<T>, new: T, refusal: (T, Version)|
            {
                &&& 0 <= i <= run.len()
                &&& fails(run.take(i), f, (n - 1) as nat)
                &&& #[trigger] attempts(run.skip(i), f, j, old, new, Err(refusal))
            }
    }
}

/// `run` is an update under the write lock: up to its `j`th event, `old` is read, by a thread that
/// has given up to race; then, under the same lock, `new`, which `f` returned for the value of
/// `old`, is published under `version`.
pub open spec fn locks<T, F: Fn(&T) -> T>(
    run: Seq<Event<Wrapper<T>>>,
    f: F,
    j: int,
    old: Wrapper<T>,
    new: T,
    version: Version,
) -> bool {
    &&& 0 <= j <= run.len()
    &&& ReadState::Start.reach(run.take(j)) == Some(
        ReadState::Unlock { wrapper: old, found: old.version },
    )
    &&& call_ensures(f, (&old.data,), new)
    &&& version == protocol::successor(old.version)
    &&& WriteState::Wait { data: new, version }.reach(run.skip(j)) == Some(
        WriteState::<T>::Done { outcome: Ok(version) },
    )
}

/// `run` is an update: `n` attempts that are refused, up to its `i`th event, and then one that is
/// not; or, after [`RETRY_LIMIT`] refusals, one that locks other writers out. By it `new`, which
/// `f` returned for the value of `old`, becomes the value of `version`, the one after that of `old`.
pub open spec fn updates<T, F: Fn(&T) -> T>(
    run: Seq<Event<Wrapper<T>>>,
    f: F,
    n: nat,
    i: int,
    j: int,
    old: Wrapper<T>,
    new: T,
    version: Version,
) -> bool {
    &&& 0 <= i <= run.len()
    &&& n <= RETRY_LIMIT
    &&& fails(run.take(i), f, n)
    &&& version == protocol::successor(old.version)
    &&& if n < RETRY_LIMIT {
        attempts(run.skip(i), f, j, old, new, Ok(version))
    } else {
        locks(run.skip(i), f, j, old, new, version)
    }
}

/// An update may call `f` with `value`. Any value may come to be the current one, so this holds of all
/// of them; but only an update knows, so whoever hands it a function cannot call that function with
/// what they read, nor make another of it to hand on.
pub closed spec fn may_see<T, F: Fn(&T) -> T>(f: F, value: &T) -> bool {
    true
}

/// An update has loaded the value that it called its function with, and has put what the function
/// returned, with the version that it returns, into the slot of that version.
pub(crate) proof fn lemma_update_gave_and_took<T: Sync + Send + 'static, F: Fn(&T) -> T>(
    tsv: InnerSlotPairTSV<T>,
    run: Run<T>,
    f: F,
    n: nat,
    i: int,
    j: int,
    old: Wrapper<T>,
    new: T,
    version: Version,
)
    requires
        tsv.had(run),
        updates(run.events, f, n, i, j, old, new, version),
    ensures
        tsv.gave(old),
        tsv.took(protocol::slot_of(version), (Wrapper { data: new, version })),
        call_ensures(f, (&old.data,), new),
{
    let events = run.events.skip(i);
    let end = run.events.len() as int;
    let read = run.part(i, i + j);
    let written = run.part(i + j, end);
    access::lemma_part_had(tsv, run, i, i + j);
    access::lemma_part_had(tsv, run, i + j, end);
    assert(read.events =~= events.take(j));
    assert(written.events =~= events.skip(j));
    let start = ReadState::<Wrapper<T>>::Start;
    lemma_read_gave(tsv, read, start, start.reach(read.events)->0);
    if n < RETRY_LIMIT {
        let request = Request::CompareAndSet { data: new, expected: old.version };
        lemma_write_took(tsv, written, request, version);
    } else {
        lemma_write_puts(
            tsv,
            written,
            new,
            WriteState::Wait { data: new, version },
            WriteState::Done { outcome: Ok(version) },
        );
    }
}

impl<'a, T: Sync + Send + 'static> Access<'a, T> {
    /// Tries once to replace the current value by what `f` returns for it.
    fn try_update<F>(&mut self, f: &F) -> (outcome: Outcome<T>) where F: Fn(&T) -> T
        requires
            forall|value: &T| call_requires(*f, (value,)),
        ensures
            final(self).continues(*old(self)),
            exists|j: int, old_value: Wrapper<T>, new_value: T|
                {
                    &&& #[trigger] attempts(
                        final(self).since(*old(self)),
                        *f,
                        j,
                        old_value,
                        new_value,
                        outcome,
                    )
                    &&& outcome matches Ok(version) ==> version == protocol::successor(
                        old_value.version,
                    )
                },
    {
        let ghost before = *self;
        let reader = self.read(None);
        let ghost read = *self;
        let data = f(reader.get());
        let ghost new_value = data;
        let expected: Version = reader.version();
        let outcome: Outcome<T> = self.write(Request::CompareAndSet { data, expected });
        proof {
            access::lemma_since_add(before, read, *self);
            let run = self.since(before);
            let j = read.since(before).len() as int;
            assert(run.take(j) =~= read.since(before));
            assert(run.skip(j) =~= self.since(read));
            assert(attempts(run, *f, j, reader@, new_value, outcome));
        }
        outcome
    }

    /// Replaces the current value by what `f` returns for it, keeping other writers out.
    fn update_locked<F>(&mut self, f: &F) -> (version: Version) where F: Fn(&T) -> T
        requires
            forall|value: &T| call_requires(*f, (value,)),
        ensures
            final(self).continues(*old(self)),
            exists|j: int, old_value: Wrapper<T>, new_value: T| #[trigger]
                locks(final(self).since(*old(self)), *f, j, old_value, new_value, version),
    {
        let ghost before = *self;
        self.give_up();
        let ghost gave_up = *self;
        let guard = self.lock();
        let ghost locked = *self;
        let reader = self.read_locked();
        let ghost read = *self;
        let data = f(reader.get());
        let ghost new_value = data;
        let version: Version = protocol::next_version(reader.version());
        self.publish(data, version);
        let ghost published = *self;
        self.release(guard);
        proof {
            let run = self.since(before);
            let start = ReadState::<Wrapper<T>>::Start;
            let found = ReadState::Unlock { wrapper: reader@, found: reader@.version };
            let wait = WriteState::Wait { data: new_value, version };
            let done = WriteState::<T>::Unlock { outcome: Ok(version) };
            access::lemma_since_now(before);
            access::lemma_since_push(before, before, gave_up, Event::GaveUp);
            access::lemma_since_push(before, gave_up, locked, Event::Locked);
            access::lemma_since_add(before, locked, read);
            access::lemma_since_push(read, published, *self, Event::Unlocked);
            access::lemma_since_add(before, read, *self);
            lemma_read_push(start, Seq::empty(), start, Event::GaveUp);
            lemma_read_push(start, gave_up.since(before), ReadState::TakeLock, Event::Locked);
            lemma_read_add(
                start,
                locked.since(before),
                ReadState::LockedVersion,
                read.since(locked),
                found,
            );
            lemma_write_push(wait, published.since(read), done, Event::Unlocked);
            let j = read.since(before).len() as int;
            assert(run.take(j) =~= read.since(before));
            assert(run.skip(j) =~= self.since(read));
            assert(locks(run, *f, j, reader@, new_value, version));
        }
        version
    }

    /// Replaces the current value by what `f` returns for it, and returns the new version.
    ///
    /// Between the call of `f` and the write, other threads may write. Then it starts over. Only
    /// when this has happened [`RETRY_LIMIT`] times does it keep them out while it calls `f`, which
    /// must not write to the same variable then.
    pub fn update<F>(&mut self, f: F) -> (version: Version) where F: Fn(&T) -> T
        requires
            forall|value: &T| #[trigger] may_see(f, value) ==> call_requires(f, (value,)),
        ensures
            final(self).continues(*old(self)),
            exists|n: nat, i: int, j: int, old_value: Wrapper<T>, new_value: T| #[trigger]
                updates(
                    final(self).since(*old(self)),
                    f,
                    n,
                    i,
                    j,
                    old_value,
                    new_value,
                    version,
                ),
    {
        let ghost before = *self;
        proof {
            access::lemma_since_now(before);
            assert forall|value: &T| call_requires(f, (value,)) by {
                assert(may_see(f, value));
            }
        }
        let mut refusals: u64 = 0;
        while refusals < RETRY_LIMIT
            invariant
                before == *old(self),
                self.continues(before),
                fails(self.since(before), f, refusals as nat),
                forall|value: &T| call_requires(f, (value,)),
            decreases RETRY_LIMIT - refusals,
        {
            let ghost entry = *self;
            let outcome: Outcome<T> = self.try_update(&f);
            let ghost i = entry.since(before).len() as int;
            let ghost attempt = self.since(entry);
            let ghost run = self.since(before);
            let ghost (j, old_value, new_value) = choose|
                j: int,
                old_value: Wrapper<T>,
                new_value: T,
            |
                {
                    &&& #[trigger] attempts(attempt, f, j, old_value, new_value, outcome)
                    &&& outcome matches Ok(version) ==> version == protocol::successor(
                        old_value.version,
                    )
                };
            proof {
                access::lemma_since_add(before, entry, *self);
                assert(run.take(i) =~= entry.since(before));
                assert(run.skip(i) =~= attempt);
            }
            match outcome {
                Ok(version) => {
                    assert(updates(
                        self.since(before),
                        f,
                        refusals as nat,
                        i,
                        j,
                        old_value,
                        new_value,
                        version,
                    ));
                    return version;
                },
                Err(refusal) => {
                    assert(attempts(run.skip(i), f, j, old_value, new_value, Err(refusal)));
                },
            }
            refusals = refusals + 1;
        }
        let ghost entry = *self;
        let version: Version = self.update_locked(&f);
        proof {
            let i = entry.since(before).len() as int;
            let run = self.since(before);
            let (j, old_value, new_value) = choose|
                j: int,
                old_value: Wrapper<T>,
                new_value: T,
            | #[trigger] locks(self.since(entry), f, j, old_value, new_value, version);
            access::lemma_since_add(before, entry, *self);
            assert(run.take(i) =~= entry.since(before));
            assert(run.skip(i) =~= self.since(entry));
            assert(updates(run, f, refusals as nat, i, j, old_value, new_value, version));
        }
        version
    }
}

} // verus!
