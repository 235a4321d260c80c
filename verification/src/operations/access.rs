//! What a thread can do to the shared memory, event by event.
//!
//! All atomic accesses are sequentially consistent.
use crate::model::{Memory, Slot, Waiting};
use crate::once::clock::Clock;
use crate::outside;
use crate::outside::{Call, CellCall, Signaler};
use crate::protocol::{Event, Version, Wrapper};
use parking_lot::{Mutex, RwLock};
use rclite::Arc;
use std::sync::atomic::{AtomicU32, AtomicU64};
use vstd::prelude::*;

verus! {

/// One of the two places that a value can be in. A writer puts a value there only after it has seen
/// that `n_readers` is zero.
#[verifier::reject_recursive_types(T)]
struct Var<T: Sync + Send + 'static> {
    wrapper: RwLock<Arc<Wrapper<T>>>,
    n_readers: AtomicU32,
}

impl<T: Sync + Send + 'static> Var<T> {
    /// What it began with.
    spec fn initial(&self) -> Slot<T> {
        Slot {
            wrapper: outside::held(outside::first_in(self.wrapper)),
            readers: outside::first_u32(self.n_readers) as nat,
        }
    }

    fn new(wrapper: Arc<Wrapper<T>>) -> (var: Self)
        ensures
            var.initial() == (Slot { wrapper: outside::held(wrapper), readers: 0 }),
        opens_invariants none
    {
        Var { wrapper: outside::new_cell(wrapper), n_readers: outside::new_u32(0) }
    }
}

/// What the threads that use a variable share. The value of version `v` is in `vars[v & 1]`.
///
/// Only an [`Access`] leads to what is in it.
#[verifier::reject_recursive_types(T)]
pub struct InnerSlotPairTSV<T: Sync + Send + 'static> {
    vars: [Var<T>; 2],
    next_version: AtomicU64,
    write_lock: Mutex<()>,
    waiting_writer: Signaler,
}

impl<T: Sync + Send + 'static> InnerSlotPairTSV<T> {
    /// The memory that it began with.
    pub closed spec fn initial(&self) -> Memory<T> {
        Memory {
            slots: seq![self.vars[0].initial(), self.vars[1].initial()],
            next_version: outside::first_u64(self.next_version),
            holder: None,
            waiting: Waiting::Away,
        }
    }

    /// A memory that holds `first` and `second`, which are to hold the same value, of version 0.
    pub(crate) fn of(first: Arc<Wrapper<T>>, second: Arc<Wrapper<T>>) -> (tsv: Self)
        requires
            outside::held(first) == outside::held(second),
            outside::held(first).version == 0,
        ensures
            tsv.initial() == Memory::initial(outside::held(first).data),
        opens_invariants none
    {
        InnerSlotPairTSV {
            vars: [Var::new(first), Var::new(second)],
            next_version: outside::new_u64(1),
            write_lock: outside::new_lock(),
            waiting_writer: Signaler::new(),
        }
    }

    /// Wakes the writer that sleeps until its slot is free of readers, if there is one.
    fn signal_writer(&self, clock: &mut Clock)
        ensures
            final(clock).id() == old(clock).id(),
            final(clock).calls() > old(clock).calls(),
            self.happened(
                Event::Signalled,
                final(clock).id(),
                old(clock).calls(),
                final(clock).calls(),
            ),
        opens_invariants [old(clock).id()]
    {
        self.waiting_writer.signal(clock);
    }
}

/// Whether there are readers, by their counter. What the counter says, which depends on what other
/// threads do, is left in `seen`.
pub(crate) fn is_in_use(n_readers: &AtomicU32, seen: &mut u32, clock: &mut Clock) -> (in_use: bool)
    ensures
        in_use <==> *final(seen) > 0,
        final(clock).counts(
            *old(clock),
            (Call::LoadU32 { counter: *n_readers, value: *final(seen) }),
        ),
    opens_invariants [old(clock).id()]
{
    *seen = outside::load_u32(n_readers, clock);
    *seen > 0
}

/// Events, one after the other, that happened to the thread whose calls clock `by` counted. The
/// clock had counted `start` calls before, and `stamps[i]` when `events[i]` was over.
pub struct Run<T> {
    pub by: int,
    pub start: nat,
    pub events: Seq<Event<Wrapper<T>>>,
    pub stamps: Seq<nat>,
}

impl<T> Run<T> {
    pub open spec fn push(self, event: Event<Wrapper<T>>, stamp: nat) -> Run<T> {
        Run { events: self.events.push(event), stamps: self.stamps.push(stamp), ..self }
    }

    /// How many calls the clock had counted when the first `i` events were over.
    pub open spec fn stamp_before(self, i: int) -> nat {
        if i == 0 {
            self.start
        } else {
            self.stamps[i - 1]
        }
    }

    /// How many calls the clock had counted when all was over.
    pub open spec fn end(self) -> nat {
        self.stamp_before(self.stamps.len() as int)
    }

    /// What there is of it from event `start` up to event `end`.
    pub open spec fn part(self, start: int, end: int) -> Run<T> {
        Run {
            by: self.by,
            start: self.stamp_before(start),
            events: self.events.subrange(start, end),
            stamps: self.stamps.subrange(start, end),
        }
    }

    /// The events came one after the other.
    pub open spec fn is_ordered(self) -> bool {
        &&& self.stamps.len() == self.events.len()
        &&& forall|i: int|
            0 <= i < self.events.len() ==> self.stamp_before(i) <= #[trigger] self.stamps[i]
    }
}

impl<T: Sync + Send + 'static> InnerSlotPairTSV<T> {
    /// `event` is what the calls amount to that clock `by` counted after its `start`th, up to its
    /// `n`th: on which part of the memory, with which arguments, and with which results they were
    /// made. There are no others among them.
    pub closed spec fn happened(
        &self,
        event: Event<Wrapper<T>>,
        by: int,
        start: nat,
        n: nat,
    ) -> bool {
        match event {
            Event::Version { next_version } => n == start + 1 && outside::made(
                Call::LoadU64 { counter: self.next_version, value: next_version },
                by,
                n,
            ),
            Event::Entered { slot } => n == start + 1 && slot < 2 && exists|before: u32| #[trigger]
                outside::made(
                    Call::AddU32 { counter: self.vars[slot as int].n_readers, by: 1, before },
                    by,
                    n,
                ),
            Event::Loaded { slot, wrapper, version } => n == start + 1 && slot < 2 && version
                == wrapper.version && outside::made_on_cell(
                CellCall::Load { cell: self.vars[slot as int].wrapper, value: wrapper },
                by,
                n,
            ),
            Event::Left { slot, before } => n == start + 1 && slot < 2 && outside::made(
                Call::SubU32 { counter: self.vars[slot as int].n_readers, by: 1, before },
                by,
                n,
            ),
            Event::Signalled => start < n && self.waiting_writer.signalled(by, start, n),
            Event::GaveUp => n == start,
            Event::Locked => n == start + 1 && outside::made(
                Call::Lock { mutex: self.write_lock },
                by,
                n,
            ),
            Event::Unlocked => n == start + 1 && outside::made(
                Call::Unlock { mutex: self.write_lock },
                by,
                n,
            ),
            Event::Idle { slot, readers } => start < n && slot < 2 && self.waiting_writer.waited(
                self.vars[slot as int].n_readers,
                readers,
                by,
                start,
                n,
            ),
            Event::Swapped { slot, wrapper } => n == start + 1 && slot < 2 && exists|
                replaced: Wrapper<T>,
            | #[trigger]
                outside::made_on_cell(
                    CellCall::Replace {
                        cell: self.vars[slot as int].wrapper,
                        value: wrapper,
                        replaced,
                    },
                    by,
                    n,
                ),
            Event::Advanced { from } => n == start + 1 && outside::made(
                Call::AddU64 { counter: self.next_version, by: 1, before: from },
                by,
                n,
            ),
        }
    }

    /// `run` is what happened here by the calls that its clock counted from its start to its end, and
    /// by these calls nothing else happened.
    pub open spec fn had(&self, run: Run<T>) -> bool {
        &&& run.stamps.len() == run.events.len()
        &&& forall|i: int|
            0 <= i < run.events.len() ==> self.happened(
                #[trigger] run.events[i],
                run.by,
                run.stamp_before(i),
                run.stamps[i],
            )
    }

    /// `guard` stands for the write lock.
    pub closed spec fn is_locked_by<G>(&self, guard: G) -> bool {
        outside::guards(guard, self.write_lock)
    }

    /// `wrapper` was put into `slot`.
    pub open spec fn took(&self, slot: usize, wrapper: Wrapper<T>) -> bool {
        exists|by: int, start: nat, n: nat| #[trigger]
            self.happened((Event::Swapped { slot, wrapper }), by, start, n)
    }

    /// `wrapper` was loaded from a slot.
    pub open spec fn gave(&self, wrapper: Wrapper<T>) -> bool {
        exists|slot: usize, by: int, start: nat, n: nat| #[trigger]
            self.happened(
                (Event::Loaded { slot, wrapper, version: wrapper.version }),
                by,
                start,
                n,
            )
    }
}

/// A thread's way to the shared memory. It keeps a record of all that the thread does there and
/// sees there: what happens through it is in its trace, and what is in its trace has happened.
#[verifier::reject_recursive_types(T)]
pub struct Access<'a, T: Sync + Send + 'static> {
    tsv: &'a InnerSlotPairTSV<T>,
    clock: Clock,
    run: Ghost<Run<T>>,
}

impl<'a, T: Sync + Send + 'static> Access<'a, T> {
    /// What it leads to.
    pub closed spec fn tsv(&self) -> InnerSlotPairTSV<T> {
        *self.tsv
    }

    /// The clock that counts the calls which are made through it.
    pub closed spec fn clock(&self) -> Clock {
        self.clock
    }

    /// All that has happened through it.
    pub closed spec fn run(&self) -> Run<T> {
        self.run@
    }

    pub open spec fn trace(&self) -> Seq<Event<Wrapper<T>>> {
        self.run().events
    }

    /// What has happened through it since it was as `before`.
    pub open spec fn since(&self, before: Self) -> Seq<Event<Wrapper<T>>> {
        self.run_since(before).events
    }

    /// What has happened through it since it was as `before`, by its clock.
    pub open spec fn run_since(&self, before: Self) -> Run<T> {
        Run {
            by: self.clock().id(),
            start: before.clock().calls(),
            events: self.run().events.skip(before.run().events.len() as int),
            stamps: self.run().stamps.skip(before.run().stamps.len() as int),
        }
    }

    /// It is what becomes of `before` when more happens. All calls that its clock has counted since
    /// then are on record.
    pub open spec fn continues(&self, before: Self) -> bool {
        let run = self.run_since(before);
        &&& self.tsv() == before.tsv()
        &&& self.clock().id() == before.clock().id()
        &&& before.run().events.len() <= self.run().events.len()
        &&& before.run().stamps.len() <= self.run().stamps.len()
        &&& self.run().events == before.run().events + run.events
        &&& self.run().stamps == before.run().stamps + run.stamps
        &&& self.tsv().had(run)
        &&& run.end() == self.clock().calls()
    }

    /// It is what becomes of `before` when `event` happens to the memory that it leads to, and nothing
    /// else.
    pub open spec fn records(&self, before: Self, event: Event<Wrapper<T>>) -> bool {
        &&& self.tsv() == before.tsv()
        &&& self.clock().id() == before.clock().id()
        &&& self.run() == before.run().push(event, self.clock().calls())
        &&& self.tsv().happened(
            event,
            self.clock().id(),
            before.clock().calls(),
            self.clock().calls(),
        )
    }

    /// A way to `tsv` for which `clock` counts the calls.
    pub(crate) fn start(tsv: &'a InnerSlotPairTSV<T>, clock: Clock) -> (access: Self)
        ensures
            access.tsv() == *tsv,
            access.clock() == clock,
            access.run().events.len() == 0,
            access.run().stamps.len() == 0,
        opens_invariants none
    {
        let ghost run = Run {
            by: clock.id(),
            start: clock.calls(),
            events: Seq::empty(),
            stamps: Seq::empty(),
        };
        Access { tsv, clock, run: Ghost(run) }
    }

    pub(super) fn load_version(&mut self) -> (next_version: u64)
        ensures
            final(self).records(*old(self), (Event::Version { next_version })),
        opens_invariants [old(self).clock().id()]
    {
        let next_version: u64 = outside::load_u64(&self.tsv.next_version, &mut self.clock);
        self.run = Ghost(self.run@.push(Event::Version { next_version }, self.clock.calls()));
        next_version
    }

    pub(super) fn enter(&mut self, slot: usize)
        requires
            slot < 2,
        ensures
            final(self).records(*old(self), (Event::Entered { slot })),
        opens_invariants [old(self).clock().id()]
    {
        let _ = outside::add_u32(&self.tsv.vars[slot].n_readers, 1, &mut self.clock);
        self.run = Ghost(self.run@.push(Event::Entered { slot }, self.clock.calls()));
    }

    pub(super) fn load(&mut self, slot: usize) -> (wrapper: Arc<Wrapper<T>>)
        requires
            slot < 2,
        ensures
            final(self).records(
                *old(self),
                (Event::Loaded {
                    slot,
                    wrapper: outside::held(wrapper),
                    version: outside::held(wrapper).version,
                }),
            ),
        opens_invariants [old(self).clock().id()]
    {
        let wrapper = outside::load(&self.tsv.vars[slot].wrapper, &mut self.clock);
        let ghost value = outside::held(wrapper);
        let ghost event = Event::Loaded { slot, wrapper: value, version: value.version };
        self.run = Ghost(self.run@.push(event, self.clock.calls()));
        wrapper
    }

    pub(super) fn leave(&mut self, slot: usize) -> (before: u32)
        requires
            slot < 2,
        ensures
            final(self).records(*old(self), (Event::Left { slot, before })),
        opens_invariants [old(self).clock().id()]
    {
        let before: u32 = outside::sub_u32(&self.tsv.vars[slot].n_readers, 1, &mut self.clock);
        self.run = Ghost(self.run@.push(Event::Left { slot, before }, self.clock.calls()));
        before
    }

    pub(super) fn signal(&mut self)
        ensures
            final(self).records(*old(self), Event::Signalled),
        opens_invariants [old(self).clock().id()]
    {
        self.tsv.signal_writer(&mut self.clock);
        self.run = Ghost(self.run@.push(Event::Signalled, self.clock.calls()));
    }

    pub(super) fn give_up(&mut self)
        ensures
            final(self).records(*old(self), Event::GaveUp),
        opens_invariants [old(self).clock().id()]
    {
        self.run = Ghost(self.run@.push(Event::GaveUp, self.clock.calls()));
    }

    /// Takes the write lock, which is had until the guard is handed to [`Access::release`].
    pub(super) fn lock(&mut self) -> (guard: impl Sized + 'a)
        ensures
            final(self).records(*old(self), Event::Locked),
            final(self).tsv().is_locked_by(guard),
        opens_invariants [old(self).clock().id()]
    {
        let tsv: &'a InnerSlotPairTSV<T> = self.tsv;
        let guard = outside::lock(&tsv.write_lock, &mut self.clock);
        self.run = Ghost(self.run@.push(Event::Locked, self.clock.calls()));
        guard
    }

    /// Releases the write lock, which `guard` stands for.
    pub(super) fn release<G>(&mut self, guard: G)
        requires
            old(self).tsv().is_locked_by(guard),
        ensures
            final(self).records(*old(self), Event::Unlocked),
        opens_invariants [old(self).clock().id()]
    {
        outside::unlock(guard, &self.tsv.write_lock, &mut self.clock);
        self.run = Ghost(self.run@.push(Event::Unlocked, self.clock.calls()));
    }

    pub(super) fn wait_until_idle(&mut self, slot: usize) -> (readers: u32)
        requires
            slot < 2,
        ensures
            readers == 0,
            final(self).records(*old(self), (Event::Idle { slot, readers })),
        opens_invariants [old(self).clock().id()]
    {
        // Not zero until they have been counted.
        let mut readers: u32 = 1;
        outside::wait_while_in_use(
            &self.tsv.waiting_writer,
            &self.tsv.vars[slot].n_readers,
            &mut readers,
            &mut self.clock,
        );
        self.run = Ghost(self.run@.push(Event::Idle { slot, readers }, self.clock.calls()));
        readers
    }

    /// Puts `wrapper` into the slot, and gives what was there.
    pub(super) fn swap(&mut self, slot: usize, wrapper: Arc<Wrapper<T>>) -> (replaced: Arc<
        Wrapper<T>,
    >)
        requires
            slot < 2,
        ensures
            final(self).records(
                *old(self),
                (Event::Swapped { slot, wrapper: outside::held(wrapper) }),
            ),
        opens_invariants [old(self).clock().id()]
    {
        let ghost value = outside::held(wrapper);
        let ghost event = Event::Swapped { slot, wrapper: value };
        let replaced = outside::replace(
            &self.tsv.vars[slot].wrapper,
            wrapper,
            &mut self.clock,
        );
        assert(outside::made_on_cell(
            CellCall::Replace {
                cell: self.tsv.vars[slot as int].wrapper,
                value,
                replaced: outside::held(replaced),
            },
            self.clock.id(),
            self.clock.calls(),
        ));
        self.run = Ghost(self.run@.push(event, self.clock.calls()));
        replaced
    }

    pub(super) fn advance(&mut self) -> (from: u64)
        ensures
            final(self).records(*old(self), (Event::Advanced { from })),
        opens_invariants [old(self).clock().id()]
    {
        let from: u64 = outside::add_u64(&self.tsv.next_version, 1, &mut self.clock);
        self.run = Ghost(self.run@.push(Event::Advanced { from }, self.clock.calls()));
        from
    }
}

/// Nothing has happened yet.
pub proof fn lemma_since_now<T: Sync + Send + 'static>(now: Access<T>)
    ensures
        now.continues(now),
        now.since(now) == Seq::<Event<Wrapper<T>>>::empty(),
{
    assert(now.since(now) =~= Seq::empty());
    assert(now.run().stamps =~= now.run().stamps + now.run_since(now).stamps);
}

/// One more event has happened.
pub proof fn lemma_since_push<T: Sync + Send + 'static>(
    before: Access<T>,
    middle: Access<T>,
    after: Access<T>,
    event: Event<Wrapper<T>>,
)
    requires
        middle.continues(before),
        after.records(middle, event),
    ensures
        after.continues(before),
        after.since(before) == middle.since(before).push(event),
{
    let first = middle.run_since(before);
    let whole = after.run_since(before);
    assert(whole.events =~= first.events.push(event));
    assert(whole.stamps =~= first.stamps.push(after.clock().calls()));
    assert forall|i: int| 0 <= i < whole.events.len() implies after.tsv().happened(
        #[trigger] whole.events[i],
        whole.by,
        whole.stamp_before(i),
        whole.stamps[i],
    ) by {
        if i < first.events.len() {
            assert(whole.events[i] == first.events[i]);
        }
    }
}

/// A whole run has happened.
pub proof fn lemma_since_add<T: Sync + Send + 'static>(
    before: Access<T>,
    middle: Access<T>,
    after: Access<T>,
)
    requires
        middle.continues(before),
        after.continues(middle),
    ensures
        after.continues(before),
        after.since(before) == middle.since(before) + after.since(middle),
{
    let first = middle.run_since(before);
    let second = after.run_since(middle);
    let whole = after.run_since(before);
    let n = first.events.len() as int;
    assert(whole.events =~= first.events + second.events);
    assert(whole.stamps =~= first.stamps + second.stamps);
    assert(after.run().events =~= before.run().events + whole.events);
    assert(after.run().stamps =~= before.run().stamps + whole.stamps);
    assert forall|i: int| 0 <= i < whole.events.len() implies after.tsv().happened(
        #[trigger] whole.events[i],
        whole.by,
        whole.stamp_before(i),
        whole.stamps[i],
    ) by {
        if i < n {
            assert(whole.events[i] == first.events[i]);
        } else {
            assert(whole.events[i] == second.events[i - n]);
        }
    }
}

/// The events of a run came one after the other.
pub proof fn lemma_had_in_order<T: Sync + Send + 'static>(tsv: InnerSlotPairTSV<T>, run: Run<T>)
    requires
        tsv.had(run),
    ensures
        run.is_ordered(),
{
    assert forall|i: int| 0 <= i < run.events.len() implies run.stamp_before(i)
        <= #[trigger] run.stamps[i] by {
        assert(tsv.happened(run.events[i], run.by, run.stamp_before(i), run.stamps[i]));
    }
}

/// What was loaded was loaded with its version.
pub proof fn lemma_loaded_gave<T: Sync + Send + 'static>(
    tsv: InnerSlotPairTSV<T>,
    slot: usize,
    wrapper: Wrapper<T>,
    version: Version,
    by: int,
    start: nat,
    n: nat,
)
    requires
        tsv.happened((Event::Loaded { slot, wrapper, version }), by, start, n),
    ensures
        tsv.gave(wrapper),
{
}

/// A part of what happened has happened.
pub proof fn lemma_part_had<T: Sync + Send + 'static>(
    tsv: InnerSlotPairTSV<T>,
    run: Run<T>,
    start: int,
    end: int,
)
    requires
        tsv.had(run),
        0 <= start <= end <= run.events.len(),
    ensures
        tsv.had(run.part(start, end)),
        run.part(start, end).end() == run.stamp_before(end),
{
    let part = run.part(start, end);
    assert forall|i: int| 0 <= i < part.events.len() implies tsv.happened(
        #[trigger] part.events[i],
        part.by,
        part.stamp_before(i),
        part.stamps[i],
    ) by {
        assert(part.events[i] == run.events[start + i]);
    }
}

} // verus!
