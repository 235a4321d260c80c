//! The functions and types of `parking_lot`, `rclite` and `std` that the variable is built from,
//! with what is taken for granted of them.
use crate::access;
use crate::once::clock::Clock;
use parking_lot::{Condvar, Mutex, RwLock};
use rclite::Arc;
use std::sync::atomic::{AtomicU32, AtomicU64, Ordering};
use vstd::prelude::*;
use vstd::std_specs::convert::FromSpec;

verus! {

/// `parking_lot::Mutex<T>` is this type with `parking_lot::RawMutex` for `R`.
#[verifier::external_type_specification]
#[verifier::external_body]
#[verifier::reject_recursive_types(R)]
#[verifier::reject_recursive_types(T)]
pub struct ExMutex<R, T: ?Sized>(parking_lot::lock_api::Mutex<R, T>);

#[verifier::external_type_specification]
#[verifier::external_body]
pub struct ExRawMutex(parking_lot::RawMutex);

/// `parking_lot::RwLock<T>` is this type with `parking_lot::RawRwLock` for `R`.
#[verifier::external_type_specification]
#[verifier::external_body]
#[verifier::reject_recursive_types(R)]
#[verifier::reject_recursive_types(T)]
pub struct ExRwLock<R, T: ?Sized>(parking_lot::lock_api::RwLock<R, T>);

#[verifier::external_type_specification]
#[verifier::external_body]
pub struct ExRawRwLock(parking_lot::RawRwLock);

#[verifier::external_type_specification]
#[verifier::external_body]
pub struct ExCondvar(parking_lot::Condvar);

#[verifier::external_type_specification]
#[verifier::external_body]
#[verifier::reject_recursive_types(T)]
pub struct ExArc<T>(rclite::Arc<T>);

#[verifier::external_type_specification]
#[verifier::external_body]
pub struct ExFormatter<'a>(std::fmt::Formatter<'a>);

#[verifier::external_type_specification]
#[verifier::external_body]
pub struct ExFmtError(std::fmt::Error);

/// The value that an `Arc` holds: the one that it can be made from.
pub closed spec fn held<T>(arc: Arc<T>) -> T {
    choose|value: T| arc == <Arc<T> as FromSpec<T>>::from_spec(value)
}

/// `rclite::Arc::new`: the new `Arc` holds the value that it is given.
pub assume_specification<T>[ Arc::<T>::new ](data: T) -> (arc: Arc<T>)
    ensures
        held(arc) == data,
    opens_invariants none
;

/// `rclite::Arc::clone`: the clone holds what the original holds. It panics once about four
/// billion clones of one `Arc` are alive, of which nothing can be said here.
pub assume_specification<T>[ <Arc<T> as Clone>::clone ](arc: &Arc<T>) -> (clone: Arc<T>)
    ensures
        held(clone) == held(*arc),
;

/// `rclite::Arc::deref`: it gives the value that the `Arc` holds.
pub assume_specification<T>[ <Arc<T> as std::ops::Deref>::deref ](arc: &Arc<T>) -> (value: &<Arc<
    T,
> as std::ops::Deref>::Target)
    ensures
        *value == held(*arc),
;

/// A call on a counter, a lock or a condition variable: on which one, with which arguments, and what
/// it returned.
#[allow(inconsistent_fields)]
pub enum Call {
    LoadU64 { counter: AtomicU64, value: u64 },
    AddU64 { counter: AtomicU64, by: u64, before: u64 },
    LoadU32 { counter: AtomicU32, value: u32 },
    AddU32 { counter: AtomicU32, by: u32, before: u32 },
    SubU32 { counter: AtomicU32, by: u32, before: u32 },
    Lock { mutex: Mutex<()> },
    Unlock { mutex: Mutex<()> },
    Notify { condvar: Condvar, woken: bool },
    /// It waits until a thread that has `mutex` loads zero from `counter`, which is `seen`.
    WaitWhileInUse { condvar: Condvar, mutex: Mutex<()>, counter: AtomicU32, seen: u32 },
}

/// A call on a cell: on which one, with which value, and which value it gave.
#[verifier::reject_recursive_types(V)]
pub enum CellCall<V> {
    Load { cell: RwLock<Arc<V>>, value: V },
    Replace { cell: RwLock<Arc<V>>, value: V, replaced: V },
}

/// The `n`th call that clock `id` counted is `call`. Only the functions that make such calls say so.
pub closed spec fn made(call: Call, id: int, n: nat) -> bool {
    arbitrary::<spec_fn(Call, int, nat) -> bool>()(call, id, n)
}

/// The `n`th call that clock `id` counted is `call`. Only the functions that make such calls say so.
pub closed spec fn made_on_cell<V>(call: CellCall<V>, id: int, n: nat) -> bool {
    arbitrary::<spec_fn(CellCall<V>, int, nat) -> bool>()(call, id, n)
}

/// `parking_lot::Mutex::new`, a lock that guards no data.
#[verifier::external_body]
pub(crate) fn new_lock() -> Mutex<()>
    opens_invariants none
{
    Mutex::new(())
}

/// While there is `guard`, the thread that has it has `mutex`. Only [`lock`] says so.
pub closed spec fn guards<G>(guard: G, mutex: Mutex<()>) -> bool {
    arbitrary::<spec_fn(G, Mutex<()>) -> bool>()(guard, mutex)
}

/// `parking_lot::Mutex::lock`: it takes the lock, which is had until what is returned is dropped.
/// It does not return in a thread that has the lock already.
#[verifier::external_body]
pub(crate) fn lock<'a>(mutex: &'a Mutex<()>, clock: &mut Clock) -> (guard: impl Sized + 'a)
    ensures
        guards(guard, *mutex),
        final(clock).counts(*old(clock), (Call::Lock { mutex: *mutex })),
    opens_invariants [old(clock).id()]
{
    mutex.lock()
}

/// `parking_lot::MutexGuard::drop`: it releases the lock that `guard` stands for.
#[verifier::external_body]
pub(crate) fn unlock<G>(guard: G, mutex: &Mutex<()>, clock: &mut Clock)
    requires
        guards(guard, *mutex),
    ensures
        final(clock).counts(*old(clock), (Call::Unlock { mutex: *mutex })),
    opens_invariants [old(clock).id()]
{
    drop(guard)
}

/// `parking_lot::Condvar::new`.
#[verifier::external_body]
pub(crate) fn new_condvar() -> Condvar
    opens_invariants none
{
    Condvar::new()
}

/// `parking_lot::Condvar::notify_one`: it wakes one of the threads that wait on `condvar`, if
/// there is one, and says whether it did.
#[verifier::external_body]
pub(crate) fn notify_one(condvar: &Condvar, clock: &mut Clock) -> (woken: bool)
    ensures
        final(clock).counts(*old(clock), (Call::Notify { condvar: *condvar, woken })),
    opens_invariants [old(clock).id()]
{
    condvar.notify_one()
}

/// A condition variable and the one lock that it is used with.
pub struct Signaler {
    mutex: Mutex<()>,
    condvar: Condvar,
}

impl Signaler {
    pub(crate) fn new() -> Signaler
        opens_invariants none
    {
        Signaler { mutex: new_lock(), condvar: new_condvar() }
    }

    /// The three calls that clock `id` counted after its `start`th, up to its `n`th, wake a waiting
    /// thread, under the lock.
    pub closed spec fn signalled(&self, id: int, start: nat, n: nat) -> bool {
        &&& n == start + 3
        &&& made(Call::Lock { mutex: self.mutex }, id, start + 1)
        &&& exists|woken: bool| #[trigger]
            made(Call::Notify { condvar: self.condvar, woken }, id, start + 2)
        &&& made(Call::Unlock { mutex: self.mutex }, id, n)
    }

    /// The calls that clock `id` counted after its `start`th, up to its `n`th, wait until zero, which
    /// is `seen`, is loaded from `counter`: the last of them waits, and the others load.
    pub closed spec fn waited(
        &self,
        counter: AtomicU32,
        seen: u32,
        id: int,
        start: nat,
        n: nat,
    ) -> bool {
        let Signaler { condvar, mutex } = *self;
        &&& start < n
        &&& forall|m: nat| start < m < n ==> #[trigger] loaded(counter, id, m)
        &&& made(Call::WaitWhileInUse { condvar, mutex, counter, seen }, id, n)
    }

    /// Wakes the thread that waits, if there is one. Such a thread has the lock from when it loads
    /// the counter until it is asleep.
    pub(crate) fn signal(&self, clock: &mut Clock)
        ensures
            final(clock).id() == old(clock).id(),
            final(clock).calls() > old(clock).calls(),
            self.signalled(final(clock).id(), old(clock).calls(), final(clock).calls()),
        opens_invariants [old(clock).id()]
    {
        let ghost start = clock.calls();
        let guard = lock(&self.mutex, clock);
        let woken: bool = notify_one(&self.condvar, clock);
        unlock(guard, &self.mutex, clock);
        assert(made(Call::Notify { condvar: self.condvar, woken }, clock.id(), start + 2));
    }
}

/// The `m`th call that clock `id` counted loads `counter`.
pub open spec fn loaded(counter: AtomicU32, id: int, m: nat) -> bool {
    exists|value: u32| #[trigger] made(Call::LoadU32 { counter, value }, id, m)
}

/// `parking_lot::Condvar::wait_while`, under the lock: it asks [`access::is_in_use`], waits each time
/// the answer is yes before it asks again, and returns once the answer is no. So what the last asking
/// left in `seen` is a count of zero. The clock counts what it is asked and then the call itself. It
/// does not return in a thread that has the lock already.
#[verifier::external_body]
pub(crate) fn wait_while_in_use(
    signaler: &Signaler,
    n_readers: &AtomicU32,
    seen: &mut u32,
    clock: &mut Clock,
)
    ensures
        *final(seen) == 0,
        final(clock).id() == old(clock).id(),
        final(clock).calls() > old(clock).calls(),
        signaler.waited(
            *n_readers,
            *final(seen),
            final(clock).id(),
            old(clock).calls(),
            final(clock).calls(),
        ),
    opens_invariants [old(clock).id()]
{
    let asking = |_: &mut ()| access::is_in_use(n_readers, seen, clock);
    signaler.condvar.wait_while(&mut signaler.mutex.lock(), asking)
}

/// The value that a cell was made with: the one that it can be made from.
pub closed spec fn first_in<V>(cell: RwLock<V>) -> V {
    choose|value: V| cell == <RwLock<V> as FromSpec<V>>::from_spec(value)
}

/// `parking_lot::RwLock::new`: the new cell is made with the value that it is given.
#[verifier::external_body]
pub(crate) fn new_cell<V>(value: V) -> (cell: RwLock<V>)
    ensures
        first_in(cell) == value,
    opens_invariants none
{
    RwLock::new(value)
}

/// The value that a counter of readers was made with: the one that it can be made from.
pub closed spec fn first_u32(counter: AtomicU32) -> u32 {
    choose|value: u32| counter == <AtomicU32 as FromSpec<u32>>::from_spec(value)
}

/// The value that a version counter was made with: the one that it can be made from.
pub closed spec fn first_u64(counter: AtomicU64) -> u64 {
    choose|value: u64| counter == <AtomicU64 as FromSpec<u64>>::from_spec(value)
}

/// `std::sync::atomic::AtomicU32::from`: the new counter is made with the value that it is given.
#[verifier::external_body]
pub(crate) fn new_u32(value: u32) -> (counter: AtomicU32)
    ensures
        first_u32(counter) == value,
    opens_invariants none
{
    AtomicU32::from(value)
}

/// `std::sync::atomic::AtomicU64::from`: the new counter is made with the value that it is given.
#[verifier::external_body]
pub(crate) fn new_u64(value: u64) -> (counter: AtomicU64)
    ensures
        first_u64(counter) == value,
    opens_invariants none
{
    AtomicU64::from(value)
}

/// `std::sync::atomic::AtomicU64::load`, sequentially consistent. What the counter holds depends on
/// what other threads do.
#[verifier::external_body]
pub(crate) fn load_u64(counter: &AtomicU64, clock: &mut Clock) -> (value: u64)
    ensures
        final(clock).counts(*old(clock), (Call::LoadU64 { counter: *counter, value })),
    opens_invariants [old(clock).id()]
{
    counter.load(Ordering::SeqCst)
}

/// `std::sync::atomic::AtomicU64::fetch_add`, sequentially consistent: it gives what the counter held
/// before.
#[verifier::external_body]
pub(crate) fn add_u64(counter: &AtomicU64, by: u64, clock: &mut Clock) -> (before: u64)
    ensures
        final(clock).counts(*old(clock), (Call::AddU64 { counter: *counter, by, before })),
    opens_invariants [old(clock).id()]
{
    counter.fetch_add(by, Ordering::SeqCst)
}

/// `std::sync::atomic::AtomicU32::load`, sequentially consistent. What the counter holds depends on
/// what other threads do.
#[verifier::external_body]
pub(crate) fn load_u32(counter: &AtomicU32, clock: &mut Clock) -> (value: u32)
    ensures
        final(clock).counts(*old(clock), (Call::LoadU32 { counter: *counter, value })),
    opens_invariants [old(clock).id()]
{
    counter.load(Ordering::SeqCst)
}

/// `std::sync::atomic::AtomicU32::fetch_add`, sequentially consistent: it gives what the counter held
/// before.
#[verifier::external_body]
pub(crate) fn add_u32(counter: &AtomicU32, by: u32, clock: &mut Clock) -> (before: u32)
    ensures
        final(clock).counts(*old(clock), (Call::AddU32 { counter: *counter, by, before })),
    opens_invariants [old(clock).id()]
{
    counter.fetch_add(by, Ordering::SeqCst)
}

/// `std::sync::atomic::AtomicU32::fetch_sub`, sequentially consistent: it gives what the counter held
/// before.
#[verifier::external_body]
pub(crate) fn sub_u32(counter: &AtomicU32, by: u32, clock: &mut Clock) -> (before: u32)
    ensures
        final(clock).counts(*old(clock), (Call::SubU32 { counter: *counter, by, before })),
    opens_invariants [old(clock).id()]
{
    counter.fetch_sub(by, Ordering::SeqCst)
}

/// `parking_lot::RwLock::read`: it gives a clone of the `Arc` that is in the cell at that moment.
/// Which one that is depends on what other threads put there.
#[verifier::external_body]
pub(crate) fn load<V>(cell: &RwLock<Arc<V>>, clock: &mut Clock) -> (arc: Arc<V>)
    ensures
        final(clock).counts_on_cell(
            *old(clock),
            (CellCall::Load { cell: *cell, value: held(arc) }),
        ),
    opens_invariants [old(clock).id()]
{
    Arc::clone(&cell.read())
}

/// `parking_lot::RwLock::write`: it puts `value` into the cell, and gives what was there at that
/// moment. What that is depends on what other threads put there.
#[verifier::external_body]
pub(crate) fn replace<V>(cell: &RwLock<Arc<V>>, value: Arc<V>, clock: &mut Clock) -> (replaced: Arc<
    V,
>)
    ensures
        final(clock).counts_on_cell(
            *old(clock),
            (CellCall::Replace { cell: *cell, value: held(value), replaced: held(replaced) }),
        ),
    opens_invariants [old(clock).id()]
{
    std::mem::replace(&mut *cell.write(), value)
}

/// What `std::fmt::Debug::fmt` of `value` can make of the formatter `before`: `after`, with `result`
/// as what it returns. Only [`debug`] says so.
pub closed spec fn shows<'a, T>(
    value: T,
    before: std::fmt::Formatter<'a>,
    after: std::fmt::Formatter<'a>,
    result: std::fmt::Result,
) -> bool {
    arbitrary::<
        spec_fn(T, std::fmt::Formatter<'a>, std::fmt::Formatter<'a>, std::fmt::Result) -> bool,
    >()(value, before, after, result)
}

/// `std::fmt::Debug::fmt` of `value`: what the formatter becomes, and what is returned, is its doing.
/// What text that is, the type of `value` decides.
#[verifier::external_body]
pub(crate) fn debug<T: std::fmt::Debug>(value: &T, f: &mut std::fmt::Formatter<'_>) -> (result:
    std::fmt::Result)
    ensures
        shows(*value, *old(f), *final(f), result),
{
    value.fmt(f)
}

/// What `std::hash::Hash::hash` of `value` can make of the hasher `before`: `after`. Only [`hash`]
/// says so.
pub closed spec fn feeds<T, H>(value: T, before: H, after: H) -> bool {
    arbitrary::<spec_fn(T, H, H) -> bool>()(value, before, after)
}

/// `std::hash::Hash::hash` of `value`: what the hasher becomes is its doing. What it is fed, the type
/// of `value` decides.
#[verifier::external_body]
pub(crate) fn hash<T: std::hash::Hash, H: std::hash::Hasher>(value: &T, state: &mut H)
    ensures
        feeds(*value, *old(state), *final(state)),
{
    value.hash(state)
}

} // verus!
