//! The protocol that readers and writers follow on the shared memory.
//!
//! An operation is a sequence of [`Event`]s: what a thread did to the shared memory and what it
//! saw there. [`ReadState`] and [`WriteState`] say, at each point of an operation, which events
//! may come next and where each of them leads.
use vstd::prelude::*;

verus! {

/// The number of a published value. The first value has version 0.
pub type Version = u64;

/// A value together with the version under which it was published.
pub struct Wrapper<T> {
    pub data: T,
    pub version: Version,
}

impl<T> Wrapper<T> {
    pub fn new(data: T, version: Version) -> (wrapper: Self)
        ensures
            wrapper == (Wrapper { data, version }),
        opens_invariants none
    {
        Wrapper { data, version }
    }
}

/// The version that is current while the version counter holds `next_version`.
pub open spec fn current(next_version: u64) -> Version {
    if next_version == 0 {
        u64::MAX
    } else {
        (next_version - 1) as u64
    }
}

/// What the version counter holds while `version` is current.
pub open spec fn successor(version: Version) -> u64 {
    if version == u64::MAX {
        0
    } else {
        (version + 1) as u64
    }
}

/// The slot that values of this version live in.
pub open spec fn slot_of(version: Version) -> usize {
    if version % 2 == 0 {
        0
    } else {
        1
    }
}

/// Computes [`current`].
pub fn current_version(next_version: u64) -> (version: Version)
    ensures
        version == current(next_version),
    opens_invariants none
{
    if next_version == 0 {
        u64::MAX
    } else {
        next_version - 1
    }
}

/// Computes [`successor`].
pub fn next_version(version: Version) -> (next: u64)
    ensures
        next == successor(version),
    opens_invariants none
{
    if version == u64::MAX {
        0
    } else {
        version + 1
    }
}

/// Computes [`slot_of`].
pub fn slot_index(version: Version) -> (slot: usize)
    ensures
        slot == slot_of(version),
        slot < 2,
    opens_invariants none
{
    assert(version & 1 == version % 2) by (bit_vector);
    (version & 1) as usize
}

/// Something that a thread did to the shared memory, with what it saw there. `W` stands for a
/// shared [`Wrapper`].
pub enum Event<W> {
    /// It loaded the version counter.
    Version { next_version: u64 },
    /// It added itself to the readers of `slot`.
    Entered { slot: usize },
    /// It took a reference to the wrapper in `slot`, which is of version `version`.
    Loaded { slot: usize, wrapper: W, version: Version },
    /// It took itself off the readers of `slot`, of whom there were `before` until then.
    Left { slot: usize, before: u32 },
    /// It woke the writer that sleeps until a slot is free of readers, if there is one.
    Signalled,
    /// It decided to race against writers no longer.
    GaveUp,
    /// It took the write lock.
    Locked,
    /// It released the write lock.
    Unlocked,
    /// It counted the readers of `slot`, sleeping each time before it counted them anew, and the
    /// last time it counted `readers`.
    Idle { slot: usize, readers: u32 },
    /// It put `wrapper` into `slot`.
    Swapped { slot: usize, wrapper: W },
    /// It added one to the version counter, which held `from` until then.
    Advanced { from: u64 },
}

impl<W> Event<W> {
    /// The same event with `f` applied to the wrapper in it.
    pub open spec fn map<V>(self, f: spec_fn(W) -> V) -> Event<V> {
        match self {
            Event::Version { next_version } => Event::Version { next_version },
            Event::Entered { slot } => Event::Entered { slot },
            Event::Loaded { slot, wrapper, version } => Event::Loaded {
                slot,
                wrapper: f(wrapper),
                version,
            },
            Event::Left { slot, before } => Event::Left { slot, before },
            Event::Signalled => Event::Signalled,
            Event::GaveUp => Event::GaveUp,
            Event::Locked => Event::Locked,
            Event::Unlocked => Event::Unlocked,
            Event::Idle { slot, readers } => Event::Idle { slot, readers },
            Event::Swapped { slot, wrapper } => Event::Swapped { slot, wrapper: f(wrapper) },
            Event::Advanced { from } => Event::Advanced { from },
        }
    }
}

/// How far a thread has come in a read.
pub enum ReadState<W> {
    /// It still holds what it read last, `wrapper` of version `version`, and will check whether
    /// that is current.
    Cached { wrapper: W, version: Version },
    /// It will look up the current version.
    Start,
    /// `version` was current a moment ago. It will enter the slot of that version, to keep out
    /// writers that want to write there.
    Enter { version: Version },
    /// It is in the slot, and will check whether `version` is still current.
    Validate { version: Version },
    /// It is in the slot, and was so while `version` was current: the slot holds that version
    /// until it leaves. It will take the wrapper.
    Load { version: Version },
    /// It has the wrapper, which says that its version is `found`. It will leave the slot.
    Leave { version: Version, wrapper: W, found: Version },
    /// It left the slot empty of readers, and will check whether a writer may want it.
    Recheck { wrapper: W, found: Version },
    /// A writer may sleep until the slot is free. It will wake that writer.
    Signal { wrapper: W },
    /// It lost the race against a writer, and will leave the slot.
    Abandon { version: Version },
    /// It lost the race, left the slot empty of readers and will wake the writer.
    SignalRetry,
    /// It gave up racing, and will take the write lock, which keeps all writers out.
    TakeLock,
    /// It holds the write lock, and will look up the current version.
    LockedVersion,
    /// It holds the write lock, so `version` stays current. It will take the wrapper.
    LockedLoad { version: Version },
    /// It holds the write lock and has the wrapper, which says that its version is `found`.
    Unlock { wrapper: W, found: Version },
    /// It has read `wrapper`.
    Done { wrapper: W },
}

impl<W> ReadState<W> {
    /// The same state with `f` applied to the wrapper in it.
    pub open spec fn map<V>(self, f: spec_fn(W) -> V) -> ReadState<V> {
        match self {
            ReadState::Cached { wrapper, version } => ReadState::Cached {
                wrapper: f(wrapper),
                version,
            },
            ReadState::Start => ReadState::Start,
            ReadState::Enter { version } => ReadState::Enter { version },
            ReadState::Validate { version } => ReadState::Validate { version },
            ReadState::Load { version } => ReadState::Load { version },
            ReadState::Leave { version, wrapper, found } => ReadState::Leave {
                version,
                wrapper: f(wrapper),
                found,
            },
            ReadState::Recheck { wrapper, found } => ReadState::Recheck {
                wrapper: f(wrapper),
                found,
            },
            ReadState::Signal { wrapper } => ReadState::Signal { wrapper: f(wrapper) },
            ReadState::Abandon { version } => ReadState::Abandon { version },
            ReadState::SignalRetry => ReadState::SignalRetry,
            ReadState::TakeLock => ReadState::TakeLock,
            ReadState::LockedVersion => ReadState::LockedVersion,
            ReadState::LockedLoad { version } => ReadState::LockedLoad { version },
            ReadState::Unlock { wrapper, found } => ReadState::Unlock { wrapper: f(wrapper), found },
            ReadState::Done { wrapper } => ReadState::Done { wrapper: f(wrapper) },
        }
    }

    /// Whether `event` is one that the protocol has come next.
    pub open spec fn accepts(self, event: Event<W>) -> bool {
        match self {
            ReadState::Cached { .. } => event is Version,
            ReadState::Start => event is Version || event is GaveUp,
            ReadState::Enter { version } => event == Event::<W>::Entered { slot: slot_of(version) },
            ReadState::Validate { .. } => event is Version,
            ReadState::Load { version } => event matches Event::Loaded { slot, .. } && slot
                == slot_of(version),
            ReadState::Leave { version, .. } => event matches Event::Left { slot, .. } && slot
                == slot_of(version),
            ReadState::Recheck { .. } => event is Version,
            ReadState::Signal { .. } => event is Signalled,
            ReadState::Abandon { version } => event matches Event::Left { slot, .. } && slot
                == slot_of(version),
            ReadState::SignalRetry => event is Signalled,
            ReadState::TakeLock => event is Locked,
            ReadState::LockedVersion => event is Version,
            ReadState::LockedLoad { version } => event matches Event::Loaded { slot, .. } && slot
                == slot_of(version),
            ReadState::Unlock { .. } => event is Unlocked,
            ReadState::Done { .. } => false,
        }
    }

    /// Where `event` leads. An event that has no place here leads nowhere.
    pub open spec fn next(self, event: Event<W>) -> ReadState<W> {
        match (self, event) {
            (ReadState::Cached { wrapper, version }, Event::Version { next_version }) => {
                if version == current(next_version) {
                    ReadState::Done { wrapper }
                } else {
                    ReadState::Start
                }
            },
            (ReadState::Start, Event::Version { next_version }) => ReadState::Enter {
                version: current(next_version),
            },
            (ReadState::Start, Event::GaveUp) => ReadState::TakeLock,
            (ReadState::Enter { version }, Event::Entered { .. }) => ReadState::Validate {
                version,
            },
            (ReadState::Validate { version }, Event::Version { next_version }) => {
                if version == current(next_version) {
                    ReadState::Load { version }
                } else {
                    ReadState::Abandon { version }
                }
            },
            (
                ReadState::Load { version },
                Event::Loaded { wrapper, version: found, .. },
            ) => ReadState::Leave { version, wrapper, found },
            (ReadState::Leave { wrapper, found, .. }, Event::Left { before, .. }) => {
                if before == 1 {
                    ReadState::Recheck { wrapper, found }
                } else {
                    ReadState::Done { wrapper }
                }
            },
            (ReadState::Recheck { wrapper, found }, Event::Version { next_version }) => {
                if found == current(next_version) {
                    ReadState::Done { wrapper }
                } else {
                    ReadState::Signal { wrapper }
                }
            },
            (ReadState::Signal { wrapper }, Event::Signalled) => ReadState::Done { wrapper },
            (ReadState::Abandon { .. }, Event::Left { before, .. }) => {
                if before == 1 {
                    ReadState::SignalRetry
                } else {
                    ReadState::Start
                }
            },
            (ReadState::SignalRetry, Event::Signalled) => ReadState::Start,
            (ReadState::TakeLock, Event::Locked) => ReadState::LockedVersion,
            (
                ReadState::LockedVersion,
                Event::Version { next_version },
            ) => ReadState::LockedLoad { version: current(next_version) },
            (
                ReadState::LockedLoad { .. },
                Event::Loaded { wrapper, version: found, .. },
            ) => ReadState::Unlock { wrapper, found },
            (ReadState::Unlock { wrapper, .. }, Event::Unlocked) => ReadState::Done { wrapper },
            _ => self,
        }
    }

    /// Where the events of `run` lead, one after the other; nowhere if the protocol does not
    /// have them come in this order.
    pub open spec fn reach(self, run: Seq<Event<W>>) -> Option<ReadState<W>>
        decreases run.len(),
    {
        if run.len() == 0 {
            Some(self)
        } else {
            match self.reach(run.drop_last()) {
                Some(state) => if state.accepts(run.last()) {
                    Some(state.next(run.last()))
                } else {
                    None
                },
                None => None,
            }
        }
    }

    /// Goes to where `event` leads.
    pub fn advance(self, event: Event<W>) -> (state: ReadState<W>)
        ensures
            state == self.next(event),
    {
        match (self, event) {
            (ReadState::Cached { wrapper, version }, Event::Version { next_version }) => {
                if version == current_version(next_version) {
                    ReadState::Done { wrapper }
                } else {
                    ReadState::Start
                }
            },
            (ReadState::Start, Event::Version { next_version }) => ReadState::Enter {
                version: current_version(next_version),
            },
            (ReadState::Start, Event::GaveUp) => ReadState::TakeLock,
            (ReadState::Enter { version }, Event::Entered { .. }) => ReadState::Validate {
                version,
            },
            (ReadState::Validate { version }, Event::Version { next_version }) => {
                if version == current_version(next_version) {
                    ReadState::Load { version }
                } else {
                    ReadState::Abandon { version }
                }
            },
            (
                ReadState::Load { version },
                Event::Loaded { wrapper, version: found, .. },
            ) => ReadState::Leave { version, wrapper, found },
            (ReadState::Leave { wrapper, found, .. }, Event::Left { before, .. }) => {
                if before == 1 {
                    ReadState::Recheck { wrapper, found }
                } else {
                    ReadState::Done { wrapper }
                }
            },
            (ReadState::Recheck { wrapper, found }, Event::Version { next_version }) => {
                if found == current_version(next_version) {
                    ReadState::Done { wrapper }
                } else {
                    ReadState::Signal { wrapper }
                }
            },
            (ReadState::Signal { wrapper }, Event::Signalled) => ReadState::Done { wrapper },
            (ReadState::Abandon { .. }, Event::Left { before, .. }) => {
                if before == 1 {
                    ReadState::SignalRetry
                } else {
                    ReadState::Start
                }
            },
            (ReadState::SignalRetry, Event::Signalled) => ReadState::Start,
            (ReadState::TakeLock, Event::Locked) => ReadState::LockedVersion,
            (
                ReadState::LockedVersion,
                Event::Version { next_version },
            ) => ReadState::LockedLoad { version: current_version(next_version) },
            (
                ReadState::LockedLoad { .. },
                Event::Loaded { wrapper, version: found, .. },
            ) => ReadState::Unlock { wrapper, found },
            (ReadState::Unlock { wrapper, .. }, Event::Unlocked) => ReadState::Done { wrapper },
            (state, _) => state,
        }
    }
}

/// The state that a read begins in which has `known` at hand.
pub open spec fn read_from<T>(known: Option<Wrapper<T>>) -> ReadState<Wrapper<T>> {
    match known {
        Some(wrapper) => ReadState::Cached { wrapper, version: wrapper.version },
        None => ReadState::Start,
    }
}

/// The protocol never looks into a wrapper: it goes the same way whatever stands for it.
pub proof fn lemma_read_maps<W, V>(state: ReadState<W>, event: Event<W>, f: spec_fn(W) -> V)
    ensures
        state.next(event).map(f) == state.map(f).next(event.map(f)),
        state.accepts(event) == state.map(f).accepts(event.map(f)),
{
}

/// What a thread wants to write.
pub enum Request<T> {
    /// `data`, whatever is current.
    Overwrite { data: T },
    /// `data`, but only if `expected` is the current version.
    CompareAndSet { data: T, expected: Version },
}

/// What a write comes to: the version under which the value was published, or the value, refused,
/// with the version that was current.
pub type Outcome<T> = Result<Version, (T, Version)>;

/// How far a thread has come in a write.
pub enum WriteState<T> {
    /// It will take the write lock, which keeps all other writers out.
    TakeLock { request: Request<T> },
    /// It holds the write lock, and will look up the current version.
    LoadVersion { request: Request<T> },
    /// It will publish `data` under `version`. First it will sleep until no reader is in the
    /// slot of that version.
    Wait { data: T, version: Version },
    /// No reader that enters the slot from now on will take what is in it. It will put the new
    /// value there.
    Swap { data: T, version: Version },
    /// The new value is in place. It will publish it.
    Advance { version: Version },
    /// It will release the write lock.
    Unlock { outcome: Outcome<T> },
    /// The write is over.
    Done { outcome: Outcome<T> },
}

impl<T> WriteState<T> {
    /// Whether `event` is one that the protocol has come next.
    pub open spec fn accepts(self, event: Event<Wrapper<T>>) -> bool {
        match self {
            WriteState::TakeLock { .. } => event is Locked,
            WriteState::LoadVersion { .. } => event is Version,
            WriteState::Wait { version, .. } => event == Event::<Wrapper<T>>::Idle {
                slot: slot_of(version),
                readers: 0,
            },
            WriteState::Swap { data, version } => event == Event::<Wrapper<T>>::Swapped {
                slot: slot_of(version),
                wrapper: Wrapper { data, version },
            },
            WriteState::Advance { .. } => event is Advanced,
            WriteState::Unlock { .. } => event is Unlocked,
            WriteState::Done { .. } => false,
        }
    }

    /// What the writer goes on to do when it finds `next_version` in the version counter: it
    /// refuses a request whose expected version is not the current one.
    pub open spec fn planned(request: Request<T>, next_version: u64) -> WriteState<T> {
        match request {
            Request::Overwrite { data } => WriteState::Wait { data, version: next_version },
            Request::CompareAndSet { data, expected } => {
                if expected == current(next_version) {
                    WriteState::Wait { data, version: next_version }
                } else {
                    WriteState::Unlock { outcome: Err((data, current(next_version))) }
                }
            },
        }
    }

    /// Where `event` leads. An event that has no place here leads nowhere.
    pub open spec fn next(self, event: Event<Wrapper<T>>) -> WriteState<T> {
        match (self, event) {
            (WriteState::TakeLock { request }, Event::Locked) => WriteState::LoadVersion {
                request,
            },
            (
                WriteState::LoadVersion { request },
                Event::Version { next_version },
            ) => Self::planned(request, next_version),
            (WriteState::Wait { data, version }, Event::Idle { .. }) => WriteState::Swap {
                data,
                version,
            },
            (WriteState::Swap { version, .. }, Event::Swapped { .. }) => WriteState::Advance {
                version,
            },
            (WriteState::Advance { version }, Event::Advanced { .. }) => WriteState::Unlock {
                outcome: Ok(version),
            },
            (WriteState::Unlock { outcome }, Event::Unlocked) => WriteState::Done { outcome },
            _ => self,
        }
    }

    /// Where the events of `run` lead, one after the other; nowhere if the protocol does not
    /// have them come in this order.
    pub open spec fn reach(self, run: Seq<Event<Wrapper<T>>>) -> Option<WriteState<T>>
        decreases run.len(),
    {
        if run.len() == 0 {
            Some(self)
        } else {
            match self.reach(run.drop_last()) {
                Some(state) => if state.accepts(run.last()) {
                    Some(state.next(run.last()))
                } else {
                    None
                },
                None => None,
            }
        }
    }

    /// Decides what to do about `request`, `next_version` being what the version counter holds.
    pub fn plan(request: Request<T>, next_version: u64) -> (state: WriteState<T>)
        ensures
            state == Self::planned(request, next_version),
        opens_invariants none
    {
        match request {
            Request::Overwrite { data } => WriteState::Wait { data, version: next_version },
            Request::CompareAndSet { data, expected } => {
                let version: Version = current_version(next_version);
                if expected == version {
                    WriteState::Wait { data, version: next_version }
                } else {
                    WriteState::Unlock { outcome: Err((data, version)) }
                }
            },
        }
    }
}

} // verus!
