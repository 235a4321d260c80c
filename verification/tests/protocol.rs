use thread_safe_var::protocol::{
    current_version, next_version, slot_index, Event, ReadState, Request, Wrapper, WriteState,
};

type State = ReadState<&'static str>;

fn version(next_version: u64) -> Event<&'static str> {
    Event::Version { next_version }
}

fn loaded(slot: usize, wrapper: &'static str, version: u64) -> Event<&'static str> {
    Event::Loaded { slot, wrapper, version }
}

fn through(start: State, events: Vec<Event<&'static str>>) -> State {
    let mut state = start;
    for event in events {
        state = state.advance(event);
    }
    state
}

#[test]
fn versions_and_their_slots() {
    assert_eq!(0, current_version(1));
    assert_eq!(41, current_version(42));
    assert_eq!(u64::MAX, current_version(0));
    assert_eq!(1, next_version(0));
    assert_eq!(0, next_version(u64::MAX));
    assert_eq!(0, slot_index(0));
    assert_eq!(1, slot_index(1));
    assert_eq!(0, slot_index(6));
    assert_eq!(1, slot_index(u64::MAX));
}

#[test]
fn wrapper_holds_data_and_version() {
    let wrapper = Wrapper::new("a", 3);
    assert_eq!("a", wrapper.data);
    assert_eq!(3, wrapper.version);
}

#[test]
fn cached_value_is_used_while_current() {
    let cached = State::Cached { wrapper: "a", version: 4 };
    assert!(matches!(cached.advance(version(5)), State::Done { wrapper: "a" }));
    let cached = State::Cached { wrapper: "a", version: 4 };
    assert!(matches!(cached.advance(version(6)), State::Start));
}

#[test]
fn undisturbed_read() {
    let inside = through(State::Start, vec![version(5), Event::Entered { slot: 0 }]);
    assert!(matches!(inside, State::Validate { version: 4 }));
    let leaving = through(inside, vec![version(5), loaded(0, "a", 4)]);
    assert!(matches!(leaving, State::Leave { version: 4, wrapper: "a", found: 4 }));
    let last = leaving.advance(Event::Left { slot: 0, before: 1 });
    assert!(matches!(last, State::Recheck { wrapper: "a", found: 4 }));
    assert!(matches!(last.advance(version(5)), State::Done { wrapper: "a" }));
}

#[test]
fn last_reader_wakes_a_writer_that_may_wait() {
    let leaving = State::Leave { version: 4, wrapper: "a", found: 4 };
    let last = through(leaving, vec![Event::Left { slot: 0, before: 1 }, version(6)]);
    assert!(matches!(last, State::Signal { wrapper: "a" }));
    assert!(matches!(last.advance(Event::Signalled), State::Done { wrapper: "a" }));
}

#[test]
fn other_readers_wake_nobody() {
    let leaving = State::Leave { version: 4, wrapper: "a", found: 4 };
    let left = leaving.advance(Event::Left { slot: 0, before: 2 });
    assert!(matches!(left, State::Done { wrapper: "a" }));
}

#[test]
fn lost_race_is_run_again() {
    let entered = State::Validate { version: 4 };
    let lost = entered.advance(version(6));
    assert!(matches!(lost, State::Abandon { version: 4 }));
    let last = lost.advance(Event::Left { slot: 0, before: 1 });
    assert!(matches!(last, State::SignalRetry));
    assert!(matches!(last.advance(Event::Signalled), State::Start));

    let lost = State::Abandon { version: 4 };
    assert!(matches!(lost.advance(Event::Left { slot: 0, before: 3 }), State::Start));
}

#[test]
fn reader_that_gives_up_reads_under_the_lock() {
    let locked = through(State::Start, vec![Event::GaveUp, Event::Locked, version(8)]);
    assert!(matches!(locked, State::LockedLoad { version: 7 }));
    let read = locked.advance(loaded(1, "b", 7));
    assert!(matches!(read, State::Unlock { wrapper: "b", found: 7 }));
    assert!(matches!(read.advance(Event::Unlocked), State::Done { wrapper: "b" }));
}

#[test]
fn misplaced_events_lead_nowhere() {
    assert!(matches!(State::Start.advance(Event::Unlocked), State::Start));
    let done = State::Done { wrapper: "a" };
    assert!(matches!(done.advance(version(1)), State::Done { wrapper: "a" }));
}

#[test]
fn overwrite_is_always_planned() {
    let state = WriteState::plan(Request::Overwrite { data: "a" }, 5);
    assert!(matches!(state, WriteState::Wait { data: "a", version: 5 }));
}

#[test]
fn compare_and_set_is_planned_if_the_version_is_current() {
    let state = WriteState::plan(Request::CompareAndSet { data: "a", expected: 4 }, 5);
    assert!(matches!(state, WriteState::Wait { data: "a", version: 5 }));
    let state = WriteState::plan(Request::CompareAndSet { data: "a", expected: 3 }, 5);
    assert!(matches!(state, WriteState::Unlock { outcome: Err(("a", 4)) }));
    let state = WriteState::plan(Request::CompareAndSet { data: "a", expected: 5 }, 5);
    assert!(matches!(state, WriteState::Unlock { outcome: Err(("a", 4)) }));
}
