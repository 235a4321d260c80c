# thread_safe_var

A variable that any number of threads can read and write at the same time, verified with Verus.

Each value that the variable takes is published under a version, counted from 0. A read gives a
`Reader`: a value with its version, which stays as it is whatever becomes of the variable. A write is
unconditional (`set`), conditional on the version (`compare_and_set`), or a function of the current
value (`update`).

## How it works

The values of even and of odd versions live in two slots. A reader enters the slot of the current
version and checks that the version is still current; if so, no writer touches that slot until the
reader has left. A writer puts the next value into the other slot, once no reader is there, and then
advances the version counter, which publishes the value.

## Layout

- `src/protocol.rs`: the protocol of reads and writes, as state machines over events.
- `src/access.rs`: what a thread can do to the shared memory, each with its event on record.
- `src/operations.rs`: reads, writes and updates, proved to follow the protocol.
- `src/slot_pair.rs`, `src/traits.rs`: the variable, and the traits of the standard library.
- `src/model.rs`: any number of threads that follow the protocol on one memory.
- `src/safety.rs`: what holds at every moment, and that no step breaks it.
- `src/laws.rs`: what follows for users, for all interleavings.
- `src/recorded.rs`: how the records of operations make such an interleaving.
- `src/results.rs`, `src/shared.rs`: what follows for what operations return, told from their records,
  and for calls on one variable.
- `src/alone.rs`: what a thread gets that nobody interferes with.
- `src/outside.rs`: what is taken for granted of `parking_lot`, `rclite` and `std`.
- `src/thread_local.rs`: status codes of the thread library.
- `app/`: the variable with thread-local caches (`libc`), asynchronous updates, and `main`.
