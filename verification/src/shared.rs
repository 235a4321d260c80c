//! What calls on a variable tell of each other.
//!
//! The contracts of [`SlotPairTSV`] say of each call that a run of events happened to the variable,
//! by calls on its own counters, cells and locks, and how what the call returned is told from that
//! run. Here the runs of many calls are put in the order in which they happened.
use crate::access;
use crate::access::Run;
use crate::alone;
use crate::model::Memory;
use crate::operations;
use crate::protocol;
use crate::protocol::{Outcome, Request, Version, Wrapper};
use crate::recorded;
use crate::recorded::{Log, Operation};
use crate::results;
use crate::slot_pair::SlotPairTSV;
use vstd::prelude::*;

verus! {

/// `log` is all that happens to `tsv`, whose first value is `data`, in the order in which it happens.
/// It consists of `operations`, and `runs[t]` is the run of operation `t`.
pub open spec fn is_use_of<T: Sync + Send + 'static>(
    log: Log<T>,
    operations: Seq<Operation<T>>,
    runs: Seq<Run<T>>,
    tsv: SlotPairTSV<T>,
    data: T,
) -> bool {
    &&& tsv.initial() == Memory::initial(data)
    &&& recorded::is_log(log, operations, data)
    &&& runs.len() == operations.len()
    &&& forall|t: int|
        0 <= t < operations.len() ==> {
            &&& tsv.inner().had(#[trigger] runs[t])
            &&& runs[t].events == recorded::events_of(log, t)
        }
}

/// Operation `t` is a `get` that gives `current`; or a `get_with`, `known` being what was kept.
pub open spec fn is_get<T: Sync + Send + 'static>(
    operations: Seq<Operation<T>>,
    runs: Seq<Run<T>>,
    t: int,
    known: Option<Wrapper<T>>,
    current: Wrapper<T>,
) -> bool {
    &&& 0 <= t < operations.len()
    &&& operations[t] == (Operation::Read { known })
    &&& operations::reads(runs[t].events, protocol::read_from(known), current)
}

/// Operation `t` is a `set`, a `compare_and_set` or a `replace_seen`, of `request`, that comes to
/// `outcome`.
pub open spec fn is_write<T: Sync + Send + 'static>(
    operations: Seq<Operation<T>>,
    runs: Seq<Run<T>>,
    t: int,
    request: Request<T>,
    outcome: Outcome<T>,
) -> bool {
    &&& 0 <= t < operations.len()
    &&& operations[t] == (Operation::Write { request })
    &&& operations::writes(runs[t].events, request, outcome)
}

/// Operation `t` is over by the `k`th event of `log`.
pub open spec fn is_over<T>(log: Log<T>, t: int, k: int) -> bool {
    &&& 0 <= k <= log.len()
    &&& recorded::events_of(log.take(k), t) == recorded::events_of(log, t)
}

/// Operation `t` has not begun by the `k`th event of `log`.
pub open spec fn is_to_come<T>(log: Log<T>, t: int, k: int) -> bool {
    &&& 0 <= k <= log.len()
    &&& recorded::events_of(log.take(k), t).len() == 0
}

/// From the `k`th event of `log` to the `l`th, no operation but `t` writes.
pub open spec fn only_writer<T>(
    log: Log<T>,
    operations: Seq<Operation<T>>,
    t: int,
    k: int,
    l: int,
) -> bool {
    forall|w: int|
        0 <= w < operations.len() && w != t && !((#[trigger] operations[w]) is Read) ==> is_over(
            log,
            w,
            k,
        ) || is_to_come(log, w, l)
}

/// What has happened in an operation has happened.
proof fn lemma_events_grow<T>(log: Log<T>, t: int, k: int, l: int)
    requires
        0 <= k <= l <= log.len(),
    ensures
        recorded::events_of(log.take(k), t).is_prefix_of(recorded::events_of(log.take(l), t)),
    decreases l,
{
    let early = recorded::events_of(log.take(k), t);
    let late = recorded::events_of(log.take(l), t);
    if k < l {
        lemma_events_grow(log, t, k, l - 1);
        assert(log.take(l).drop_last() =~= log.take(l - 1));
    }
    assert(early =~= late.subrange(0, early.len() as int));
}

/// What is over stays so, and what is to come was to come before.
proof fn lemma_phases<T>(log: Log<T>, t: int, k: int, l: int)
    requires
        0 <= k <= l <= log.len(),
    ensures
        is_over(log, t, k) ==> is_over(log, t, l),
        is_to_come(log, t, l) ==> is_to_come(log, t, k),
{
    lemma_events_grow(log, t, k, l);
    lemma_events_grow(log, t, l, log.len() as int);
    assert(log.take(log.len() as int) =~= log);
    if is_over(log, t, k) {
        assert(recorded::events_of(log.take(l), t) =~= recorded::events_of(log, t));
    }
}

/// If all operations but `t` have come equally far in two logs, and `t` has published nothing in the
/// first, then only `t` can make a difference.
proof fn lemma_publications_differ<T>(
    first: Log<T>,
    second: Log<T>,
    operations: Seq<Operation<T>>,
    t: int,
    n: nat,
)
    requires
        n <= operations.len(),
        forall|w: int|
            0 <= w < n && w != t ==> results::has_published(
                #[trigger] operations[w],
                recorded::events_of(first, w),
            ) == results::has_published(operations[w], recorded::events_of(second, w)),
        0 <= t < n ==> !results::has_published(operations[t], recorded::events_of(first, t)),
    ensures
        results::publications(second, operations, n) == results::publications(first, operations, n)
            + (if 0 <= t < n && results::has_published(
            operations[t],
            recorded::events_of(second, t),
        ) {
            1nat
        } else {
            0nat
        }),
    decreases n,
{
    if n > 0 {
        lemma_publications_differ(first, second, operations, t, (n - 1) as nat);
        assert(n - 1 != t ==> results::has_published(
            operations[n - 1],
            recorded::events_of(first, n - 1),
        ) == results::has_published(operations[n - 1], recorded::events_of(second, n - 1)));
    }
}

/// While only `t` writes, the version counter stays as it is but for what `t` publishes.
proof fn lemma_counter<T>(
    log: Log<T>,
    operations: Seq<Operation<T>>,
    data: T,
    t: int,
    k: int,
    p: int,
    l: int,
)
    requires
        recorded::is_log(log, operations, data),
        0 <= k <= p <= l <= log.len(),
        only_writer(log, operations, t, k, l),
        0 <= t < operations.len() ==> is_to_come(log, t, k),
    ensures
        results::counter(log.take(p), data) == results::counter(log.take(k), data) + (if 0 <= t
            < operations.len() && results::has_published(
            operations[t],
            recorded::events_of(log.take(p), t),
        ) {
            1nat
        } else {
            0nat
        }),
{
    let n = operations.len();
    recorded::lemma_beginning(log, operations, data, k);
    recorded::lemma_beginning(log, operations, data, p);
    results::law_recorded_versions_are_counted(log.take(k), operations, data);
    results::law_recorded_versions_are_counted(log.take(p), operations, data);
    assert forall|w: int| 0 <= w < n && w != t implies results::has_published(
        #[trigger] operations[w],
        recorded::events_of(log.take(k), w),
    ) == results::has_published(operations[w], recorded::events_of(log.take(p), w)) by {
        if !(operations[w] is Read) {
            lemma_phases(log, w, k, p);
            lemma_phases(log, w, p, l);
            if is_to_come(log, w, l) {
                assert(recorded::events_of(log.take(k), w) =~= recorded::events_of(
                    log.take(p),
                    w,
                ));
            }
        }
    }
    lemma_publications_differ(log.take(k), log.take(p), operations, t, n);
}

/// What a `get` gives while nobody writes is of the current version.
proof fn lemma_get_is_current<T: Sync + Send + 'static>(
    log: Log<T>,
    operations: Seq<Operation<T>>,
    runs: Seq<Run<T>>,
    tsv: SlotPairTSV<T>,
    data: T,
    k: int,
    l: int,
    u: int,
    known: Option<Wrapper<T>>,
    current: Wrapper<T>,
) -> (p: int)
    requires
        is_use_of(log, operations, runs, tsv, data),
        is_get(operations, runs, u, known, current),
        0 <= k <= l <= log.len(),
        is_to_come(log, u, k),
        is_over(log, u, l),
    ensures
        k <= p <= l,
        results::counter(log.take(p), data) == current.version + 1,
        recorded::is_current(log, data, p, current),
{
    assert(runs[u].events == recorded::events_of(log, u));
    recorded::lemma_beginning(log, operations, data, l);
    assert(log.take(l).take(k) =~= log.take(k));
    let p = results::law_recorded_read_was_current(
        log.take(l),
        operations,
        data,
        k,
        u,
        known,
        current,
    );
    assert(log.take(l).take(p) =~= log.take(p));
    p
}

/// The only write for some time returns what the version counter holds, and adds one to it.
proof fn lemma_write_counts<T: Sync + Send + 'static>(
    log: Log<T>,
    operations: Seq<Operation<T>>,
    runs: Seq<Run<T>>,
    tsv: SlotPairTSV<T>,
    data: T,
    k: int,
    l: int,
    t: int,
    request: Request<T>,
    version: Version,
)
    requires
        is_use_of(log, operations, runs, tsv, data),
        is_write(operations, runs, t, request, Ok(version)),
        0 <= k <= l <= log.len(),
        is_to_come(log, t, k),
        is_over(log, t, l),
        only_writer(log, operations, t, k, l),
    ensures
        version == results::counter(log.take(k), data),
        results::counter(log.take(l), data) == version + 1,
{
    assert(runs[t].events == recorded::events_of(log, t));
    recorded::lemma_beginning(log, operations, data, l);
    assert(log.take(l).take(k) =~= log.take(k));
    let q = results::law_recorded_write_took_effect(
        log.take(l),
        operations,
        data,
        k,
        t,
        version,
    );
    assert(log.take(l).take(q) =~= log.take(q));
    assert(log.take(l).take(q + 1) =~= log.take(q + 1));
    lemma_counter(log, operations, data, t, k, q, l);
    lemma_counter(log, operations, data, t, k, q + 1, l);
    lemma_counter(log, operations, data, t, k, l, l);
}

/// Until the first write, all threads get the first value, under version 0.
pub proof fn law_get_of_new<T: Sync + Send + 'static>(
    log: Log<T>,
    operations: Seq<Operation<T>>,
    runs: Seq<Run<T>>,
    tsv: SlotPairTSV<T>,
    data: T,
    l: int,
    u: int,
    known: Option<Wrapper<T>>,
    current: Wrapper<T>,
)
    requires
        is_use_of(log, operations, runs, tsv, data),
        is_get(operations, runs, u, known, current),
        is_over(log, u, l),
        only_writer(log, operations, -1, 0, l),
    ensures
        current == (Wrapper { data, version: 0 }),
{
    assert(log.take(0) =~= Seq::empty());
    let p = lemma_get_is_current(log, operations, runs, tsv, data, 0, l, u, known, current);
    lemma_counter(log, operations, data, -1, 0, p, l);
    assert(runs[u].events == recorded::events_of(log, u));
    results::law_recorded_read_of_new(log, operations, data, u, known, current);
}

/// A `get` is at least as new as what was written before it: one that begins after a write has
/// returned `version` gives that version or a higher one, and what was written if it gives that
/// version.
pub proof fn law_get_after_write<T: Sync + Send + 'static>(
    log: Log<T>,
    operations: Seq<Operation<T>>,
    runs: Seq<Run<T>>,
    tsv: SlotPairTSV<T>,
    data: T,
    k: int,
    t: int,
    request: Request<T>,
    version: Version,
    u: int,
    known: Option<Wrapper<T>>,
    current: Wrapper<T>,
)
    requires
        is_use_of(log, operations, runs, tsv, data),
        is_write(operations, runs, t, request, Ok(version)),
        is_over(log, t, k),
        is_to_come(log, u, k),
        is_get(operations, runs, u, known, current),
    ensures
        current.version >= version,
        current.version == version ==> current.data == alone::wanted(request),
{
    assert(runs[t].events == recorded::events_of(log, t));
    assert(runs[u].events == recorded::events_of(log, u));
    results::law_recorded_read_after_write(
        log,
        operations,
        data,
        k,
        t,
        version,
        u,
        known,
        current,
    );
}

/// Later gets see no older values: one that begins after another is over gives the same value, or
/// one of a higher version.
pub proof fn law_gets_never_go_back<T: Sync + Send + 'static>(
    log: Log<T>,
    operations: Seq<Operation<T>>,
    runs: Seq<Run<T>>,
    tsv: SlotPairTSV<T>,
    data: T,
    k: int,
    t: int,
    first_known: Option<Wrapper<T>>,
    earlier: Wrapper<T>,
    u: int,
    second_known: Option<Wrapper<T>>,
    later: Wrapper<T>,
)
    requires
        is_use_of(log, operations, runs, tsv, data),
        is_get(operations, runs, t, first_known, earlier),
        is_over(log, t, k),
        is_to_come(log, u, k),
        is_get(operations, runs, u, second_known, later),
    ensures
        earlier.version <= later.version,
        earlier.version == later.version ==> earlier == later,
{
    assert(runs[t].events == recorded::events_of(log, t));
    assert(runs[u].events == recorded::events_of(log, u));
    results::law_recorded_reads_never_go_back(
        log,
        operations,
        data,
        k,
        t,
        first_known,
        earlier,
        u,
        second_known,
        later,
    );
}

/// Value and version belong together: what a `get` gives is the first value if its version is 0, and
/// else what the one operation wrote that was given this version.
pub proof fn law_value_belongs<T: Sync + Send + 'static>(
    log: Log<T>,
    operations: Seq<Operation<T>>,
    runs: Seq<Run<T>>,
    tsv: SlotPairTSV<T>,
    data: T,
    u: int,
    known: Option<Wrapper<T>>,
    current: Wrapper<T>,
) -> (t: int)
    requires
        is_use_of(log, operations, runs, tsv, data),
        is_get(operations, runs, u, known, current),
    ensures
        current.version == 0 ==> current.data == data,
        current.version > 0 ==> 0 <= t < operations.len() && recorded::publishes(
            operations[t],
            runs[t].events,
            current.version,
        ) && (operations[t] matches Operation::Write { request } ==> current.data == alone::wanted(
            request,
        )),
        forall|w: int|
            current.version > 0 && 0 <= w < operations.len() && recorded::comes_to(
                #[trigger] operations[w],
                runs[w].events,
                Ok(current.version),
            ) ==> w == t,
{
    assert(runs[u].events == recorded::events_of(log, u));
    results::law_recorded_read_of_new(log, operations, data, u, known, current);
    if current.version > 0 {
        let t = results::law_recorded_value_belongs(log, operations, data, u, known, current);
        assert(runs[t].events == recorded::events_of(log, t));
        assert forall|w: int|
            0 <= w < operations.len() && recorded::comes_to(
                #[trigger] operations[w],
                runs[w].events,
                Ok(current.version),
            ) implies w == t by {
            assert(runs[w].events == recorded::events_of(log, w));
            if w != t {
                results::law_recorded_publishers_differ(
                    log,
                    operations,
                    data,
                    t,
                    current.version,
                    w,
                    current.version,
                );
            }
        }
        t
    } else {
        0
    }
}

/// A write that no other one overlaps is numbered right after what was current, and stays current
/// until the next write: if `before` is what was got just before it, then it returns the version
/// after that; and what is got just after it is what it wrote, under that version.
pub proof fn law_write_counts_on<T: Sync + Send + 'static>(
    log: Log<T>,
    operations: Seq<Operation<T>>,
    runs: Seq<Run<T>>,
    tsv: SlotPairTSV<T>,
    data: T,
    k: int,
    u: int,
    first_known: Option<Wrapper<T>>,
    before: Wrapper<T>,
    m: int,
    t: int,
    request: Request<T>,
    version: Version,
    l: int,
    v: int,
    second_known: Option<Wrapper<T>>,
    after: Wrapper<T>,
    end: int,
)
    requires
        is_use_of(log, operations, runs, tsv, data),
        0 <= k <= m <= l <= end <= log.len(),
        is_to_come(log, u, k),
        is_get(operations, runs, u, first_known, before),
        is_over(log, u, m),
        is_to_come(log, t, m),
        is_write(operations, runs, t, request, Ok(version)),
        is_over(log, t, l),
        is_to_come(log, v, l),
        is_get(operations, runs, v, second_known, after),
        is_over(log, v, end),
        only_writer(log, operations, t, k, end),
    ensures
        version == before.version + 1,
        after == (Wrapper { data: alone::wanted(request), version }),
{
    let p = lemma_get_is_current(
        log,
        operations,
        runs,
        tsv,
        data,
        k,
        m,
        u,
        first_known,
        before,
    );
    let q = lemma_get_is_current(
        log,
        operations,
        runs,
        tsv,
        data,
        l,
        end,
        v,
        second_known,
        after,
    );
    lemma_phases(log, t, k, m);
    lemma_phases(log, t, p, m);
    lemma_phases(log, t, l, q);
    lemma_phases(log, t, l, end);
    assert(runs[t].events == recorded::events_of(log, t));
    lemma_counter(log, operations, data, t, k, p, end);
    lemma_counter(log, operations, data, t, k, q, end);
    lemma_write_counts(log, operations, runs, tsv, data, k, end, t, request, version);
    law_get_after_write(
        log,
        operations,
        runs,
        tsv,
        data,
        l,
        t,
        request,
        version,
        v,
        second_known,
        after,
    );
}

/// A `set` does not notice what was written since one's last `get`: if another write, `theirs`, comes
/// between a `get` and a `set`, and nothing else is written, then the `set` returns a version two
/// higher than what was got; so `theirs` is overwritten.
pub proof fn law_set_overwrites<T: Sync + Send + 'static>(
    log: Log<T>,
    operations: Seq<Operation<T>>,
    runs: Seq<Run<T>>,
    tsv: SlotPairTSV<T>,
    data: T,
    k: int,
    u: int,
    known: Option<Wrapper<T>>,
    got: Wrapper<T>,
    m: int,
    theirs: int,
    their_request: Request<T>,
    their_version: Version,
    l: int,
    mine: int,
    value: T,
    version: Version,
    end: int,
)
    requires
        is_use_of(log, operations, runs, tsv, data),
        0 <= k <= m <= l <= end <= log.len(),
        is_to_come(log, u, k),
        is_get(operations, runs, u, known, got),
        is_over(log, u, m),
        is_to_come(log, theirs, m),
        is_write(operations, runs, theirs, their_request, Ok(their_version)),
        is_over(log, theirs, l),
        is_to_come(log, mine, l),
        is_write(operations, runs, mine, (Request::Overwrite { data: value }), Ok(version)),
        is_over(log, mine, end),
        only_writer(log, operations, theirs, k, l),
        only_writer(log, operations, mine, l, end),
    ensures
        their_version == got.version + 1,
        version == got.version + 2,
{
    let p = lemma_get_is_current(log, operations, runs, tsv, data, k, m, u, known, got);
    let request = Request::Overwrite { data: value };
    lemma_phases(log, theirs, k, m);
    lemma_phases(log, theirs, p, m);
    lemma_counter(log, operations, data, theirs, k, p, l);
    lemma_write_counts(
        log,
        operations,
        runs,
        tsv,
        data,
        k,
        l,
        theirs,
        their_request,
        their_version,
    );
    lemma_write_counts(log, operations, runs, tsv, data, l, end, mine, request, version);
}

/// All operations that are not reads are writes that succeed, with the versions in `versions`.
pub open spec fn all_return<T: Sync + Send + 'static>(
    operations: Seq<Operation<T>>,
    runs: Seq<Run<T>>,
    versions: Seq<Version>,
) -> bool {
    &&& versions.len() == operations.len()
    &&& forall|t: int|
        0 <= t < operations.len() && !((#[trigger] operations[t]) is Read) ==> is_write(
            operations,
            runs,
            t,
            operations[t]->request,
            Ok(versions[t]),
        )
}

/// Versions are given out without gaps: if all writes, in whatever overlap, have returned, then what
/// they have returned are the numbers from 1 to the number of writes, each once. A `get` after that
/// gives what that write wrote which returned the last of these numbers, under this number; or the
/// first value, if there was no write.
pub proof fn law_versions_have_no_gaps<T: Sync + Send + 'static>(
    log: Log<T>,
    operations: Seq<Operation<T>>,
    runs: Seq<Run<T>>,
    tsv: SlotPairTSV<T>,
    data: T,
    versions: Seq<Version>,
    k: int,
    u: int,
    known: Option<Wrapper<T>>,
    current: Wrapper<T>,
)
    requires
        is_use_of(log, operations, runs, tsv, data),
        all_return(operations, runs, versions),
        forall|t: int|
            0 <= t < operations.len() && !((#[trigger] operations[t]) is Read) ==> is_over(
                log,
                t,
                k,
            ),
        is_to_come(log, u, k),
        is_get(operations, runs, u, known, current),
    ensures
        forall|t: int|
            0 <= t < operations.len() && !((#[trigger] operations[t]) is Read) ==> 1 <= versions[t]
                <= results::writers(operations, operations.len()),
        forall|t: int, w: int|
            0 <= t < operations.len() && 0 <= w < operations.len() && t != w && !((
            #[trigger] operations[t]) is Read) && !((#[trigger] operations[w]) is Read)
                ==> versions[t] != versions[w],
        forall|version: Version|
            1 <= version <= results::writers(operations, operations.len())
                ==> #[trigger] results::is_given(operations, versions, version),
        current.version == results::writers(operations, operations.len()),
        current.version == 0 ==> current.data == data,
        forall|t: int|
            0 <= t < operations.len() && versions[t] == current.version ==> ((
            #[trigger] operations[t]) matches Operation::Write { request } ==> current.data
                == alone::wanted(request)),
{
    assert(runs[u].events == recorded::events_of(log, u));
    assert forall|t: int| 0 <= t < operations.len() && !((#[trigger] operations[t]) is Read) implies {
        &&& recorded::comes_to(operations[t], recorded::events_of(log, t), Ok(versions[t]))
        &&& recorded::comes_to(
            operations[t],
            recorded::events_of(log.take(k), t),
            Ok(versions[t]),
        )
    } by {
        assert(runs[t].events == recorded::events_of(log, t));
    }
    results::law_recorded_versions_have_no_gaps(log, operations, data, versions);
    results::law_recorded_last_write_is_read(
        log,
        operations,
        data,
        versions,
        k,
        u,
        known,
        current,
    );
}

/// Writes that are made one after the other, by whatever threads, return 1, 2, 3 and so on, and a
/// `get` after the last of them gives what that one wrote, under its version; or the first value,
/// under version 0, if there was none. The `i`th write is operation `ts[i]`: it begins after event
/// `ks[i]` and is over by event `ks[i + 1]`, and nothing else is written.
pub proof fn law_writes_in_turn<T: Sync + Send + 'static>(
    log: Log<T>,
    operations: Seq<Operation<T>>,
    runs: Seq<Run<T>>,
    tsv: SlotPairTSV<T>,
    data: T,
    ts: Seq<int>,
    ks: Seq<int>,
    values: Seq<T>,
    versions: Seq<Version>,
    u: int,
    known: Option<Wrapper<T>>,
    current: Wrapper<T>,
)
    requires
        is_use_of(log, operations, runs, tsv, data),
        in_turn(log, operations, runs, ts, ks, values, versions),
        is_to_come(log, u, ks.last()),
        is_get(operations, runs, u, known, current),
    ensures
        forall|i: int| 0 <= i < ts.len() ==> #[trigger] versions[i] == i + 1,
        current.version == ts.len(),
        current.data == (if ts.len() == 0 {
            data
        } else {
            values.last()
        }),
{
    let n = ts.len() as int;
    lemma_in_turn(log, operations, runs, tsv, data, ts, ks, values, versions, n);
    assert forall|i: int| 0 <= i < ts.len() implies #[trigger] versions[i] == i + 1 by {
        lemma_in_turn(log, operations, runs, tsv, data, ts, ks, values, versions, i + 1);
    }
    let end = log.len() as int;
    assert(log.take(end) =~= log);
    assert(is_over(log, u, end));
    let p = lemma_get_is_current(
        log,
        operations,
        runs,
        tsv,
        data,
        ks.last(),
        end,
        u,
        known,
        current,
    );
    assert forall|w: int|
        0 <= w < operations.len() && w != -1 && !((#[trigger] operations[w]) is Read) implies is_over(
        log,
        w,
        ks.last(),
    ) || is_to_come(log, w, end) by {
        let i = ts.index_of(w);
        assert(is_turn(log, operations, runs, ts, ks, values, versions, i));
        lemma_phases(log, w, ks[i + 1], ks.last());
    }
    lemma_counter(log, operations, data, -1, ks.last(), p, end);
    assert(runs[u].events == recorded::events_of(log, u));
    results::law_recorded_read_of_new(log, operations, data, u, known, current);
    if n > 0 {
        assert(is_turn(log, operations, runs, ts, ks, values, versions, n - 1));
        law_get_after_write(
            log,
            operations,
            runs,
            tsv,
            data,
            ks.last(),
            ts[n - 1],
            Request::Overwrite { data: values[n - 1] },
            versions[n - 1],
            u,
            known,
            current,
        );
    }
}

/// The `i`th write is operation `ts[i]`, a `set` of `values[i]` that returns `versions[i]`. It happens
/// between event `ks[i]` and event `ks[i + 1]`.
pub open spec fn is_turn<T: Sync + Send + 'static>(
    log: Log<T>,
    operations: Seq<Operation<T>>,
    runs: Seq<Run<T>>,
    ts: Seq<int>,
    ks: Seq<int>,
    values: Seq<T>,
    versions: Seq<Version>,
    i: int,
) -> bool {
    &&& is_write(
        operations,
        runs,
        ts[i],
        (Request::Overwrite { data: values[i] }),
        Ok(versions[i]),
    )
    &&& is_to_come(log, ts[i], ks[i])
    &&& is_over(log, ts[i], ks[i + 1])
}

/// All writes are those of `ts`, one after the other.
pub open spec fn in_turn<T: Sync + Send + 'static>(
    log: Log<T>,
    operations: Seq<Operation<T>>,
    runs: Seq<Run<T>>,
    ts: Seq<int>,
    ks: Seq<int>,
    values: Seq<T>,
    versions: Seq<Version>,
) -> bool {
    &&& values.len() == ts.len()
    &&& versions.len() == ts.len()
    &&& ks.len() == ts.len() + 1
    &&& forall|i: int| 0 <= i < ks.len() ==> 0 <= #[trigger] ks[i] <= log.len()
    &&& forall|i: int, j: int| 0 <= i <= j < ks.len() ==> #[trigger] ks[i] <= #[trigger] ks[j]
    &&& forall|i: int|
        0 <= i < ts.len() ==> #[trigger] is_turn(
            log,
            operations,
            runs,
            ts,
            ks,
            values,
            versions,
            i,
        )
    &&& ts.no_duplicates()
    &&& forall|w: int|
        0 <= w < operations.len() && !((#[trigger] operations[w]) is Read) ==> ts.contains(w)
}

/// After `i` writes in turn, the version counter has counted them.
proof fn lemma_in_turn<T: Sync + Send + 'static>(
    log: Log<T>,
    operations: Seq<Operation<T>>,
    runs: Seq<Run<T>>,
    tsv: SlotPairTSV<T>,
    data: T,
    ts: Seq<int>,
    ks: Seq<int>,
    values: Seq<T>,
    versions: Seq<Version>,
    i: int,
)
    requires
        is_use_of(log, operations, runs, tsv, data),
        in_turn(log, operations, runs, ts, ks, values, versions),
        0 <= i <= ts.len(),
    ensures
        results::counter(log.take(ks[i]), data) == i + 1,
        i > 0 ==> versions[i - 1] == i,
    decreases i,
{
    if i == 0 {
        assert(log.take(0) =~= Seq::empty());
        assert forall|w: int|
            0 <= w < operations.len() && w != -1 && !((#[trigger] operations[w]) is Read) implies is_over(
            log,
            w,
            0,
        ) || is_to_come(log, w, ks[0]) by {
            let j = ts.index_of(w);
            assert(is_turn(log, operations, runs, ts, ks, values, versions, j));
            lemma_phases(log, w, ks[0], ks[j]);
        }
        lemma_counter(log, operations, data, -1, 0, ks[0], ks[0]);
    } else {
        lemma_in_turn(log, operations, runs, tsv, data, ts, ks, values, versions, i - 1);
        let t = ts[i - 1];
        assert(is_turn(log, operations, runs, ts, ks, values, versions, i - 1));
        assert forall|w: int|
            0 <= w < operations.len() && w != t && !((#[trigger] operations[w]) is Read) implies is_over(
            log,
            w,
            ks[i - 1],
        ) || is_to_come(log, w, ks[i]) by {
            let j = ts.index_of(w);
            assert(is_turn(log, operations, runs, ts, ks, values, versions, j));
            if j < i - 1 {
                lemma_phases(log, w, ks[j + 1], ks[i - 1]);
            } else {
                lemma_phases(log, w, ks[i], ks[j]);
            }
        }
        lemma_write_counts(
            log,
            operations,
            runs,
            tsv,
            data,
            ks[i - 1],
            ks[i],
            t,
            Request::Overwrite { data: values[i - 1] },
            versions[i - 1],
        );
    }
}

/// Of two writes that expect the same version, one is refused.
pub proof fn law_one_compare_and_set_wins<T: Sync + Send + 'static>(
    log: Log<T>,
    operations: Seq<Operation<T>>,
    runs: Seq<Run<T>>,
    tsv: SlotPairTSV<T>,
    data: T,
    t: int,
    first: T,
    first_outcome: Outcome<T>,
    u: int,
    second: T,
    second_outcome: Outcome<T>,
    expected: Version,
)
    requires
        is_use_of(log, operations, runs, tsv, data),
        t != u,
        is_write(
            operations,
            runs,
            t,
            (Request::CompareAndSet { data: first, expected }),
            first_outcome,
        ),
        is_write(
            operations,
            runs,
            u,
            (Request::CompareAndSet { data: second, expected }),
            second_outcome,
        ),
    ensures
        first_outcome is Err || second_outcome is Err,
{
    assert(runs[t].events == recorded::events_of(log, t));
    assert(runs[u].events == recorded::events_of(log, u));
    results::law_recorded_one_compare_and_set_wins(
        log,
        operations,
        data,
        t,
        first,
        first_outcome,
        u,
        second,
        second_outcome,
        expected,
    );
}

/// A write that no other one overlaps is refused if and only if it expects another version than the
/// current one, and then gets its value back with the current one, which stays what it is. `before`
/// is what was got just before it.
pub proof fn law_refused_if_mismatched<T: Sync + Send + 'static>(
    log: Log<T>,
    operations: Seq<Operation<T>>,
    runs: Seq<Run<T>>,
    tsv: SlotPairTSV<T>,
    data: T,
    k: int,
    u: int,
    known: Option<Wrapper<T>>,
    before: Wrapper<T>,
    m: int,
    t: int,
    value: T,
    expected: Version,
    outcome: Outcome<T>,
    end: int,
)
    requires
        is_use_of(log, operations, runs, tsv, data),
        0 <= k <= m <= end <= log.len(),
        is_to_come(log, u, k),
        is_get(operations, runs, u, known, before),
        is_over(log, u, m),
        is_to_come(log, t, m),
        is_write(
            operations,
            runs,
            t,
            (Request::CompareAndSet { data: value, expected }),
            outcome,
        ),
        is_over(log, t, end),
        only_writer(log, operations, t, k, end),
    ensures
        expected == before.version ==> outcome == Ok::<Version, (T, Version)>(
            (expected + 1) as u64,
        ),
        expected != before.version ==> outcome == Err::<Version, (T, Version)>(
            (value, before.version),
        ) && recorded::is_current(log, data, end, before),
{
    let request = Request::CompareAndSet { data: value, expected };
    let p = lemma_get_is_current(log, operations, runs, tsv, data, k, m, u, known, before);
    lemma_phases(log, t, k, m);
    lemma_phases(log, t, p, m);
    lemma_counter(log, operations, data, t, k, p, end);
    assert(runs[t].events == recorded::events_of(log, t));
    recorded::lemma_beginning(log, operations, data, end);
    assert(log.take(end).take(k) =~= log.take(k));
    match outcome {
        Ok(version) => {
            lemma_write_counts(log, operations, runs, tsv, data, k, end, t, request, version);
            let _ = results::law_recorded_write_took_effect(
                log.take(end),
                operations,
                data,
                k,
                t,
                version,
            );
        },
        Err((refused, version)) => {
            let q = results::law_recorded_compare_and_set_refuses(
                log.take(end),
                operations,
                data,
                k,
                t,
                refused,
                version,
            );
            assert(log.take(end).take(q) =~= log.take(q));
            results::lemma_refused_publishes_nothing(operations[t], log, t, q, end);
            lemma_counter(log, operations, data, t, k, q, end);
            lemma_counter(log, operations, data, t, k, end, end);
            results::law_recorded_current_stays(log, operations, data, p, before, end);
        },
    }
}

/// No update is lost: an `update` of which `run` is the run replaces `old_value`, while that is
/// current, by what its function returned for it. Its last attempt is operation `u`, which reads, and
/// operation `t`, which writes; if it locks other writers out, it is operation `t` alone.
pub proof fn law_update_replaces<T: Sync + Send + 'static, F: Fn(&T) -> T>(
    log: Log<T>,
    operations: Seq<Operation<T>>,
    runs: Seq<Run<T>>,
    tsv: SlotPairTSV<T>,
    data: T,
    run: Run<T>,
    f: F,
    n: nat,
    i: int,
    j: int,
    old_value: Wrapper<T>,
    new_value: T,
    version: Version,
    u: int,
    t: int,
    g: spec_fn(T) -> T,
) -> (k: int)
    requires
        is_use_of(log, operations, runs, tsv, data),
        operations::updates(run.events, f, n, i, j, old_value, new_value, version),
        0 <= t < operations.len(),
        n < operations::RETRY_LIMIT ==> {
            &&& 0 <= u < operations.len()
            &&& operations[u] == (Operation::<T>::Read { known: None })
            &&& runs[u] == run.part(i, i + j)
            &&& operations[t] == (Operation::Write {
                request: Request::CompareAndSet { data: new_value, expected: old_value.version },
            })
            &&& runs[t] == run.part(i + j, run.events.len() as int)
        },
        n == operations::RETRY_LIMIT ==> {
            &&& operations[t] == (Operation::Update { f: g })
            &&& g(old_value.data) == new_value
            &&& runs[t] == run.part(i, run.events.len() as int)
        },
    ensures
        0 <= k < log.len(),
        call_ensures(f, (&old_value.data,), new_value),
        version == old_value.version + 1,
        recorded::is_current(log, data, k, old_value),
        recorded::is_current(log, data, k + 1, (Wrapper { data: new_value, version })),
{
    let trace = run.events;
    assert(log.take(0) =~= Seq::empty());
    assert(runs[t].events == recorded::events_of(log, t));
    if n < operations::RETRY_LIMIT {
        assert(runs[u].events == recorded::events_of(log, u));
        assert(runs[u].events =~= trace.skip(i).take(j));
        assert(runs[t].events =~= trace.skip(i).skip(j));
        results::law_recorded_update(
            log,
            operations,
            data,
            f,
            u,
            None,
            old_value,
            new_value,
            0,
            t,
            version,
        )
    } else {
        assert(runs[t].events =~= trace.skip(i));
        results::law_recorded_locked_update(
            log,
            operations,
            data,
            f,
            g,
            0,
            t,
            j,
            old_value,
            new_value,
            version,
        )
    }
}

/// What an update made is what is got, if nothing is written after it: a `get` that begins after the
/// update is over gives what the function returned for the value that was current right before, under
/// the version that the update returned. The update is as in [`law_update_replaces`]; that nothing is
/// written after it is that the version counter is at the version after its own in the end.
pub proof fn law_get_after_update<T: Sync + Send + 'static, F: Fn(&T) -> T>(
    log: Log<T>,
    operations: Seq<Operation<T>>,
    runs: Seq<Run<T>>,
    tsv: SlotPairTSV<T>,
    data: T,
    run: Run<T>,
    f: F,
    n: nat,
    i: int,
    j: int,
    old_value: Wrapper<T>,
    new_value: T,
    version: Version,
    u: int,
    t: int,
    g: spec_fn(T) -> T,
    m: int,
    v: int,
    known: Option<Wrapper<T>>,
    current: Wrapper<T>,
) -> (k: int)
    requires
        is_use_of(log, operations, runs, tsv, data),
        operations::updates(run.events, f, n, i, j, old_value, new_value, version),
        0 <= t < operations.len(),
        n < operations::RETRY_LIMIT ==> {
            &&& 0 <= u < operations.len()
            &&& operations[u] == (Operation::<T>::Read { known: None })
            &&& runs[u] == run.part(i, i + j)
            &&& operations[t] == (Operation::Write {
                request: Request::CompareAndSet { data: new_value, expected: old_value.version },
            })
            &&& runs[t] == run.part(i + j, run.events.len() as int)
        },
        n == operations::RETRY_LIMIT ==> {
            &&& operations[t] == (Operation::Update { f: g })
            &&& g(old_value.data) == new_value
            &&& runs[t] == run.part(i, run.events.len() as int)
        },
        is_over(log, t, m),
        is_to_come(log, v, m),
        is_get(operations, runs, v, known, current),
        results::counter(log, data) == version + 1,
    ensures
        recorded::is_current(log, data, k, old_value),
        version == old_value.version + 1,
        call_ensures(f, (&old_value.data,), new_value),
        current == (Wrapper { data: new_value, version }),
{
    let k = law_update_replaces(
        log,
        operations,
        runs,
        tsv,
        data,
        run,
        f,
        n,
        i,
        j,
        old_value,
        new_value,
        version,
        u,
        t,
        g,
    );
    let end = log.len() as int;
    let made = Wrapper { data: new_value, version };
    assert(log.take(end) =~= log);
    assert(runs[t].events == recorded::events_of(log, t));
    assert(runs[v].events == recorded::events_of(log, v));
    if n < operations::RETRY_LIMIT {
        assert(runs[t].events =~= run.events.skip(i).skip(j));
    } else {
        assert(runs[t].events =~= run.events.skip(i));
        let _ = results::law_recorded_locked_update(
            log,
            operations,
            data,
            f,
            g,
            0,
            t,
            j,
            old_value,
            new_value,
            version,
        );
    }
    results::law_recorded_read_after_write(
        log,
        operations,
        data,
        m,
        t,
        version,
        v,
        known,
        current,
    );
    let p = lemma_get_is_current(
        log,
        operations,
        runs,
        tsv,
        data,
        m,
        end,
        v,
        known,
        current,
    );
    if p <= k + 1 {
        results::law_recorded_versions_name_values(
            log,
            operations,
            data,
            p,
            current,
            k + 1,
            made,
        );
    } else {
        results::law_recorded_versions_name_values(
            log,
            operations,
            data,
            k + 1,
            made,
            p,
            current,
        );
    }
    k
}

/// The parts of what happened to a variable, such as the read and the write in an update, happened to
/// it too.
pub proof fn law_parts_happened<T: Sync + Send + 'static>(
    tsv: SlotPairTSV<T>,
    run: Run<T>,
    start: int,
    end: int,
)
    requires
        tsv.inner().had(run),
        0 <= start <= end <= run.events.len(),
    ensures
        tsv.inner().had(run.part(start, end)),
{
    access::lemma_part_had(tsv.inner(), run, start, end);
}

} // verus!
