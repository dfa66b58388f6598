//! What a store promises its users, from end to end.
//!
//! Each law takes what the functions along the way ensure, from the first call to the last,
//! on a directory that does what it is told, and says what a reader finds in the end.
use std::sync::Arc;
use vstd::prelude::*;
use crate::bloom::RunFilter;
use crate::cache::{BlockKey, DecodedBlock};
use crate::compact;
use crate::compact::{Compaction, CompactionPlan};
use crate::config::Settings;
use crate::cursor;
use crate::cursor::RunCursor;
use crate::db;
use crate::db::Lsm;
use crate::durability;
use crate::error::{Error, Result};
use crate::flush;
use crate::history;
use crate::history::{State, Step, Store};
use crate::laws;
use crate::layout;
use crate::manifest;
use crate::manifest::RunList;
use crate::memtable;
use crate::merge;
use crate::model;
use crate::model::Pair;
use crate::range::KeyRange;
use crate::record;
use crate::record::{Entry, Item};
use crate::recovery;
use crate::recovery::{Recovery, Verdict};
use crate::sstable;
use crate::sstable::{SsTable, Table};

verus! {

/// Sources that a reader sees the same in are scanned the same.
pub proof fn law_same_view_same_scan(
    a: Seq<Pair>,
    b: Seq<Pair>,
    these: Seq<Seq<Entry>>,
    those: Seq<Seq<Entry>>,
    range: KeyRange,
)
    requires
        model::lists(a, these, |k: Seq<u8>| range.contains(k)),
        model::lists(b, those, |k: Seq<u8>| range.contains(k)),
        forall|key: Seq<u8>| #[trigger]
            model::visible(these, key) == model::visible(those, key),
    ensures
        a == b,
{
    let keep = |k: Seq<u8>| range.contains(k);
    assert forall|key: Seq<u8>| #![trigger model::find(model::pair_entries(b), key)]
        model::live(model::find(model::pair_entries(b), key)) == (if keep(key) {
            model::visible(these, key)
        } else {
            None
        }) by {
        assert(model::visible(these, key) == model::visible(those, key));
    }
    laws::law_scan_is_unique(a, b, these, keep);
}

/// No read fails.
pub open spec fn reads_through<R>(read: R) -> bool where
    R: Fn(u64, u64, usize) -> std::result::Result<Vec<u8>, std::io::Error>,
 {
    forall|run: u64, offset: u64, len: usize, e: std::io::Error|
        !#[trigger] call_ensures(read, (run, offset, len), Err::<Vec<u8>, std::io::Error>(e))
}

/// A read of a file that is there comes back whole.
proof fn lemma_no_read_fault<R>(
    read: R,
    run: u64,
    image: Seq<u8>,
    offset: u64,
    len: usize,
    context: &'static str,
    error: Error,
) where R: Fn(u64, u64, usize) -> std::result::Result<Vec<u8>, std::io::Error>
    requires
        reads_through(read),
        sstable::reads_image(read, run, image),
    ensures
        !sstable::read_fault(read, run, offset, len, context, error),
{
}

/// An engine whose runs are undamaged, and whose reads do not fail, answers every lookup: it
/// cannot end in an error.
pub proof fn law_sound_runs_are_searched<R, C, S>(
    read: R,
    cached: C,
    store: S,
    disk: Map<u64, Seq<u8>>,
    runs: Seq<Arc<SsTable>>,
    key: Seq<u8>,
    error: Error,
) where
    R: Fn(u64, u64, usize) -> std::result::Result<Vec<u8>, std::io::Error>,
    C: Fn(BlockKey) -> Option<Arc<DecodedBlock>>,
    S: Fn(BlockKey, Arc<DecodedBlock>),

    requires
        reads_through(read),
        merge::reads_disk(read, disk),
        compact::inputs_intact(runs, disk),
    ensures
        !db::search_fault(read, cached, store, disk, runs, key, error),
{
    assert forall|i: int, c: int| 0 <= i < runs.len() implies !#[trigger] sstable::block_fault(
        read,
        runs[i].id(),
        runs[i]@,
        disk[runs[i].id()],
        c,
        error,
    ) by {
        lemma_sound_block(read, disk, runs, i, c, error);
    }
}

/// An engine whose runs are undamaged, and whose reads do not fail, finishes every scan.
pub proof fn law_sound_runs_are_scanned<R>(
    read: R,
    disk: Map<u64, Seq<u8>>,
    runs: Seq<Arc<SsTable>>,
    range: KeyRange,
    error: Error,
) where R: Fn(u64, u64, usize) -> std::result::Result<Vec<u8>, std::io::Error>
    requires
        reads_through(read),
        merge::reads_disk(read, disk),
        compact::inputs_intact(runs, disk),
    ensures
        !db::scan_fault(read, disk, merge::run_contents(runs, disk), runs, range, error),
{
    assert forall|i: int, j: int| 0 <= i < runs.len() implies !#[trigger] sstable::block_fault(
        read,
        runs[i].id(),
        runs[i]@,
        disk[runs[i].id()],
        j,
        error,
    ) by {
        lemma_sound_block(read, disk, runs, i, j, error);
    }
}

/// No block of an undamaged run is at fault where no read fails.
proof fn lemma_sound_block<R>(
    read: R,
    disk: Map<u64, Seq<u8>>,
    runs: Seq<Arc<SsTable>>,
    i: int,
    c: int,
    error: Error,
) where R: Fn(u64, u64, usize) -> std::result::Result<Vec<u8>, std::io::Error>
    requires
        reads_through(read),
        merge::reads_disk(read, disk),
        compact::inputs_intact(runs, disk),
        0 <= i < runs.len(),
    ensures
        !sstable::block_fault(read, runs[i].id(), runs[i]@, disk[runs[i].id()], c, error),
{
    let (run, image) = (runs[i]@, disk[runs[i].id()]);
    assert(sstable::intact(run, image));
    assert(sstable::reads_image(read, runs[i].id(), image));
    if 0 <= c < run.index.len() {
        lemma_no_read_fault(
            read,
            runs[i].id(),
            image,
            run.index[c].offset,
            run.index[c].len as usize,
            "read data block",
            error,
        );
    }
}

/// The steps of a walk over a run: an entry at each but the last, and none there.
pub open spec fn walked<R>(cursors: Seq<RunCursor>, items: Seq<Item>, read: R) -> bool where
    R: Fn(u64, u64, usize) -> std::result::Result<Vec<u8>, std::io::Error>,
 {
    &&& cursors.len() == items.len() + 2
    &&& forall|i: int|
        0 <= i < items.len() ==> cursor::yielded(
            cursors[i],
            cursors[i + 1],
            Some(#[trigger] items[i]),
            read,
        )
    &&& cursor::yielded(cursors[items.len() as int], cursors.last(), None, read)
}

/// A walk over an undamaged run, where no read fails, from a fresh cursor until it yields
/// nothing, lists just the entries of the run, in order, and ends without an error.
pub proof fn law_a_walk_lists_the_run<R>(
    run: Arc<SsTable>,
    cursors: Seq<RunCursor>,
    items: Seq<Item>,
    read: R,
    image: Seq<u8>,
) where R: Fn(u64, u64, usize) -> std::result::Result<Vec<u8>, std::io::Error>
    requires
        walked(cursors, items, read),
        cursors[0].run() == *run,
        cursors[0].fault() is None,
        cursors[0].rest(image) == sstable::contents(run@, image),
        sstable::intact(run@, image),
        sstable::reads_image(read, run.id(), image),
        reads_through(read),
    ensures
        record::entries(items) == sstable::contents(run@, image),
        cursors.last().fault() is None,
{
    let n = items.len() as int;
    lemma_walk(run, cursors, items, read, image, n);
    assert(items.take(n) =~= items);
    let end = cursors[n];
    assert forall|e: Error| !#[trigger] sstable::block_fault(
        read,
        run.id(),
        run@,
        image,
        cursors.last().at(),
        e,
    ) by {
        let at = cursors.last().at();
        if 0 <= at < run@.index.len() {
            lemma_no_read_fault(
                read,
                run.id(),
                image,
                run@.index[at].offset,
                run@.index[at].len as usize,
                "read data block",
                e,
            );
        }
    }
    assert(end.rest(image).len() == 0);
    assert(record::entries(items) + end.rest(image) =~= record::entries(items));
}

/// The part of a run that a walk has listed, and the part that it has still to list, are the
/// run.
proof fn lemma_walk<R>(
    run: Arc<SsTable>,
    cursors: Seq<RunCursor>,
    items: Seq<Item>,
    read: R,
    image: Seq<u8>,
    k: int,
) where R: Fn(u64, u64, usize) -> std::result::Result<Vec<u8>, std::io::Error>
    requires
        walked(cursors, items, read),
        cursors[0].run() == *run,
        cursors[0].fault() is None,
        cursors[0].rest(image) == sstable::contents(run@, image),
        sstable::reads_image(read, run.id(), image),
        0 <= k <= items.len(),
    ensures
        cursors[k].run() == *run,
        cursors[k].fault() is None,
        record::entries(items.take(k)) + cursors[k].rest(image) == sstable::contents(run@, image),
    decreases k,
{
    if k == 0 {
        assert(record::entries(items.take(0)) + cursors[0].rest(image) =~= cursors[0].rest(image));
    } else {
        lemma_walk(run, cursors, items, read, image, k - 1);
        let it = items[k - 1];
        assert(cursor::yielded(cursors[k - 1], cursors[k], Some(it), read));
        assert(record::entries(items.take(k)) =~= record::entries(items.take(k - 1)).push(
            record::entry(it),
        ));
        assert(record::entries(items.take(k)) + cursors[k].rest(image) =~= record::entries(
            items.take(k - 1),
        ) + cursors[k - 1].rest(image));
    }
}

/// None of the functions that a store is opened through fails.
pub open spec fn unfailing<F, S, R, L, D, G>(
    found: F,
    sidecar: S,
    read: R,
    listing: L,
    discard: D,
    log: G,
) -> bool where
    F: Fn(u64, String) -> Result<Option<u64>>,
    S: Fn(String) -> Result<Option<Vec<u8>>>,
    R: Fn(u64, u64, usize) -> std::result::Result<Vec<u8>, std::io::Error>,
    L: FnOnce() -> Result<Vec<String>>,
    D: Fn(String, Verdict) -> Result<()>,
    G: FnOnce() -> Result<Vec<Vec<u8>>>,
 {
    &&& reads_through(read)
    &&& forall|id: u64, name: String, e: Error|
        !#[trigger] call_ensures(found, (id, name), Err::<Option<u64>, Error>(e))
    &&& forall|name: String, e: Error|
        !#[trigger] call_ensures(sidecar, (name,), Err::<Option<Vec<u8>>, Error>(e))
    &&& forall|e: Error| !#[trigger] call_ensures(listing, (), Err::<Vec<String>, Error>(e))
    &&& forall|name: String, verdict: Verdict, e: Error|
        !#[trigger] call_ensures(discard, (name, verdict), Err::<(), Error>(e))
    &&& forall|e: Error| !#[trigger] call_ensures(log, (), Err::<Vec<Vec<u8>>, Error>(e))
}

/// What opening a store ensures, from its manifest to the end, where the functions tell what
/// its directory holds.
pub open spec fn opens_as<F, S, R, L, D, G>(
    store: Store,
    content: Option<&str>,
    settings: Settings,
    start: Result<Recovery>,
    opened: Result<Lsm>,
    found: F,
    sidecar: S,
    read: R,
    listing: L,
    discard: D,
    log: G,
) -> bool where
    F: Fn(u64, String) -> Result<Option<u64>>,
    S: Fn(String) -> Result<Option<Vec<u8>>>,
    R: Fn(u64, u64, usize) -> std::result::Result<Vec<u8>, std::io::Error>,
    L: FnOnce() -> Result<Vec<String>>,
    D: Fn(String, Verdict) -> Result<()>,
    G: FnOnce() -> Result<Vec<Vec<u8>>>,
 {
    &&& store.manifest == (match content {
        Some(text) => Some(text@),
        None => None,
    })
    &&& recovery::opening(content, settings, start)
    &&& forall|records: Vec<Vec<u8>>| #[trigger]
        call_ensures(log, (), Ok::<Vec<Vec<u8>>, Error>(records)) ==> recovery::records_of(
            records@,
        ) == store.log
    &&& start matches Ok(s) ==> {
        &&& recovery::faithful(found, sidecar, read, s.names(), store.files)
        &&& match opened {
            Ok(lsm) => {
                &&& lsm.wf()
                &&& recovery::completed(s, lsm, listing, discard, log)
                &&& forall|i: int|
                    0 <= i < lsm.live().len() ==> recovery::run_in(
                        store.files,
                        s.names()[i],
                        *#[trigger] lsm.live()[i],
                    )
            },
            Err(e) => recovery::run_refused(found, sidecar, read, s.names(), store.files, e)
                || recovery::rest_refused(s.names(), listing, discard, log, e),
        }
    }
}

/// The run files as an engine reads them that was just opened: by their places in the
/// manifest.
pub open spec fn by_place(store: Store, disk: Map<u64, Seq<u8>>) -> bool {
    let runs = store.listed().runs;
    forall|i: int| 0 <= i < runs.len() ==> disk[i as u64] == store.files[#[trigger] runs[i]]
}

/// A store opens where none of the functions fails: the runs that its manifest lists are
/// there, and so is every record of its log.
proof fn lemma_opens<F, S, R, L, D, G>(
    state: State,
    content: Option<&str>,
    settings: Settings,
    start: Result<Recovery>,
    opened: Result<Lsm>,
    found: F,
    sidecar: S,
    read: R,
    listing: L,
    discard: D,
    log: G,
    disk: Map<u64, Seq<u8>>,
) where
    F: Fn(u64, String) -> Result<Option<u64>>,
    S: Fn(String) -> Result<Option<Vec<u8>>>,
    R: Fn(u64, u64, usize) -> std::result::Result<Vec<u8>, std::io::Error>,
    L: FnOnce() -> Result<Vec<String>>,
    D: Fn(String, Verdict) -> Result<()>,
    G: FnOnce() -> Result<Vec<Vec<u8>>>,

    requires
        state.stands(),
        opens_as(
            state.store,
            content,
            settings,
            start,
            opened,
            found,
            sidecar,
            read,
            listing,
            discard,
            log,
        ),
        unfailing(found, sidecar, read, listing, discard, log),
        by_place(state.store, disk),
    ensures
        start is Ok,
        opened is Ok,
        history::opened_on(opened->Ok_0, disk, state.store),
{
    let list = state.store.listed();
    let files = state.store.files;
    let live = state.lsm.live();
    assert(start is Ok);
    let s = start->Ok_0;
    assert(s.names() == list.runs);
    if opened is Err {
        let e = opened->Err_0;
        if recovery::run_refused(found, sidecar, read, s.names(), files, e) {
            let i = choose|i: int|
                0 <= i < s.names().len() && recovery::run_fault(
                    found,
                    sidecar,
                    read,
                    files,
                    #[trigger] s.names()[i],
                    i,
                    e,
                );
            let name = s.names()[i];
            assert(db::labels(live)[i] == name);
            assert(history::run_stands(
                *live[i],
                state.disk[live[i].id()],
                files,
                list.next_seq,
            ));
            assert(recovery::held(files, name) is Some);
            assert forall|offset: u64, len: usize, context: &'static str| !#[trigger]
                sstable::read_fault(read, i as u64, offset, len, context, e) by {
                lemma_no_read_fault(read, i as u64, files[name], offset, len, context, e);
            }
            assert(!flush::open_fault(read, i as u64, e));
        }
        if recovery::rest_refused(s.names(), listing, discard, log, e) {
            assert forall|records: Vec<Vec<u8>>, i: int|
                #![trigger call_ensures(log, (), Ok::<Vec<Vec<u8>>, Error>(records)), records@[i]]
                call_ensures(log, (), Ok::<Vec<Vec<u8>>, Error>(records)) && 0 <= i
                    < records@.len() implies durability::decoded_log(records@[i]@) is Ok by {
                assert(recovery::records_of(records@)[i] == records@[i]@);
            }
        }
        assert(false);
    }
    history::law_opening_is_opening_on(
        state.store,
        content,
        settings,
        s,
        opened->Ok_0,
        found,
        sidecar,
        read,
        listing,
        discard,
        log,
        disk,
    );
}

/// A store that stands opens again, if none of the functions fails, and shows what it showed:
/// every lookup gives what it gave, and every scan lists what it listed. No run is damaged,
/// and no filter rejects a key that its run holds.
pub proof fn law_a_store_opens_as_it_was_left<F, S, R, L, D, G>(
    state: State,
    content: Option<&str>,
    settings: Settings,
    start: Result<Recovery>,
    opened: Result<Lsm>,
    found: F,
    sidecar: S,
    read: R,
    listing: L,
    discard: D,
    log: G,
    disk: Map<u64, Seq<u8>>,
    key: Seq<u8>,
    range: KeyRange,
    was: Seq<Pair>,
    now: Seq<Pair>,
) where
    F: Fn(u64, String) -> Result<Option<u64>>,
    S: Fn(String) -> Result<Option<Vec<u8>>>,
    R: Fn(u64, u64, usize) -> std::result::Result<Vec<u8>, std::io::Error>,
    L: FnOnce() -> Result<Vec<String>>,
    D: Fn(String, Verdict) -> Result<()>,
    G: FnOnce() -> Result<Vec<Vec<u8>>>,

    requires
        state.stands(),
        opens_as(
            state.store,
            content,
            settings,
            start,
            opened,
            found,
            sidecar,
            read,
            listing,
            discard,
            log,
        ),
        unfailing(found, sidecar, read, listing, discard, log),
        by_place(state.store, disk),
    ensures
        opened matches Ok(lsm) && {
            &&& lsm.wf()
            &&& lsm.visible(disk, key) == state.sees(key)
            &&& model::lists(was, state.lsm.sources(state.disk), |k: Seq<u8>| range.contains(k))
                && model::lists(now, lsm.sources(disk), |k: Seq<u8>| range.contains(k)) ==> now
                == was
            &&& db::all_covered(lsm.live(), disk)
            &&& compact::inputs_intact(lsm.live(), disk)
        },
{
    lemma_opens(
        state,
        content,
        settings,
        start,
        opened,
        found,
        sidecar,
        read,
        listing,
        discard,
        log,
        disk,
    );
    let lsm = opened->Ok_0;
    let again = State { lsm, disk, store: state.store };
    assert(history::reopens(state, again));
    lemma_shown(again, state, key, range, was, now);
    assert(again.sees(key) == lsm.visible(disk, key));
}

/// A state that stands, reached from one that stands by a reopening, shows the same.
proof fn lemma_shown(
    again: State,
    state: State,
    key: Seq<u8>,
    range: KeyRange,
    was: Seq<Pair>,
    now: Seq<Pair>,
)
    requires
        state.stands(),
        history::reopens(state, again),
    ensures
        again.stands(),
        forall|k: Seq<u8>| #[trigger] again.sees(k) == state.sees(k),
        model::lists(was, state.lsm.sources(state.disk), |k: Seq<u8>| range.contains(k))
            && model::lists(now, again.lsm.sources(again.disk), |k: Seq<u8>| range.contains(k))
            ==> now == was,
        db::all_covered(again.lsm.live(), again.disk),
        compact::inputs_intact(again.lsm.live(), again.disk),
{
    assert forall|k: Seq<u8>| #[trigger] again.sees(k) == state.sees(k) by {
        history::law_steps_show_the_writes(state, again, Step::Reopen, k);
    }
    history::law_steps_show_the_writes(state, again, Step::Reopen, key);
    if model::lists(was, state.lsm.sources(state.disk), |k: Seq<u8>| range.contains(k))
        && model::lists(now, again.lsm.sources(again.disk), |k: Seq<u8>| range.contains(k)) {
        assert forall|k: Seq<u8>| #[trigger]
            model::visible(again.lsm.sources(again.disk), k) == model::visible(
                state.lsm.sources(state.disk),
                k,
            ) by {
            assert(again.sees(k) == state.sees(k));
        }
        law_same_view_same_scan(
            now,
            was,
            again.lsm.sources(again.disk),
            state.lsm.sources(state.disk),
            range,
        );
    }
    lemma_sound(again);
}

/// The runs of a state that stands are undamaged, and their filters cover them.
proof fn lemma_sound(state: State)
    requires
        state.stands(),
    ensures
        db::all_covered(state.lsm.live(), state.disk),
        compact::inputs_intact(state.lsm.live(), state.disk),
{
    let live = state.lsm.live();
    assert forall|i: int| 0 <= i < live.len() implies (#[trigger] live[i]).covered(
        state.disk[live[i].id()],
    ) && sstable::intact(live[i]@, state.disk[live[i].id()]) by {
        assert(history::run_stands(
            *live[i],
            state.disk[live[i].id()],
            state.store.files,
            state.store.listed().next_seq,
        ));
    }
}

/// What a flush ensures that came back without an error, on a directory that did what it was
/// told: an empty buffer leaves everything as it is; else the run and its sidecar are in the
/// directory, the manifest is the one it was handed, and the log is empty.
pub open spec fn flushed<P, A, R, M, T>(
    before: State,
    after: State,
    dimensions: Option<(u64, u32)>,
    persist: P,
    attach: A,
    read: R,
    store: M,
    rotate: T,
    done: Result<bool>,
) -> bool where
    P: FnOnce(u64, String, Vec<u8>) -> Result<()>,
    A: FnOnce(String, Vec<u8>) -> Result<()>,
    R: Fn(u64, u64, usize) -> std::result::Result<Vec<u8>, std::io::Error>,
    M: FnOnce(String) -> Result<()>,
    T: FnOnce() -> Result<()>,
 {
    let es = before.lsm.mem();
    let name = manifest::run_name(before.lsm.seq());
    &&& after.lsm.wf()
    &&& db::flush_outcome(
        before.lsm,
        after.lsm,
        dimensions,
        persist,
        attach,
        read,
        store,
        rotate,
        done,
    )
    &&& done is Ok
    &&& es.len() == 0 ==> after.disk == before.disk && after.store == before.store
    &&& es.len() > 0 ==> {
        &&& before.lsm.seq() < u64::MAX
        &&& merge::reads_disk(read, after.disk)
        &&& after.disk == before.disk.insert(before.lsm.next_run(), layout::run_bytes(es))
        &&& history::same_but_run(before.store.files, after.store.files, name)
        &&& history::holds_run(after.store.files, name, es)
        &&& after.store.manifest == Some(
            manifest::manifest_text(
                RunList { next_seq: after.lsm.seq(), runs: db::labels(after.lsm.live()) },
            ),
        )
        &&& after.store.log == Seq::<Seq<u8>>::empty()
    }
}

/// A flush leaves a state that stands, and that shows what was there before.
proof fn lemma_flushed<P, A, R, M, T>(
    before: State,
    after: State,
    dimensions: Option<(u64, u32)>,
    persist: P,
    attach: A,
    read: R,
    store: M,
    rotate: T,
    done: Result<bool>,
    key: Seq<u8>,
) where
    P: FnOnce(u64, String, Vec<u8>) -> Result<()>,
    A: FnOnce(String, Vec<u8>) -> Result<()>,
    R: Fn(u64, u64, usize) -> std::result::Result<Vec<u8>, std::io::Error>,
    M: FnOnce(String) -> Result<()>,
    T: FnOnce() -> Result<()>,

    requires
        before.stands(),
        flushed(before, after, dimensions, persist, attach, read, store, rotate, done),
    ensures
        after.stands(),
        after.sees(key) == before.sees(key),
{
    if before.lsm.mem().len() > 0 {
        history::law_flush_is_a_step(
            before,
            after,
            dimensions,
            persist,
            attach,
            read,
            store,
            rotate,
            done,
        );
        history::law_steps_show_the_writes(before, after, Step::Flush, key);
    } else {
        history::law_steps_show_the_writes(before, after, Step::Begin, key);
    }
}

/// What was written, whatever the store went through meanwhile, and then flushed, is there
/// when the store is opened again: opening succeeds if none of the functions fails, every
/// lookup gives what the last write to its key left, and a scan lists just the pairs of its
/// range that the writes left.
pub proof fn law_flushed_writes_are_there_after_opening<P, A, Q, M, T, F, S, R, L, D, G>(
    states: Seq<State>,
    steps: Seq<Step>,
    after: State,
    dimensions: Option<(u64, u32)>,
    persist: P,
    attach: A,
    read_back: Q,
    store: M,
    rotate: T,
    done: Result<bool>,
    content: Option<&str>,
    settings: Settings,
    start: Result<Recovery>,
    opened: Result<Lsm>,
    found: F,
    sidecar: S,
    read: R,
    listing: L,
    discard: D,
    log: G,
    disk: Map<u64, Seq<u8>>,
    range: KeyRange,
    pairs: Seq<Pair>,
    key: Seq<u8>,
    value: Seq<u8>,
) where
    P: FnOnce(u64, String, Vec<u8>) -> Result<()>,
    A: FnOnce(String, Vec<u8>) -> Result<()>,
    Q: Fn(u64, u64, usize) -> std::result::Result<Vec<u8>, std::io::Error>,
    M: FnOnce(String) -> Result<()>,
    T: FnOnce() -> Result<()>,
    F: Fn(u64, String) -> Result<Option<u64>>,
    S: Fn(String) -> Result<Option<Vec<u8>>>,
    R: Fn(u64, u64, usize) -> std::result::Result<Vec<u8>, std::io::Error>,
    L: FnOnce() -> Result<Vec<String>>,
    D: Fn(String, Verdict) -> Result<()>,
    G: FnOnce() -> Result<Vec<Vec<u8>>>,

    requires
        history::lived(states, steps),
        flushed(
            states.last(),
            after,
            dimensions,
            persist,
            attach,
            read_back,
            store,
            rotate,
            done,
        ),
        opens_as(
            after.store,
            content,
            settings,
            start,
            opened,
            found,
            sidecar,
            read,
            listing,
            discard,
            log,
        ),
        unfailing(found, sidecar, read, listing, discard, log),
        by_place(after.store, disk),
    ensures
        opened matches Ok(lsm) && {
            &&& lsm.visible(disk, key) == history::left_by(history::all_ops(steps), key)
            &&& model::lists(pairs, lsm.sources(disk), |k: Seq<u8>| range.contains(k)) ==> (
            pairs.contains((key, value)) <==> range.contains(key) && history::left_by(
                history::all_ops(steps),
                key,
            ) == Some(value))
            &&& db::all_covered(lsm.live(), disk)
            &&& compact::inputs_intact(lsm.live(), disk)
        },
{
    history::law_reads_show_the_history(states, steps, key);
    lemma_flushed(
        states.last(),
        after,
        dimensions,
        persist,
        attach,
        read_back,
        store,
        rotate,
        done,
        key,
    );
    law_a_store_opens_as_it_was_left(
        after,
        content,
        settings,
        start,
        opened,
        found,
        sidecar,
        read,
        listing,
        discard,
        log,
        disk,
        key,
        range,
        pairs,
        pairs,
    );
    let lsm = opened->Ok_0;
    if model::lists(pairs, lsm.sources(disk), |k: Seq<u8>| range.contains(k)) {
        laws::law_scan_agrees_with_get(pairs, lsm.sources(disk), range, key, value);
    }
}

/// Writes that were logged and never flushed are there when the store is opened again, and
/// when it is opened once more: both show what the writes left, and scan alike.
pub proof fn law_logged_writes_are_there_after_every_opening<F, S, R, L, D, G>(
    states: Seq<State>,
    steps: Seq<Step>,
    content: Option<&str>,
    settings: Settings,
    start: Result<Recovery>,
    opened: Result<Lsm>,
    found: F,
    sidecar: S,
    read: R,
    listing: L,
    discard: D,
    log: G,
    disk: Map<u64, Seq<u8>>,
    again: State,
    twice: State,
    range: KeyRange,
    first: Seq<Pair>,
    second: Seq<Pair>,
    key: Seq<u8>,
) where
    F: Fn(u64, String) -> Result<Option<u64>>,
    S: Fn(String) -> Result<Option<Vec<u8>>>,
    R: Fn(u64, u64, usize) -> std::result::Result<Vec<u8>, std::io::Error>,
    L: FnOnce() -> Result<Vec<String>>,
    D: Fn(String, Verdict) -> Result<()>,
    G: FnOnce() -> Result<Vec<Vec<u8>>>,

    requires
        history::lived(states, steps),
        opens_as(
            states.last().store,
            content,
            settings,
            start,
            opened,
            found,
            sidecar,
            read,
            listing,
            discard,
            log,
        ),
        unfailing(found, sidecar, read, listing, discard, log),
        by_place(states.last().store, disk),
        opened matches Ok(lsm) ==> again.lsm == lsm,
        again.disk == disk,
        history::untouched(states.last().store, again.store),
        history::opened_on(twice.lsm, twice.disk, again.store),
    ensures
        opened is Ok,
        again.sees(key) == history::left_by(history::all_ops(steps), key),
        twice.sees(key) == history::left_by(history::all_ops(steps), key),
        model::lists(first, again.lsm.sources(again.disk), |k: Seq<u8>| range.contains(k))
            && model::lists(second, twice.lsm.sources(twice.disk), |k: Seq<u8>| range.contains(k))
            ==> first == second,
{
    let state = states.last();
    history::law_reads_show_the_history(states, steps, key);
    lemma_opens(
        state,
        content,
        settings,
        start,
        opened,
        found,
        sidecar,
        read,
        listing,
        discard,
        log,
        disk,
    );
    history::lemma_untouched(state, again);
    lemma_shown(again, state, key, range, first, first);
    let last = State { lsm: twice.lsm, disk: twice.disk, store: again.store };
    assert(history::reopens(again, last));
    lemma_shown(last, again, key, range, first, second);
    assert(again.sees(key) == state.sees(key));
    assert(last.sees(key) == again.sees(key));
    assert(twice.sees(key) == last.sees(key));
}

/// A compaction that was begun, merged to its end, finished, sealed and swapped in, with runs
/// flushed meanwhile, on a directory that did what it was told: those runs stay, newest
/// first, and the output is the oldest run. It holds no deletion, and just the keys whose
/// newest record in the runs that were merged is a value, each with that value. Every lookup
/// gives what it gave before the swap, and every scan lists what it listed.
pub proof fn law_a_compaction_changes_nothing_that_is_read(
    before: State,
    after: State,
    newer: Seq<Arc<SsTable>>,
    plan: CompactionPlan,
    job: Compaction,
    filter: Option<RunFilter>,
    output: SsTable,
    range: KeyRange,
    was: Seq<Pair>,
    now: Seq<Pair>,
    key: Seq<u8>,
)
    requires
        before.stands(),
        before.lsm.live() == newer + plan.inputs@,
        job.sources() == plan.inputs@,
        model::lists(
            job.merged(),
            compact::inputs_of(plan.inputs@, before.disk),
            compact::every_key(),
        ),
        flush::admits_all(filter, model::pair_entries(job.merged())),
        sealed(plan, filter, output, model::pair_entries(job.merged())),
        after.lsm.wf(),
        after.lsm.mem() == before.lsm.mem(),
        after.lsm.seq() == before.lsm.seq(),
        after.lsm.live().len() == db::survivors(before.lsm.live(), plan.inputs@).len() + 1,
        after.lsm.live().drop_last() == db::survivors(before.lsm.live(), plan.inputs@),
        *after.lsm.live().last() == output,
        history::named_before(plan.name@, before.lsm.seq()),
        !db::labels(newer).contains(plan.name@),
        !db::has_id(before.lsm.live(), plan.run_id),
        after.disk == before.disk.insert(
            plan.run_id,
            layout::run_bytes(model::pair_entries(job.merged())),
        ),
        history::holds_run(after.store.files, plan.name@, model::pair_entries(job.merged())),
        forall|i: int|
            0 <= i < newer.len() ==> history::same_run(
                before.store.files,
                after.store.files,
                (#[trigger] newer[i]).label(),
            ),
        after.store.manifest == Some(
            manifest::manifest_text(
                RunList {
                    next_seq: before.lsm.seq(),
                    runs: db::labels(db::survivors(before.lsm.live(), plan.inputs@)).push(
                        plan.name@,
                    ),
                },
            ),
        ),
        after.store.log == before.store.log,
    ensures
        after.stands(),
        after.lsm.live().drop_last() == newer,
        *after.lsm.live().last() == output,
        forall|i: int|
            0 <= i < sstable::contents(output@, after.disk[output.id()]).len() ==> (
            #[trigger] sstable::contents(output@, after.disk[output.id()])[i]).1 is Some,
        model::find(sstable::contents(output@, after.disk[output.id()]), key) == (
        match model::newest(merge::run_contents(plan.inputs@, before.disk), key) {
            Some(Some(value)) => Some(Some(value)),
            _ => None,
        }),
        after.sees(key) == before.sees(key),
        model::lists(was, before.lsm.sources(before.disk), |k: Seq<u8>| range.contains(k))
            && model::lists(now, after.lsm.sources(after.disk), |k: Seq<u8>| range.contains(k))
            ==> now == was,
{
    let (inputs, pairs) = (plan.inputs@, job.merged());
    let es = model::pair_entries(pairs);
    let step = Step::Compact(newer, inputs, pairs);
    history::law_compaction_is_a_step(before, after, newer, inputs, output, pairs);
    assert forall|k: Seq<u8>| #[trigger] after.sees(k) == before.sees(k) by {
        history::law_steps_show_the_writes(before, after, step, k);
    }
    history::law_steps_show_the_writes(before, after, step, key);
    if model::lists(was, before.lsm.sources(before.disk), |k: Seq<u8>| range.contains(k))
        && model::lists(now, after.lsm.sources(after.disk), |k: Seq<u8>| range.contains(k)) {
        assert forall|k: Seq<u8>| #[trigger]
            model::visible(after.lsm.sources(after.disk), k) == model::visible(
                before.lsm.sources(before.disk),
                k,
            ) by {
            assert(after.sees(k) == before.sees(k));
        }
        law_same_view_same_scan(
            now,
            was,
            after.lsm.sources(after.disk),
            before.lsm.sources(before.disk),
            range,
        );
    }
    assert(sstable::contents(output@, after.disk[output.id()]) == es);
    db::lemma_mem_first(seq![], inputs, before.disk, key);
    model::lemma_find_absent(seq![], key);
    assert(model::live(model::find(es, key)) == model::visible(
        compact::inputs_of(inputs, before.disk),
        key,
    ));
    if model::find(es, key) is Some {
        let i = model::lemma_find_witness(es, key);
        assert(es[i].1 is Some);
    }
}

/// What sealing ensures of the output of a compaction, if its file holds what was written.
pub open spec fn sealed(
    plan: CompactionPlan,
    filter: Option<RunFilter>,
    output: SsTable,
    es: Seq<Entry>,
) -> bool {
    let image = layout::run_bytes(es);
    &&& output.wf()
    &&& output.id() == plan.run_id
    &&& output.label() == plan.name@
    &&& output.filtered() == filter
    &&& sstable::opened(image) == Ok::<Table, Error>(output@)
    &&& sstable::intact(output@, image)
    &&& sstable::contents(output@, image) == es
    &&& flush::admits_all(filter, es) ==> output.covered(image)
}

/// A batch is applied whole: a reader sees under every key what the last operation of the
/// batch on it left, or what was there if the batch does not mention it. It is the same as
/// applying the operations one by one.
pub proof fn law_a_batch_is_its_operations(
    before: State,
    after: State,
    batch: Seq<Entry>,
    singles: Seq<State>,
    key: Seq<u8>,
)
    requires
        before.stands(),
        history::writes(before, after, batch),
        singles.len() == batch.len() + 1,
        singles[0] == before,
        forall|i: int|
            0 <= i < batch.len() ==> history::writes(
                singles[i],
                singles[i + 1],
                seq![#[trigger] batch[i]],
            ),
    ensures
        after.sees(key) == history::sees_with(before, batch, key),
        singles.last().sees(key) == after.sees(key),
{
    history::law_steps_show_the_writes(before, after, Step::Write(batch), key);
    lemma_one_by_one(batch, singles, key);
}

/// What writing some operations one by one shows.
proof fn lemma_one_by_one(batch: Seq<Entry>, singles: Seq<State>, key: Seq<u8>)
    requires
        singles.len() == batch.len() + 1,
        singles[0].stands(),
        forall|i: int|
            0 <= i < batch.len() ==> history::writes(
                singles[i],
                singles[i + 1],
                seq![#[trigger] batch[i]],
            ),
    ensures
        singles.last().stands(),
        singles.last().sees(key) == history::sees_with(singles[0], batch, key),
    decreases batch.len(),
{
    if batch.len() > 0 {
        let n = batch.len() as int;
        let (fewer, earlier) = (batch.drop_last(), singles.drop_last());
        assert forall|i: int| 0 <= i < fewer.len() implies history::writes(
            earlier[i],
            earlier[i + 1],
            seq![#[trigger] fewer[i]],
        ) by {
            assert(batch[i] == fewer[i]);
        }
        lemma_one_by_one(fewer, earlier, key);
        let last = seq![batch[n - 1]];
        assert(history::writes(singles[n - 1], singles[n], last));
        history::law_steps_show_the_writes(singles[n - 1], singles[n], Step::Write(last), key);
        memtable::lemma_last_write_concat(fewer, last, key);
        assert(fewer + last =~= batch);
    }
}

/// A flush succeeds if none of the functions fails, the run reads back as it was written, and
/// what is buffered can be written at all.
pub proof fn law_a_flush_succeeds_if_nothing_fails<P, A, R, M, T>(
    was: Lsm,
    now: Lsm,
    dimensions: Option<(u64, u32)>,
    persist: P,
    attach: A,
    read: R,
    store: M,
    rotate: T,
    done: Result<bool>,
) where
    P: FnOnce(u64, String, Vec<u8>) -> Result<()>,
    A: FnOnce(String, Vec<u8>) -> Result<()>,
    R: Fn(u64, u64, usize) -> std::result::Result<Vec<u8>, std::io::Error>,
    M: FnOnce(String) -> Result<()>,
    T: FnOnce() -> Result<()>,

    requires
        db::flush_outcome(was, now, dimensions, persist, attach, read, store, rotate, done),
        forall|i: int|
            0 <= i < was.mem().len() ==> (#[trigger] was.mem()[i]).0.len() <= 1073741824 && (
            was.mem()[i].1 matches Some(value) ==> value.len() <= 1073741824),
        layout::run_bytes(was.mem()).len() <= u64::MAX,
        forall|id: u64, file: String, bytes: Vec<u8>, e: Error|
            !#[trigger] call_ensures(persist, (id, file, bytes), Err::<(), Error>(e)),
        forall|file: String, bytes: Vec<u8>, e: Error|
            !#[trigger] call_ensures(attach, (file, bytes), Err::<(), Error>(e)),
        forall|content: String, e: Error|
            !#[trigger] call_ensures(store, (content,), Err::<(), Error>(e)),
        forall|e: Error| !#[trigger] call_ensures(rotate, (), Err::<(), Error>(e)),
        reads_through(read),
        sstable::reads_image(read, was.next_run(), layout::run_bytes(was.mem())),
    ensures
        done is Ok,
{
    if done is Err {
        let e = done->Err_0;
        let es = was.mem();
        layout::lemma_blocks_join(es);
        assert(layout::run_bytes(es).len() >= 8 + crate::codec::encode_entries(es).len());
        crate::formats::law_entries_that_fit_are_written(es, e);
        assert forall|offset: u64, len: usize, context: &'static str| !#[trigger]
            sstable::read_fault(read, was.next_run(), offset, len, context, e) by {
            lemma_no_read_fault(
                read,
                was.next_run(),
                layout::run_bytes(es),
                offset,
                len,
                context,
                e,
            );
        }
    }
}

/// Runs that are undamaged, and whose reads do not fail, are merged without an error; and a
/// file that reads as it was written opens without one.
pub proof fn law_sound_runs_are_merged<R>(
    read: R,
    disk: Map<u64, Seq<u8>>,
    runs: Seq<Arc<SsTable>>,
    run: u64,
    error: Error,
) where R: Fn(u64, u64, usize) -> std::result::Result<Vec<u8>, std::io::Error>
    requires
        reads_through(read),
        merge::reads_disk(read, disk),
        compact::inputs_intact(runs, disk),
    ensures
        !db::some_fault(read, disk, runs, error),
        !flush::open_fault(read, run, error),
{
    assert forall|i: int| 0 <= i < runs.len() implies !merge::run_fault(
        read,
        disk,
        *#[trigger] runs[i],
        error,
    ) by {
        assert forall|c: int| !#[trigger] sstable::block_fault(
            read,
            runs[i].id(),
            runs[i]@,
            disk[runs[i].id()],
            c,
            error,
        ) by {
            lemma_sound_block(read, disk, runs, i, c, error);
        }
    }
    assert forall|offset: u64, len: usize, context: &'static str| !#[trigger]
        sstable::read_fault(read, run, offset, len, context, error) by {
        lemma_no_read_fault(read, run, disk[run], offset, len, context, error);
    }
}

} // verus!
