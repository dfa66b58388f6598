//! What reaches the files, the log and the cache.
//!
//! The library calls the functions it is given. The laws here say what has to have been
//! called once an operation succeeded, and that nothing more is asked of the functions than
//! that they can be called.
use std::sync::Arc;
use vstd::prelude::*;
use crate::bloom;
use crate::bloom::RunFilter;
use crate::cache::{BlockKey, DecodedBlock};
use crate::checksum;
use crate::codec;
use crate::compact;
use crate::db;
use crate::db::Lsm;
use crate::durability;
use crate::error::{Error, Result};
use crate::index;
use crate::layout;
use crate::manifest;
use crate::manifest::RunList;
use crate::merge;
use crate::model;
use crate::record;
use crate::record::Entry;
use crate::recovery;
use crate::recovery::{Recovery, Verdict};
use crate::sidecar;
use crate::sstable;
use crate::sstable::{SsTable, Table};

verus! {

/// A write that is answered was handed to the log: one record that holds just its operations,
/// and the answer is the log's.
pub proof fn law_writes_go_to_the_log<L>(log: L, ops: Seq<Entry>, done: Result<()>) -> (record: Vec<
    u8,
>) where L: FnOnce(Vec<u8>) -> Result<()>
    requires
        db::logged(log, ops, done),
    ensures
        record@ == durability::encode_log(ops),
        call_ensures(log, (record,), done),
{
    choose|bytes: Vec<u8>|
        bytes@ == durability::encode_log(ops) && #[trigger] call_ensures(log, (bytes,), done)
}

/// A log that takes every record takes every write.
pub proof fn law_any_write_can_be_logged<L>(log: L, ops: Seq<Entry>) where
    L: FnOnce(Vec<u8>) -> Result<()>,

    requires
        forall|bytes: Vec<u8>| #[trigger] call_requires(log, (bytes,)),
    ensures
        db::loggable(log, ops),
{
}

/// A stored manifest is one text: the header, the next sequence number, and the runs in order.
pub proof fn law_manifests_are_stored_whole<M>(
    store: M,
    next_seq: u64,
    runs: Seq<Seq<char>>,
    done: Result<()>,
) -> (content: String) where M: FnOnce(String) -> Result<()>
    requires
        db::stored_list(store, next_seq, runs, done),
    ensures
        content@ == manifest::manifest_text(RunList { next_seq, runs }),
        call_ensures(store, (content,), done),
{
    choose|content: String|
        content@ == manifest::manifest_text(RunList { next_seq, runs }) && #[trigger] call_ensures(
            store,
            (content,),
            done,
        )
}

/// The names in a manifest are those of the runs, in their order.
pub proof fn law_runs_are_listed_in_order(runs: Seq<Arc<SsTable>>, i: int)
    ensures
        db::labels(runs).len() == runs.len(),
        0 <= i < runs.len() ==> db::labels(runs)[i] == runs[i].label(),
        db::run_ids(runs).len() == runs.len(),
        0 <= i < runs.len() ==> db::run_ids(runs)[i] == runs[i].id(),
{
}

/// A sidecar that was written holds the words and dimensions of its filter, in its envelope,
/// next to its run.
pub proof fn law_sidecars_hold_their_filter<A>(
    attach: A,
    name: Seq<char>,
    filter: RunFilter,
    done: Result<()>,
) -> (file: (String, Vec<u8>)) where A: FnOnce(String, Vec<u8>) -> Result<()>
    requires
        compact::sidecar_written(attach, name, filter, done),
    ensures
        file.0@ == name + ".bloom"@,
        file.1@ == bloom::envelope(sidecar::filter_encoding(filter.parts())),
        call_ensures(attach, file, done),
{
    let (name_of, bytes) = choose|file: String, bytes: Vec<u8>|
        file@ == bloom::sidecar_name(name) && db::sidecar_bytes(filter, bytes@)
            && #[trigger] call_ensures(attach, (file, bytes), done);
    (name_of, bytes)
}

/// A flush that succeeded, of a buffer that held something, has written the run of just what
/// was buffered, under the name of its sequence number; has written its sidecar, if it has a
/// filter; has replaced the manifest by one that lists it first; and has emptied the log. The
/// new run is the newest, and the buffer is empty.
pub proof fn law_a_flush_has_written_everything<P, A, R, M, T>(
    was: Lsm,
    now: Lsm,
    dimensions: Option<(u64, u32)>,
    persist: P,
    attach: A,
    read: R,
    store: M,
    rotate: T,
    due: bool,
) -> (written: (String, Vec<u8>, String)) where
    P: FnOnce(u64, String, Vec<u8>) -> Result<()>,
    A: FnOnce(String, Vec<u8>) -> Result<()>,
    R: Fn(u64, u64, usize) -> std::result::Result<Vec<u8>, std::io::Error>,
    M: FnOnce(String) -> Result<()>,
    T: FnOnce() -> Result<()>,

    requires
        was.mem().len() > 0,
        db::flush_outcome(
            was,
            now,
            dimensions,
            persist,
            attach,
            read,
            store,
            rotate,
            Ok::<bool, Error>(due),
        ),
    ensures
        written.0@ == manifest::run_name(was.seq()),
        written.1@ == layout::run_bytes(was.mem()),
        call_ensures(
            persist,
            (was.next_run(), written.0, written.1),
            Ok::<(), Error>(()),
        ),
        written.2@ == manifest::manifest_text(
            RunList {
                next_seq: was.seq().wrapping_add(1),
                runs: seq![manifest::run_name(was.seq())] + db::labels(was.live()),
            },
        ),
        call_ensures(store, (written.2,), Ok::<(), Error>(())),
        call_ensures(rotate, (), Ok::<(), Error>(())),
        now.mem().len() == 0,
        now.live().len() == was.live().len() + 1,
        now.live().skip(1) == was.live(),
        now.live()[0].id() == was.next_run(),
        now.live()[0].label() == manifest::run_name(was.seq()),
        now.live()[0].filtered() matches Some(f) ==> compact::sidecar_written(
            attach,
            manifest::run_name(was.seq()),
            f,
            Ok(()),
        ),
        now.seq() == was.seq().wrapping_add(1),
        now.next_run() == was.next_run() + 1,
        now.settings() == was.settings(),
        due == (was.live().len() + 1 >= was.settings().compaction_trigger),
{
    let name = manifest::run_name(was.seq());
    let table = choose|table: SsTable| #[trigger]
        db::fronted(table, was.live(), now.live()) && db::flushed_as(table, was, dimensions) && (
        table.filtered() matches Some(f) ==> compact::sidecar_written(attach, name, f, Ok(())));
    assert(db::fronted(table, was.live(), now.live()));
    let (file, bytes) = choose|file: String, bytes: Vec<u8>|
        file@ == name && bytes@ == layout::run_bytes(was.mem()) && #[trigger] call_ensures(
            persist,
            (was.next_run(), file, bytes),
            Ok::<(), Error>(()),
        );
    let content = law_manifests_are_stored_whole(
        store,
        now.seq(),
        db::labels(now.live()),
        Ok::<(), Error>(()),
    );
    assert(db::labels(now.live()) =~= seq![name] + db::labels(was.live())) by {
        assert forall|i: int| 0 <= i < db::labels(now.live()).len() implies db::labels(
            now.live(),
        )[i] == (seq![name] + db::labels(was.live()))[i] by {
            if i > 0 {
                assert(now.live().skip(1)[i - 1] == now.live()[i]);
            }
        }
    }
    (file, bytes, content)
}

/// A flush that failed has lost no run: those that were live still are, in their order, and
/// at most the run of what was buffered is before them.
pub proof fn law_a_failed_flush_loses_no_run<P, A, R, M, T>(
    was: Lsm,
    now: Lsm,
    dimensions: Option<(u64, u32)>,
    persist: P,
    attach: A,
    read: R,
    store: M,
    rotate: T,
    error: Error,
) where
    P: FnOnce(u64, String, Vec<u8>) -> Result<()>,
    A: FnOnce(String, Vec<u8>) -> Result<()>,
    R: Fn(u64, u64, usize) -> std::result::Result<Vec<u8>, std::io::Error>,
    M: FnOnce(String) -> Result<()>,
    T: FnOnce() -> Result<()>,

    requires
        db::flush_outcome(
            was,
            now,
            dimensions,
            persist,
            attach,
            read,
            store,
            rotate,
            Err::<bool, Error>(error),
        ),
    ensures
        was.mem().len() > 0,
        now.live() == was.live() || (now.live().len() == was.live().len() + 1 && now.live().skip(1)
            == was.live() && call_ensures(rotate, (), Err::<(), Error>(error)) && db::stored_list(
            store,
            was.seq().wrapping_add(1),
            db::labels(now.live()),
            Ok(()),
        )),
        now.seq() == was.seq().wrapping_add(1),
        now.settings() == was.settings(),
{
}

/// An empty buffer is not flushed: nothing changes, and no compaction is due.
pub proof fn law_an_empty_buffer_is_not_flushed<P, A, R, M, T>(
    was: Lsm,
    now: Lsm,
    dimensions: Option<(u64, u32)>,
    persist: P,
    attach: A,
    read: R,
    store: M,
    rotate: T,
    done: Result<bool>,
) where
    P: FnOnce(u64, String, Vec<u8>) -> Result<()>,
    A: FnOnce(String, Vec<u8>) -> Result<()>,
    R: Fn(u64, u64, usize) -> std::result::Result<Vec<u8>, std::io::Error>,
    M: FnOnce(String) -> Result<()>,
    T: FnOnce() -> Result<()>,

    requires
        was.mem().len() == 0,
        db::flush_outcome(
            was,
            now,
            dimensions,
            persist,
            attach,
            read,
            store,
            rotate,
            done,
        ),
    ensures
        done == Ok::<bool, Error>(false),
        now.mem() == was.mem(),
        now.live() == was.live(),
        now.seq() == was.seq(),
        now.next_run() == was.next_run(),
        now.busy() == was.busy(),
        now.settings() == was.settings(),
{
}

/// Functions that can always be called are enough for a flush.
pub proof fn law_any_buffer_can_be_flushed<P, A, R, M, T>(
    was: Lsm,
    dimensions: Option<(u64, u32)>,
    persist: P,
    attach: A,
    read: R,
    store: M,
    rotate: T,
) where
    P: FnOnce(u64, String, Vec<u8>) -> Result<()>,
    A: FnOnce(String, Vec<u8>) -> Result<()>,
    R: Fn(u64, u64, usize) -> std::result::Result<Vec<u8>, std::io::Error>,
    M: FnOnce(String) -> Result<()>,
    T: FnOnce() -> Result<()>,

    requires
        forall|id: u64, file: String, bytes: Vec<u8>| #[trigger]
            call_requires(persist, (id, file, bytes)),
        forall|file: String, bytes: Vec<u8>| #[trigger] call_requires(attach, (file, bytes)),
        forall|content: String| #[trigger] call_requires(store, (content,)),
        call_requires(rotate, ()),
    ensures
        db::flush_callable(was, dimensions, persist, attach, read, store, rotate),
{
}

/// Functions that can always be called are enough for installing a compaction, and for
/// sealing its output.
pub proof fn law_any_compaction_can_be_installed<M, D, I, A>(
    was: Lsm,
    inputs: Seq<Arc<SsTable>>,
    output: Seq<char>,
    store: M,
    retire: D,
    filter: Option<RunFilter>,
    install: I,
    attach: A,
) where
    M: FnOnce(String) -> Result<()>,
    D: FnOnce(Vec<u64>),
    I: FnOnce() -> Result<()>,
    A: FnOnce(String, Vec<u8>) -> Result<()>,

    requires
        forall|content: String| #[trigger] call_requires(store, (content,)),
        forall|ids: Vec<u64>| #[trigger] call_requires(retire, (ids,)),
        call_requires(install, ()),
        forall|file: String, bytes: Vec<u8>| #[trigger] call_requires(attach, (file, bytes)),
    ensures
        db::install_callable(was, inputs, output, store, retire),
        compact::seal_callable(output, filter, install, attach),
{
}

/// Functions that can always be called are enough for looking any key up.
pub proof fn law_any_key_can_be_looked_up<R, C, S>(
    read: R,
    cached: C,
    store: S,
    runs: Seq<Arc<SsTable>>,
    key: Seq<u8>,
) where
    R: Fn(u64, u64, usize) -> std::result::Result<Vec<u8>, std::io::Error>,
    C: Fn(BlockKey) -> Option<Arc<DecodedBlock>>,
    S: Fn(BlockKey, Arc<DecodedBlock>),

    requires
        forall|run: u64, offset: u64, len: usize| #[trigger]
            call_requires(read, (run, offset, len)),
        forall|k: BlockKey| #[trigger] call_requires(cached, (k,)),
        forall|k: BlockKey, items: Arc<DecodedBlock>| #[trigger] call_requires(store, (k, items)),
    ensures
        db::callable_for(read, cached, store, runs, key),
        sstable::total(read),
{
}

/// A read function that gives back what the files hold, and fails where they end, is all that
/// the contracts on reading ask for.
pub proof fn law_honest_reads_are_enough<R>(read: R, disk: Map<u64, Seq<u8>>) where
    R: Fn(u64, u64, usize) -> std::result::Result<Vec<u8>, std::io::Error>,

    requires
        forall|run: u64, offset: u64, len: usize, bytes: Vec<u8>| #[trigger]
            call_ensures(
                read,
                (run, offset, len),
                Ok::<Vec<u8>, std::io::Error>(bytes),
            ) ==> offset + len <= disk[run].len() && bytes@ == disk[run].subrange(
                offset as int,
                offset + len,
            ),
    ensures
        merge::reads_disk(read, disk),
        forall|run: u64| sstable::reads_image(read, run, #[trigger] disk[run]),
{
}

/// A cache that gives back only blocks as they were read is all that the contracts on looking
/// up ask for; one that never has a block is such a cache.
pub proof fn law_honest_caches_are_enough<C>(
    cached: C,
    runs: Seq<Arc<SsTable>>,
    disk: Map<u64, Seq<u8>>,
) where C: Fn(BlockKey) -> Option<Arc<DecodedBlock>>
    requires
        forall|key: BlockKey, items: Arc<DecodedBlock>, i: int|
            #![trigger call_ensures(cached, (key,), Some(items)), runs[i]]
            call_ensures(cached, (key,), Some(items)) && 0 <= i < runs.len() && runs[i].id()
                == key.run_id && key.block_idx < runs[i]@.index.len() ==> sstable::block_of(
                runs[i]@,
                disk[key.run_id],
                key.block_idx as int,
            ) == Ok::<Seq<Entry>, Error>(record::entries(items@)),
    ensures
        db::serves_all(cached, runs, disk),
{
    assert forall|i: int| 0 <= i < runs.len() implies sstable::serves(
        cached,
        (#[trigger] runs[i]).id(),
        runs[i]@,
        disk[runs[i].id()],
    ) by {}
}

/// A block that was looked up came from the cache, or the cache did not have it and has been
/// handed it.
pub proof fn law_blocks_come_from_the_cache_or_go_to_it<C, S>(
    cached: C,
    store: S,
    key: BlockKey,
    items: Arc<DecodedBlock>,
) where C: Fn(BlockKey) -> Option<Arc<DecodedBlock>>, S: Fn(BlockKey, Arc<DecodedBlock>)
    requires
        sstable::supplied(cached, store, key, items),
    ensures
        call_ensures(cached, (key,), Some(items)) || (call_ensures(cached, (key,), None)
            && call_ensures(store, (key, items), ())),
{
}

/// A run without a filter is consulted for every key, and one with a filter for just the keys
/// that the filter admits.
pub proof fn law_filters_decide_which_runs_are_consulted(
    runs: Seq<Arc<SsTable>>,
    disk: Map<u64, Seq<u8>>,
    run: SsTable,
    key: Seq<u8>,
)
    ensures
        run.filtered() is None ==> run.admits(key),
        run.filtered() matches Some(f) ==> (run.admits(key) <==> f.admitted().contains(key)),
        (forall|i: int, k: Seq<u8>|
            #![trigger runs[i], model::mentions(sstable::contents(runs[i]@, disk[runs[i].id()]), k)]
            0 <= i < runs.len() && model::mentions(
                sstable::contents(runs[i]@, disk[runs[i].id()]),
                k,
            ) ==> (runs[i].filtered() matches Some(f) ==> f.admitted().contains(k)))
            ==> db::all_covered(runs, disk),
{
    if forall|i: int, k: Seq<u8>|
        #![trigger runs[i], model::mentions(sstable::contents(runs[i]@, disk[runs[i].id()]), k)]
        0 <= i < runs.len() && model::mentions(
            sstable::contents(runs[i]@, disk[runs[i].id()]),
            k,
        ) ==> (runs[i].filtered() matches Some(f) ==> f.admitted().contains(k)) {
        assert forall|i: int| 0 <= i < runs.len() implies (#[trigger] runs[i]).covered(
            disk[runs[i].id()],
        ) by {
            assert forall|k: Seq<u8>| #[trigger]
                model::mentions(
                    sstable::contents(runs[i]@, disk[runs[i].id()]),
                    k,
                ) implies runs[i].admits(k) by {
                let r = runs[i];
            }
        }
    }
}

/// A swept directory holds no file that had to go: each of them was removed, as what it was
/// judged to be.
pub proof fn law_every_file_that_has_to_go_is_removed<D>(
    discard: D,
    names: Seq<Seq<char>>,
    listing: Seq<String>,
    i: int,
) -> (file: String) where D: Fn(String, Verdict) -> Result<()>
    requires
        recovery::cleared(discard, names, listing),
        0 <= i < listing.len(),
        recovery::verdict_of(names, listing[i]@) != Verdict::Keep,
    ensures
        file@ == listing[i]@,
        call_ensures(
            discard,
            (file, recovery::verdict_of(names, listing[i]@)),
            Ok::<(), Error>(()),
        ),
{
    let name = listing[i]@;
    assert(recovery::discarded(discard, names, name, Ok(())));
    choose|file: String|
        file@ == name && #[trigger] call_ensures(
            discard,
            (file, recovery::verdict_of(names, name)),
            Ok::<(), Error>(()),
        )
}

/// A sidecar that cannot be used is removed when its run is opened.
pub proof fn law_useless_sidecars_are_removed<B>(
    shed: B,
    files: Map<Seq<char>, Seq<u8>>,
    names: Seq<Seq<char>>,
    i: int,
) -> (file: String) where B: Fn(String)
    requires
        recovery::all_rid_of(shed, files, names),
        0 <= i < names.len(),
        files.contains_key(names[i] + ".bloom"@),
        recovery::unusable(files[names[i] + ".bloom"@]),
    ensures
        file@ == names[i] + ".bloom"@,
        call_ensures(shed, (file,), ()),
{
    let name = bloom::sidecar_name(names[i]);
    assert(recovery::rid_of(shed, files, name));
    choose|file: String| file@ == name && #[trigger] call_ensures(shed, (file,), ())
}

/// A sidecar is of no use just where its envelope is damaged, or what is in it is no filter
/// that can be probed; one that is of use is used.
pub proof fn law_sidecars_are_used_where_they_can_be(
    sidecar: Option<Seq<u8>>,
    filter: Option<RunFilter>,
)
    requires
        recovery::filter_of(sidecar, filter),
    ensures
        filter is Some <==> (sidecar matches Some(bytes) && bloom::payload_of(bytes) is Some
            && bloom::loaded(bloom::payload_of(bytes)->0) is Some),
        filter matches Some(f) ==> bloom::loaded(bloom::payload_of(sidecar->0)->0) == Some(
            f.parts(),
        ),
        sidecar matches Some(bytes) ==> (recovery::unusable(bytes) <==> filter is None),
{
}

/// The operations of the log are those of its records, in order.
pub proof fn law_the_log_is_its_records_in_order(records: Seq<Seq<u8>>, record: Seq<u8>)
    ensures
        durability::logged_ops(seq![]) == Seq::<Entry>::empty(),
        durability::decoded_log(record) matches Ok(ops) ==> durability::logged_ops(
            records.push(record),
        ) == durability::logged_ops(records) + ops,
{
    assert(records.push(record).drop_last() =~= records);
}

/// An engine that was opened has the runs that the manifest names, a sequence number past
/// every run file listed, the files that had to go removed, every record of the log decoded,
/// and in its buffer what the records leave, and nothing else.
pub proof fn law_opening_does_all_of_it<L, D, G>(
    start: Recovery,
    lsm: Lsm,
    listing: L,
    discard: D,
    log: G,
) -> (seen: (Vec<String>, Vec<Vec<u8>>)) where
    L: FnOnce() -> Result<Vec<String>>,
    D: Fn(String, Verdict) -> Result<()>,
    G: FnOnce() -> Result<Vec<Vec<u8>>>,

    requires
        recovery::completed(start, lsm, listing, discard, log),
    ensures
        db::labels(lsm.live()) == start.names(),
        lsm.settings() == start.settings(),
        !lsm.busy(),
        call_ensures(listing, (), Ok::<Vec<String>, Error>(seen.0)),
        recovery::cleared(discard, start.names(), seen.0@),
        lsm.seq() == recovery::seq_after(start.seq(), seen.0@),
        call_ensures(log, (), Ok::<Vec<Vec<u8>>, Error>(seen.1)),
        forall|i: int|
            0 <= i < seen.1@.len() ==> durability::decoded_log((#[trigger] seen.1@[i])@) is Ok,
        model::ascending(lsm.mem()),
        forall|key: Seq<u8>|
            #![trigger model::find(lsm.mem(), key)]
            model::find(lsm.mem(), key) == crate::memtable::last_write(
                durability::logged_ops(recovery::records_of(seen.1@)),
                key,
            ),
{
    let listed = choose|listed: Vec<String>| #[trigger]
        call_ensures(listing, (), Ok::<Vec<String>, Error>(listed)) && lsm.seq()
            == recovery::seq_after(start.seq(), listed@) && lsm.seq() >= start.seq()
            && recovery::cleared(discard, start.names(), listed@);
    let records = choose|records: Vec<Vec<u8>>| #[trigger]
        call_ensures(log, (), Ok::<Vec<Vec<u8>>, Error>(records)) && durability::replayed(
            lsm.mem(),
            seq![],
            recovery::records_of(records@),
        );
    assert forall|i: int| 0 <= i < records@.len() implies durability::decoded_log(
        (#[trigger] records@[i])@,
    ) is Ok by {
        assert(recovery::records_of(records@)[i] == records@[i]@);
    }
    assert forall|key: Seq<u8>|
        #![trigger model::find(lsm.mem(), key)]
        model::find(lsm.mem(), key) == crate::memtable::last_write(
            durability::logged_ops(recovery::records_of(records@)),
            key,
        ) by {
        model::lemma_find_absent(seq![], key);
    }
    (listed, records)
}

/// A compaction leaves just the runs that were not merged, in their order.
pub proof fn law_runs_that_were_not_merged_stay(
    runs: Seq<Arc<SsTable>>,
    merged: Seq<Arc<SsTable>>,
    run: Arc<SsTable>,
)
    ensures
        db::survivors(seq![], merged) == Seq::<Arc<SsTable>>::empty(),
        (exists|i: int| 0 <= i < merged.len() && (#[trigger] merged[i]).id() == run.id())
            ==> db::survivors(runs.push(run), merged) == db::survivors(runs, merged),
        (forall|i: int| 0 <= i < merged.len() ==> (#[trigger] merged[i]).id() != run.id())
            ==> db::survivors(runs.push(run), merged) == db::survivors(runs, merged).push(run),
{
    assert(runs.push(run).drop_last() =~= runs);
}

/// The filter of a compaction's output is sized for the entries of all the runs it merges, as
/// far as that can be counted.
pub proof fn law_outputs_are_sized_for_all_entries(
    runs: Seq<Arc<SsTable>>,
    run: Arc<SsTable>,
)
    ensures
        compact::capacity_for(seq![]) == 0,
        compact::capacity_for(runs.push(run)) == (if compact::capacity_for(runs)
            + run@.entry_count > usize::MAX {
            usize::MAX as int
        } else {
            compact::capacity_for(runs) + run@.entry_count
        }),
{
    assert(runs.push(run).drop_last() =~= runs);
}

/// Functions that can always be called are enough for opening a store, as long as the numbers
/// of its files can be counted on from, and its log fits the address space.
pub proof fn law_any_store_can_be_opened<F, S, B, R, L, D, G>(
    names: Seq<Seq<char>>,
    found: F,
    sidecar: S,
    shed: B,
    read: R,
    listing: L,
    discard: D,
    log: G,
) where
    F: Fn(u64, String) -> Result<Option<u64>>,
    S: Fn(String) -> Result<Option<Vec<u8>>>,
    B: Fn(String),
    R: Fn(u64, u64, usize) -> std::result::Result<Vec<u8>, std::io::Error>,
    L: FnOnce() -> Result<Vec<String>>,
    D: Fn(String, Verdict) -> Result<()>,
    G: FnOnce() -> Result<Vec<Vec<u8>>>,

    requires
        forall|id: u64, name: String| #[trigger] call_requires(found, (id, name)),
        forall|file: String| #[trigger] call_requires(sidecar, (file,)),
        forall|file: String| #[trigger] call_requires(shed, (file,)),
        call_requires(listing, ()),
        forall|file: String, verdict: Verdict| #[trigger] call_requires(discard, (file, verdict)),
        call_requires(log, ()),
        forall|listed: Vec<String>, i: int|
            #![trigger call_ensures(listing, (), Ok::<Vec<String>, Error>(listed)), listed@[i]]
            call_ensures(listing, (), Ok::<Vec<String>, Error>(listed)) && 0 <= i < listed@.len()
                ==> manifest::seq_in(listed@[i]@) != Some(u64::MAX),
        forall|records: Vec<Vec<u8>>| #[trigger]
            call_ensures(log, (), Ok::<Vec<Vec<u8>>, Error>(records)) ==> durability::log_size(
                recovery::records_of(records@),
            ) <= usize::MAX,
    ensures
        recovery::runs_callable(names, found, sidecar, shed, read),
        recovery::rest_callable(names, found, read, listing, discard, log),
{
    assert forall|listed: Vec<String>| #[trigger]
        call_ensures(listing, (), Ok::<Vec<String>, Error>(listed)) implies {
        &&& recovery::sweep_callable(discard, names, listed@)
        &&& forall|i: int|
            0 <= i < listed@.len() ==> recovery::seq_taken((#[trigger] listed@[i])@) != Some(
                u64::MAX,
            )
    } by {
        assert forall|i: int| 0 <= i < listed@.len() implies recovery::seq_taken(
            (#[trigger] listed@[i])@,
        ) != Some(u64::MAX) by {
            assert(manifest::seq_in(listed@[i]@) != Some(u64::MAX));
        }
    }
}

/// The bytes of a log are those of its records.
pub proof fn law_the_size_of_a_log(records: Seq<Seq<u8>>, record: Seq<u8>)
    ensures
        durability::log_size(seq![]) == 0,
        durability::log_size(records.push(record)) == durability::log_size(records) + record.len(),
{
    assert(records.push(record).drop_last() =~= records);
}

/// Functions that tell what the directory holds are all that the contracts on opening ask for.
pub proof fn law_honest_directories_are_enough<F, S, R>(
    found: F,
    sidecar: S,
    read: R,
    names: Seq<Seq<char>>,
    files: Map<Seq<char>, Seq<u8>>,
) where
    F: Fn(u64, String) -> Result<Option<u64>>,
    S: Fn(String) -> Result<Option<Vec<u8>>>,
    R: Fn(u64, u64, usize) -> std::result::Result<Vec<u8>, std::io::Error>,

    requires
        forall|id: u64, name: String, len: u64| #[trigger]
            call_ensures(found, (id, name), Ok::<Option<u64>, Error>(Some(len)))
                ==> files.contains_key(name@) && files[name@].len() == len,
        forall|id: u64, name: String| #[trigger]
            call_ensures(found, (id, name), Ok::<Option<u64>, Error>(None))
                ==> !files.contains_key(name@),
        forall|name: String, bytes: Vec<u8>| #[trigger]
            call_ensures(sidecar, (name,), Ok::<Option<Vec<u8>>, Error>(Some(bytes)))
                ==> files.contains_key(name@) && files[name@] == bytes@,
        forall|name: String| #[trigger]
            call_ensures(sidecar, (name,), Ok::<Option<Vec<u8>>, Error>(None))
                ==> !files.contains_key(name@),
        forall|i: int, offset: u64, len: usize, bytes: Vec<u8>|
            #![trigger names[i], call_ensures(
                read,
                (i as u64, offset, len),
                Ok::<Vec<u8>, std::io::Error>(bytes),
            )]
            0 <= i < names.len() && call_ensures(
                read,
                (i as u64, offset, len),
                Ok::<Vec<u8>, std::io::Error>(bytes),
            ) ==> offset + len <= files[names[i]].len() && bytes@ == files[names[i]].subrange(
                offset as int,
                offset + len,
            ),
    ensures
        recovery::faithful(found, sidecar, read, names, files),
{
    assert forall|id: u64, name: String, len: Option<u64>|
        id < names.len() && name@ == names[id as int] && #[trigger] call_ensures(
            found,
            (id, name),
            Ok::<Option<u64>, Error>(len),
        ) implies (match len {
        Some(n) => files.contains_key(name@) && files[name@].len() == n,
        None => !files.contains_key(name@),
    }) by {
        match len {
            Some(n) => {
                assert(call_ensures(found, (id, name), Ok::<Option<u64>, Error>(Some(n))));
            },
            None => {
                assert(call_ensures(found, (id, name), Ok::<Option<u64>, Error>(None)));
            },
        }
    }
    assert forall|name: String, bytes: Option<Vec<u8>>| #[trigger]
        call_ensures(
            sidecar,
            (name,),
            Ok::<Option<Vec<u8>>, Error>(bytes),
        ) implies recovery::bytes_of(bytes) == recovery::held(files, name@) by {
        match bytes {
            Some(b) => {
                assert(call_ensures(sidecar, (name,), Ok::<Option<Vec<u8>>, Error>(Some(b))));
            },
            None => {
                assert(call_ensures(sidecar, (name,), Ok::<Option<Vec<u8>>, Error>(None)));
            },
        }
    }
    assert forall|i: int| 0 <= i < names.len() implies sstable::reads_image(
        read,
        i as u64,
        files[#[trigger] names[i]],
    ) by {}
}

/// An opened store has, for every run that its manifest names, the run in the file of that
/// name: a run whose file is missing, or does not hold a run, is an error.
pub proof fn law_opened_runs_are_in_their_files(
    files: Map<Seq<char>, Seq<u8>>,
    name: Seq<char>,
    run: SsTable,
)
    requires
        recovery::run_in(files, name, run),
    ensures
        files.contains_key(name),
        sstable::opened(files[name]) == Ok::<Table, Error>(run@),
        run.filtered() is Some ==> files.contains_key(name + ".bloom"@),
        files.contains_key(name + ".bloom"@) ==> (run.filtered() is None <==> recovery::unusable(
            files[name + ".bloom"@],
        )),
{
}

/// A run whose file is missing is reported as such, if the directory can be read.
pub proof fn law_missing_runs_are_reported<F, S, R>(
    found: F,
    sidecar: S,
    read: R,
    files: Map<Seq<char>, Seq<u8>>,
    name: Seq<char>,
    i: int,
    error: Error,
) where
    F: Fn(u64, String) -> Result<Option<u64>>,
    S: Fn(String) -> Result<Option<Vec<u8>>>,
    R: Fn(u64, u64, usize) -> std::result::Result<Vec<u8>, std::io::Error>,

    requires
        recovery::run_fault(found, sidecar, read, files, name, i, error),
        !files.contains_key(name),
        forall|id: u64, file: String, e: Error|
            !#[trigger] call_ensures(found, (id, file), Err::<Option<u64>, Error>(e)),
    ensures
        error == (Error::Corruption { reason: "manifest references a missing run" }),
{
}

/// A run that opened by what a read function gave had an index that matched the checksum of
/// its footer, and the index of the run is what those bytes say.
pub proof fn law_opened_runs_matched_their_checksum<R>(
    read: R,
    run: u64,
    file_len: u64,
    t: Table,
) -> (seen: (Vec<u8>, Vec<u8>)) where
    R: Fn(u64, u64, usize) -> std::result::Result<Vec<u8>, std::io::Error>,

    requires
        sstable::opens_to(read, run, file_len, Ok(t)),
    ensures
        file_len >= 44,
        seen.0@.len() == 36,
        call_ensures(
            read,
            (run, (file_len - 36) as u64, 36usize),
            Ok::<Vec<u8>, std::io::Error>(seen.0),
        ),
        t.data_end == codec::le8_value(seen.0@.subrange(8, 16)),
        t.data_end + seen.1@.len() + 36 == file_len,
        call_ensures(
            read,
            (run, t.data_end, seen.1@.len() as usize),
            Ok::<Vec<u8>, std::io::Error>(seen.1),
        ),
        checksum::crc32c_of(seen.1@) == codec::le4_value(seen.0@.subrange(24, 28)),
        index::index_of(seen.1@) == Ok::<Seq<index::Handle>, Error>(t.index),
{
    let foot = choose|bytes: Vec<u8>| #[trigger]
        call_ensures(
            read,
            (run, (file_len - 36) as u64, 36usize),
            Ok::<Vec<u8>, std::io::Error>(bytes),
        ) && bytes@.len() == 36 && sstable::indexed_to(
            read,
            run,
            index::footer_of(file_len as int, bytes@),
            Ok(t),
        );
    let f = index::footer_of(file_len as int, foot@)->Ok_0;
    let len = f.index_len as usize;
    let bytes = choose|bytes: Vec<u8>| #[trigger]
        call_ensures(
            read,
            (run, f.index_offset, len),
            Ok::<Vec<u8>, std::io::Error>(bytes),
        ) && bytes@.len() == len && Ok::<Table, Error>(t) == sstable::table_in(f, bytes@);
    (foot, bytes)
}

/// Values are handed in and out as they are: a record is a value or a deletion, a found value
/// is the value, and the items of a list are in their places.
pub proof fn law_values_are_handed_over_as_they_are(
    value: Vec<u8>,
    item: record::Item,
    items: Seq<record::Item>,
    listed: Seq<(Vec<u8>, Vec<u8>)>,
    i: int,
)
    ensures
        db::value_view(Some(value)) == Some(value@),
        db::value_view(None) is None,
        record::Record::Value(value)@ == Some(value@),
        record::Record::Tombstone@ is None,
        sstable::found(None) is None,
        sstable::found(Some(item.1)) == Some(item.1@),
        record::entry(item) == (item.0@, item.1@),
        record::entries(items).len() == items.len(),
        0 <= i < items.len() ==> record::entries(items)[i] == (items[i].0@, items[i].1@),
        crate::scan::pairs(listed).len() == listed.len(),
        0 <= i < listed.len() ==> crate::scan::pairs(listed)[i] == (listed[i].0@, listed[i].1@),
        recovery::bytes_of(Some(value)) == Some(value@),
        recovery::bytes_of(None) is None,
{
}

/// The size that a write takes the buffer to: a new key adds its bytes and those of its
/// value, and a key that is there swaps its value's.
pub proof fn law_the_size_after_a_write(
    was: Seq<Entry>,
    key: Seq<u8>,
    value: Seq<u8>,
    previous: Seq<u8>,
)
    ensures
        model::find(was, key) is None ==> crate::memtable::applied_size(was, key, Some(value))
            == crate::memtable::total_size(was) + key.len() + value.len(),
        model::find(was, key) is None ==> crate::memtable::applied_size(was, key, None)
            == crate::memtable::total_size(was) + key.len(),
        model::find(was, key) == Some(Some(previous)) ==> crate::memtable::applied_size(
            was,
            key,
            Some(value),
        ) == crate::memtable::total_size(was) - previous.len() + value.len(),
        model::find(was, key) == Some(Some(previous)) ==> crate::memtable::applied_size(
            was,
            key,
            None,
        ) == crate::memtable::total_size(was) - previous.len(),
        model::find(was, key) == Some(None::<Seq<u8>>) ==> crate::memtable::applied_size(
            was,
            key,
            Some(value),
        ) == crate::memtable::total_size(was) + value.len(),
{
}

/// An engine that was just opened reads its runs by their places in the manifest, and gives
/// out numbers from there on.
pub proof fn law_opened_runs_are_numbered_in_order<L, D, G>(
    start: Recovery,
    lsm: Lsm,
    listing: L,
    discard: D,
    log: G,
    i: int,
) where
    L: FnOnce() -> Result<Vec<String>>,
    D: Fn(String, Verdict) -> Result<()>,
    G: FnOnce() -> Result<Vec<Vec<u8>>>,

    requires
        recovery::completed(start, lsm, listing, discard, log),
    ensures
        lsm.next_run() == lsm.live().len(),
        0 <= i < lsm.live().len() ==> lsm.live()[i].id() == i && lsm.live()[i].label()
            == start.names()[i],
        lsm.live().len() == start.names().len(),
{
    if 0 <= i < lsm.live().len() {
        assert(db::labels(lsm.live())[i] == start.names()[i]);
    }
    assert(db::labels(lsm.live()).len() == lsm.live().len());
}

/// The block that a lookup needed came from the cache, or was read and handed to it, and is the
/// block of the run.
pub proof fn law_looked_up_blocks_are_cached<C, S>(
    cached: C,
    store: S,
    runs: Seq<Arc<SsTable>>,
    disk: Map<u64, Seq<u8>>,
    key: Seq<u8>,
    i: int,
    c: u32,
) -> (items: Arc<DecodedBlock>) where
    C: Fn(BlockKey) -> Option<Arc<DecodedBlock>>,
    S: Fn(BlockKey, Arc<DecodedBlock>),

    requires
        db::handed_up_to(cached, store, runs, disk, key, runs.len() as int),
        db::asked(runs, disk, key, i),
        sstable::is_candidate(runs[i]@, key, c as int),
        c < runs[i]@.index.len(),
    ensures
        ({
            let block = BlockKey { run_id: runs[i].id(), block_idx: c };
            &&& call_ensures(cached, (block,), Some(items)) || (call_ensures(
                cached,
                (block,),
                None,
            ) && call_ensures(store, (block, items), ()))
            &&& sstable::block_of(runs[i]@, disk[runs[i].id()], c as int) == Ok::<
                Seq<Entry>,
                Error,
            >(record::entries(items@))
        }),
{
    let block = BlockKey { run_id: runs[i].id(), block_idx: c };
    assert(sstable::handed_over(
        cached,
        store,
        runs[i].id(),
        runs[i]@,
        disk[runs[i].id()],
        key,
    ));
    choose|items: Arc<DecodedBlock>| #[trigger]
        sstable::supplied(cached, store, block, items) && sstable::block_of(
            runs[i]@,
            disk[runs[i].id()],
            c as int,
        ) == Ok::<Seq<Entry>, Error>(record::entries(items@))
}

/// A flush that failed although its entries can be written and its run reads back reports what
/// one of the functions failed with.
pub proof fn law_a_failed_flush_reports_what_failed<P, A, R, M, T>(
    was: Lsm,
    now: Lsm,
    dimensions: Option<(u64, u32)>,
    persist: P,
    attach: A,
    read: R,
    store: M,
    rotate: T,
    error: Error,
) where
    P: FnOnce(u64, String, Vec<u8>) -> Result<()>,
    A: FnOnce(String, Vec<u8>) -> Result<()>,
    R: Fn(u64, u64, usize) -> std::result::Result<Vec<u8>, std::io::Error>,
    M: FnOnce(String) -> Result<()>,
    T: FnOnce() -> Result<()>,

    requires
        db::flush_outcome(
            was,
            now,
            dimensions,
            persist,
            attach,
            read,
            store,
            rotate,
            Err::<bool, Error>(error),
        ),
        !crate::flush::build_fault(was.mem(), error),
        !crate::flush::open_fault(read, was.next_run(), error),
        sstable::reads_image(read, was.next_run(), layout::run_bytes(was.mem())),
    ensures
        (exists|file: String, bytes: Vec<u8>| #[trigger]
            call_ensures(persist, (was.next_run(), file, bytes), Err::<(), Error>(error)))
            || (exists|file: String, bytes: Vec<u8>| #[trigger]
            call_ensures(attach, (file, bytes), Err::<(), Error>(error))) || (exists|
            content: String,
        | #[trigger]
            call_ensures(store, (content,), Err::<(), Error>(error))) || call_ensures(
            rotate,
            (),
            Err::<(), Error>(error),
        ),
{
}

/// An opening that fails once the runs are open reports what listing the directory, removing
/// a file or reading the log failed with, or what is wrong with the first damaged record.
pub proof fn law_a_failed_opening_reports_what_failed<L, D, G>(
    names: Seq<Seq<char>>,
    listing: L,
    discard: D,
    log: G,
    error: Error,
) where
    L: FnOnce() -> Result<Vec<String>>,
    D: Fn(String, Verdict) -> Result<()>,
    G: FnOnce() -> Result<Vec<Vec<u8>>>,

    requires
        recovery::rest_refused(names, listing, discard, log, error),
    ensures
        call_ensures(listing, (), Err::<Vec<String>, Error>(error)) || (exists|
            file: String,
            verdict: Verdict,
        | #[trigger]
            call_ensures(discard, (file, verdict), Err::<(), Error>(error))) || call_ensures(
            log,
            (),
            Err::<Vec<Vec<u8>>, Error>(error),
        ) || (exists|records: Vec<Vec<u8>>, i: int|
            #![trigger call_ensures(log, (), Ok::<Vec<Vec<u8>>, Error>(records)), records@[i]]
            call_ensures(log, (), Ok::<Vec<Vec<u8>>, Error>(records)) && 0 <= i < records@.len()
                && durability::decoded_log(records@[i]@) == Err::<Seq<Entry>, Error>(error)
                && forall|k: int|
                0 <= k < i ==> durability::decoded_log((#[trigger] records@[k])@) is Ok),
{
    if exists|listed: Vec<String>, i: int|
        #![trigger call_ensures(listing, (), Ok::<Vec<String>, Error>(listed)), listed@[i]]
        call_ensures(listing, (), Ok::<Vec<String>, Error>(listed)) && 0 <= i < listed@.len()
            && recovery::discarded(discard, names, listed@[i]@, Err(error)) {
        let (listed, i) = choose|listed: Vec<String>, i: int|
            #![trigger call_ensures(listing, (), Ok::<Vec<String>, Error>(listed)), listed@[i]]
            call_ensures(listing, (), Ok::<Vec<String>, Error>(listed)) && 0 <= i < listed@.len()
                && recovery::discarded(discard, names, listed@[i]@, Err(error));
        let file = choose|file: String|
            file@ == listed@[i]@ && #[trigger] call_ensures(
                discard,
                (file, recovery::verdict_of(names, listed@[i]@)),
                Err::<(), Error>(error),
            );
        assert(call_ensures(
            discard,
            (file, recovery::verdict_of(names, listed@[i]@)),
            Err::<(), Error>(error),
        ));
    } else if exists|records: Vec<Vec<u8>>, i: int|
        #![trigger call_ensures(log, (), Ok::<Vec<Vec<u8>>, Error>(records)), records@[i]]
        call_ensures(log, (), Ok::<Vec<Vec<u8>>, Error>(records)) && 0 <= i < records@.len()
            && durability::decoded_log(records@[i]@) == Err::<Seq<Entry>, Error>(error)
            && recovery::all_decode(records@.take(i)) {
        let (records, i) = choose|records: Vec<Vec<u8>>, i: int|
            #![trigger call_ensures(log, (), Ok::<Vec<Vec<u8>>, Error>(records)), records@[i]]
            call_ensures(log, (), Ok::<Vec<Vec<u8>>, Error>(records)) && 0 <= i < records@.len()
                && durability::decoded_log(records@[i]@) == Err::<Seq<Entry>, Error>(error)
                && recovery::all_decode(records@.take(i));
        assert forall|k: int| 0 <= k < i implies durability::decoded_log(
            (#[trigger] records@[k])@,
        ) is Ok by {
            assert(records@.take(i)[k] == records@[k]);
        }
    }
}

/// A write changes nothing of the engine but what is buffered.
pub proof fn law_writes_change_only_the_buffer(now: Lsm, was: Lsm)
    requires
        now.same_but_mem(was),
    ensures
        now.live() == was.live(),
        now.seq() == was.seq(),
        now.next_run() == was.next_run(),
        now.busy() == was.busy(),
        now.settings() == was.settings(),
{
}

/// The run that a flush makes has a filter just where one of the dimensions asked for can be
/// had; the filter has those dimensions, admits every key that was buffered, and has no bit set
/// but those of their probes.
pub proof fn law_flushed_runs_have_their_filter(
    table: SsTable,
    was: Lsm,
    dimensions: Option<(u64, u32)>,
    i: int,
)
    requires
        db::flushed_as(table, was, dimensions),
    ensures
        table.id() == was.next_run(),
        table.label() == manifest::run_name(was.seq()),
        table.filtered() is Some <==> bloom::sizeable(dimensions),
        table.filtered() matches Some(f) ==> dimensions == Some((f.parts().1, f.parts().2)),
        table.filtered() matches Some(f) ==> 0 <= i < was.mem().len() ==> f.admitted().contains(
            was.mem()[i].0,
        ),
        table.filtered() matches Some(f) ==> bloom::marked(
            bloom::clear_words(f.parts().1),
            f.parts().0,
            f.parts().1,
            was.mem().len() * f.parts().2 as nat,
        ),
{
}

/// The sidecar that a flush hands over holds a filter of the dimensions asked for that admits
/// every key of the run.
pub proof fn law_flushed_sidecars_hold_their_filter<A>(
    attach: A,
    name: Seq<char>,
    es: Seq<Entry>,
    dimensions: Option<(u64, u32)>,
    done: Result<()>,
    i: int,
) -> (filter: RunFilter) where A: FnOnce(String, Vec<u8>) -> Result<()>
    requires
        db::attached(attach, name, es, dimensions, done),
    ensures
        dimensions == Some((filter.parts().1, filter.parts().2)),
        0 <= i < es.len() ==> filter.admitted().contains(es[i].0),
        exists|file: String, bytes: Vec<u8>|
            file@ == name + ".bloom"@ && bytes@ == bloom::envelope(
                sidecar::filter_encoding(filter.parts()),
            ) && #[trigger] call_ensures(attach, (file, bytes), done),
{
    let (file, bytes) = choose|file: String, bytes: Vec<u8>|
        file@ == bloom::sidecar_name(name) && db::is_sized_sidecar(bytes@, es, dimensions)
            && #[trigger] call_ensures(attach, (file, bytes), done);
    let filter = choose|filter: RunFilter| #[trigger]
        db::sidecar_bytes(filter, bytes@) && filter.wf() && crate::flush::admits_all(
            Some(filter),
            es,
        ) && crate::flush::sized(Some(filter), dimensions) && crate::flush::marked_by(
            Some(filter),
            es.len(),
        );
    filter
}

/// The next run to open is the one that the manifest names at the place the opening has come
/// to, read under that place.
pub proof fn law_runs_are_opened_in_their_order(recovery: Recovery, table: SsTable)
    ensures
        recovery.next_is(table) ==> recovery.opened().len() < recovery.names().len()
            && table.id() == recovery.opened().len() && table.label()
            == recovery.names()[recovery.opened().len() as int],
{
}

/// A run counts as opened just where its file was found and what was read of it came to a
/// table.
pub proof fn law_runs_count_as_opened_once_they_are<F, R>(
    names: Seq<Seq<char>>,
    found: F,
    read: R,
    i: int,
    name: String,
    len: u64,
    t: Table,
) where
    F: Fn(u64, String) -> Result<Option<u64>>,
    R: Fn(u64, u64, usize) -> std::result::Result<Vec<u8>, std::io::Error>,

    requires
        name@ == names[i],
        call_ensures(found, (i as u64, name), Ok::<Option<u64>, Error>(Some(len))),
        sstable::opens_to(read, i as u64, len, Ok(t)),
    ensures
        sstable::opens(read, i as u64, len),
        recovery::run_opened(names, found, read, i),
{
}

} // verus!
