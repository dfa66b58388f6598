//! What holds of the engine as a whole.
//!
//! Each law relates several operations. It is stated over the same views that the
//! operations' own contracts use.
use std::sync::Arc;
use vstd::prelude::*;
use crate::block;
use crate::bloom;
use crate::bloom::RunFilter;
use crate::cache;
use crate::cache::{BlockCache, BlockKey, DecodedBlock};
use crate::compact;
use crate::config::Settings;
use crate::db;
use crate::db::Lsm;
use crate::durability;
use crate::error::{Error, Result};
use crate::flush;
use crate::layout;
use crate::manifest;
use crate::manifest::RunList;
use crate::memtable;
use crate::merge;
use crate::model;
use crate::model::Pair;
use crate::range::KeyRange;
use crate::record::Entry;
use crate::recovery;
use crate::recovery::{Recovery, Verdict};
use crate::sidecar;
use crate::sstable;
use crate::sstable::{SsTable, Table};
use crate::text;

verus! {

/// A read gives back the last write: once `key` is mapped to `record`, a reader sees the
/// record's value, or nothing if it is a deletion, whatever the runs hold. Every other key
/// is seen as before.
pub proof fn law_read_your_write(
    now: Seq<Entry>,
    was: Seq<Entry>,
    runs: Seq<Arc<SsTable>>,
    disk: Map<u64, Seq<u8>>,
    key: Seq<u8>,
    record: Option<Seq<u8>>,
    other: Seq<u8>,
)
    requires
        memtable::applied(now, was, key, record),
    ensures
        model::visible(db::sources_of(now, runs, disk), key) == record,
        other != key ==> model::visible(db::sources_of(now, runs, disk), other) == model::visible(
            db::sources_of(was, runs, disk),
            other,
        ),
{
    db::lemma_mem_first(now, runs, disk, key);
    db::lemma_mem_first(now, runs, disk, other);
    db::lemma_mem_first(was, runs, disk, other);
    assert(model::find(now, key) == Some(record));
    assert(other != key ==> model::find(now, other) == model::find(was, other));
}

/// A batch is seen as a whole: after it a reader sees, of every key in it, what the last
/// operation on the key left, and every other key as before.
pub proof fn law_read_your_batch(
    now: Seq<Entry>,
    was: Seq<Entry>,
    runs: Seq<Arc<SsTable>>,
    disk: Map<u64, Seq<u8>>,
    ops: Seq<Entry>,
    key: Seq<u8>,
)
    requires
        memtable::applied_all(now, was, ops),
    ensures
        model::visible(db::sources_of(now, runs, disk), key) == (match memtable::last_write(
            ops,
            key,
        ) {
            Some(record) => record,
            None => model::visible(db::sources_of(was, runs, disk), key),
        }),
{
    db::lemma_mem_first(now, runs, disk, key);
    db::lemma_mem_first(was, runs, disk, key);
    assert(model::find(now, key) == (match memtable::last_write(ops, key) {
        Some(record) => Some(record),
        None => model::find(was, key),
    }));
}

/// What two groups of operations leave, one after the other, is what the joined group
/// leaves.
pub proof fn law_groups_compose(
    start: Seq<Entry>,
    middle: Seq<Entry>,
    end: Seq<Entry>,
    first: Seq<Entry>,
    second: Seq<Entry>,
)
    requires
        memtable::applied_all(middle, start, first),
        memtable::applied_all(end, middle, second),
    ensures
        memtable::applied_all(end, start, first + second),
{
    memtable::lemma_groups_compose(start, middle, end, first, second);
}

/// A single write is a group of one.
pub proof fn law_single_is_group(
    now: Seq<Entry>,
    was: Seq<Entry>,
    key: Seq<u8>,
    record: Option<Seq<u8>>,
)
    ensures
        memtable::applied(now, was, key, record) <==> memtable::applied_all(
            now,
            was,
            seq![(key, record)],
        ),
{
    let ops = seq![(key, record)];
    assert forall|k: Seq<u8>| #[trigger] memtable::last_write(ops, k) == (if k == key {
        Some(record)
    } else {
        None
    }) by {
        reveal_with_fuel(memtable::last_write, 2);
        assert(ops.drop_last() =~= seq![]);
        assert(ops.last() == (key, record));
    }
}

/// The same operations on the same buffer leave the same buffer, so replaying the log
/// redoes exactly what was logged.
pub proof fn law_replay_redoes(
    live: Seq<Entry>,
    replayed: Seq<Entry>,
    start: Seq<Entry>,
    ops: Seq<Entry>,
)
    requires
        memtable::applied_all(live, start, ops),
        memtable::applied_all(replayed, start, ops),
    ensures
        replayed == live,
{
    assert forall|k: Seq<u8>| #![trigger model::find(replayed, k)]
        model::find(replayed, k) == model::find(live, k) by {}
    model::lemma_same_contents(replayed, live);
}

/// A flush changes nothing that a reader sees: once it has succeeded, the empty buffer over
/// the new run is seen as the old buffer was, and the filters still admit every key that
/// their runs hold.
pub proof fn law_flush_preserves_view<P, A, R, M, T>(
    was: Lsm,
    now: Lsm,
    dimensions: Option<(u64, u32)>,
    persist: P,
    attach: A,
    read: R,
    store: M,
    rotate: T,
    done: Result<bool>,
    disk: Map<u64, Seq<u8>>,
    key: Seq<u8>,
) where
    P: FnOnce(u64, String, Vec<u8>) -> Result<()>,
    A: FnOnce(String, Vec<u8>) -> Result<()>,
    R: Fn(u64, u64, usize) -> std::result::Result<Vec<u8>, std::io::Error>,
    M: FnOnce(String) -> Result<()>,
    T: FnOnce() -> Result<()>,

    requires
        db::flush_outcome(was, now, dimensions, persist, attach, read, store, rotate, done),
        done is Ok,
        merge::reads_disk(read, disk),
        disk[was.next_run()] == layout::run_bytes(was.mem()),
    ensures
        now.visible(disk, key) == was.visible(disk, key),
        db::all_covered(was.live(), disk) ==> db::all_covered(now.live(), disk),
{
    if was.mem().len() > 0 {
        assert(now.live() != was.live());
        db::lemma_mem_first(now.mem(), now.live(), disk, key);
        model::lemma_find_absent(now.mem(), key);
        assert(now.live()[0].id() == was.next_run());
        assert forall|i: int| 1 <= i < now.live().len() implies now.live()[i] == was.live()[i - 1] by {
            assert(now.live().skip(1)[i - 1] == now.live()[i]);
        }
    }
}

/// A crash after a flush is committed and before the log is emptied loses nothing and
/// brings nothing back: replaying the log over the flushed run is seen as the old buffer
/// was.
pub proof fn law_replay_over_flush(
    mem: Seq<Entry>,
    replayed: Seq<Entry>,
    runs: Seq<Seq<Entry>>,
    ops: Seq<Entry>,
    key: Seq<u8>,
)
    requires
        memtable::applied_all(mem, seq![], ops),
        memtable::applied_all(replayed, seq![], ops),
    ensures
        model::visible(seq![replayed] + (seq![mem] + runs), key) == model::visible(
            seq![mem] + runs,
            key,
        ),
{
    law_replay_redoes(mem, replayed, seq![], ops);
    model::lemma_newest_concat(seq![mem], seq![mem] + runs, key);
    model::lemma_newest_concat(seq![mem], runs, key);
    model::lemma_newest_single(mem, key);
}

/// Compaction changes nothing that a reader sees: with the merged run in place of the runs
/// that it was merged from, behind the runs flushed meanwhile, every key is seen as it was.
/// However many runs were merged, one is left of them.
pub proof fn law_compaction_preserves_view(
    was: Lsm,
    now: Lsm,
    newer: Seq<Arc<SsTable>>,
    inputs: Seq<Arc<SsTable>>,
    pairs: Seq<Pair>,
    disk: Map<u64, Seq<u8>>,
    key: Seq<u8>,
)
    requires
        was.wf(),
        was.live() == newer + inputs,
        now.mem() == was.mem(),
        now.live().len() == db::survivors(was.live(), inputs).len() + 1,
        now.live().drop_last() == db::survivors(was.live(), inputs),
        model::lists(pairs, compact::inputs_of(inputs, disk), compact::every_key()),
        sstable::contents(now.live().last()@, disk[now.live().last().id()]) == model::pair_entries(
            pairs,
        ),
    ensures
        now.visible(disk, key) == was.visible(disk, key),
        now.live().len() == newer.len() + 1,
{
    was.lemma_wf();
    assert(inputs.take(inputs.len() as int) =~= inputs);
    db::lemma_survivors_newer(newer, inputs, inputs.len() as int);
    let output = seq![now.live().last()];
    assert(now.live() =~= newer + output);
    lemma_merged_in_place(was.mem(), newer, inputs, output, pairs, disk, key);
}

/// A merged run is seen as the runs it was merged from, behind whatever is newer.
pub proof fn lemma_merged_in_place(
    mem: Seq<Entry>,
    newer: Seq<Arc<SsTable>>,
    inputs: Seq<Arc<SsTable>>,
    output: Seq<Arc<SsTable>>,
    pairs: Seq<Pair>,
    disk: Map<u64, Seq<u8>>,
    key: Seq<u8>,
)
    requires
        model::lists(pairs, compact::inputs_of(inputs, disk), compact::every_key()),
        output.len() == 1,
        sstable::contents(output[0]@, disk[output[0].id()]) == model::pair_entries(pairs),
    ensures
        model::visible(db::sources_of(mem, newer + output, disk), key) == model::visible(
            db::sources_of(mem, newer + inputs, disk),
            key,
        ),
{
    let merged = model::pair_entries(pairs);
    let a = merge::run_contents(newer, disk);
    let b = merge::run_contents(inputs, disk);
    assert(merge::run_contents(newer + output, disk) =~= a + seq![merged]);
    assert(merge::run_contents(newer + inputs, disk) =~= a + b);
    db::lemma_mem_first(mem, newer + output, disk, key);
    db::lemma_mem_first(mem, newer + inputs, disk, key);
    model::lemma_newest_concat(a, seq![merged], key);
    model::lemma_newest_concat(a, b, key);
    model::lemma_newest_single(merged, key);
    db::lemma_mem_first(seq![], inputs, disk, key);
    model::lemma_find_absent(seq![], key);
    let every = compact::every_key();
    assert(every(key));
    assert(model::live(model::find(merged, key)) == model::visible(
        compact::inputs_of(inputs, disk),
        key,
    ));
}

/// A compacted run holds no deletions.
pub proof fn law_compaction_drops_tombstones(pairs: Seq<Pair>, i: int)
    requires
        0 <= i < pairs.len(),
    ensures
        model::pair_entries(pairs)[i].1 is Some,
{
}

/// The output of a compaction is read back as what was merged: its file opens, and holds
/// the merged pairs.
pub proof fn law_compacted_run_reads_back(pairs: Seq<Pair>)
    requires
        db::pairs_ascending(pairs),
        block::all_fit(model::pair_entries(pairs)),
        layout::run_bytes(model::pair_entries(pairs)).len() <= usize::MAX,
    ensures
        ({
            let es = model::pair_entries(pairs);
            &&& sstable::opened(layout::run_bytes(es)) == Ok::<Table, Error>(layout::table_for(es))
            &&& sstable::contents(layout::table_for(es), layout::run_bytes(es)) == es
        }),
{
    let es = model::pair_entries(pairs);
    layout::lemma_index_within(es);
    layout::lemma_run_roundtrip(es);
}

/// A scan and a lookup agree: a pair is in the scan of a range exactly if its key is in
/// the range and a lookup of the key gives its value.
pub proof fn law_scan_agrees_with_get(
    pairs: Seq<Pair>,
    sources: Seq<Seq<Entry>>,
    range: KeyRange,
    key: Seq<u8>,
    value: Seq<u8>,
)
    requires
        model::lists(pairs, sources, |k: Seq<u8>| range.contains(k)),
    ensures
        pairs.contains((key, value)) <==> range.contains(key) && model::visible(sources, key)
            == Some(value),
{
    let es = model::pair_entries(pairs);
    assert(model::live(model::find(es, key)) == (if range.contains(key) {
        model::visible(sources, key)
    } else {
        None
    }));
    if pairs.contains((key, value)) {
        let i = choose|i: int| 0 <= i < pairs.len() && pairs[i] == (key, value);
        assert(es[i] == (key, Some(value)));
        model::lemma_find_at(es, i);
    }
    if range.contains(key) && model::visible(sources, key) == Some(value) {
        let i = model::lemma_find_witness(es, key);
        assert(pairs[i] == (key, value));
    }
}

/// A scan is determined by what a reader sees: there is only one list of the live pairs of
/// a range.
pub proof fn law_scan_is_unique(
    a: Seq<Pair>,
    b: Seq<Pair>,
    sources: Seq<Seq<Entry>>,
    keep: spec_fn(Seq<u8>) -> bool,
)
    requires
        model::lists(a, sources, keep),
        model::lists(b, sources, keep),
    ensures
        a == b,
{
    let (ea, eb) = (model::pair_entries(a), model::pair_entries(b));
    assert forall|k: Seq<u8>| #![trigger model::find(ea, k)] model::find(ea, k) == model::find(
        eb,
        k,
    ) by {
        assert(model::live(model::find(ea, k)) == model::live(model::find(eb, k)));
        if model::find(ea, k) is Some {
            let i = model::lemma_find_witness(ea, k);
            assert(ea[i].1 is Some);
        }
        if model::find(eb, k) is Some {
            let i = model::lemma_find_witness(eb, k);
            assert(eb[i].1 is Some);
        }
    }
    model::lemma_same_contents(ea, eb);
    assert forall|i: int| 0 <= i < a.len() implies a[i] == b[i] by {
        assert(ea[i] == eb[i]);
    }
    assert(ea.len() == a.len() && eb.len() == b.len());
    assert(a =~= b);
}

/// Opening starts where the last stored manifest stopped: with the same runs in the same
/// order, and the same sequence number.
pub proof fn law_opening_follows_the_manifest(
    content: &str,
    list: RunList,
    settings: Settings,
    recovery: Result<Recovery>,
)
    requires
        content@ == manifest::manifest_text(list),
        forall|i: int| 0 <= i < list.runs.len() ==> manifest::line_safe(#[trigger] list.runs[i]),
        recovery::opening(Some(content), settings, recovery),
    ensures
        recovery matches Ok(r) && r.names() == list.runs && r.seq() == list.next_seq,
{
    manifest::lemma_manifest_roundtrip(list);
}

/// Two lists of runs opened from the same files, in the same order, under whatever
/// identities.
pub open spec fn same_files(
    was: Seq<Arc<SsTable>>,
    old_disk: Map<u64, Seq<u8>>,
    now: Seq<Arc<SsTable>>,
    new_disk: Map<u64, Seq<u8>>,
    files: Seq<Seq<u8>>,
) -> bool {
    &&& was.len() == files.len()
    &&& now.len() == files.len()
    &&& forall|i: int|
        #![trigger files[i]]
        0 <= i < files.len() ==> {
            &&& old_disk[was[i].id()] == files[i]
            &&& new_disk[now[i].id()] == files[i]
            &&& sstable::opened(files[i]) == Ok::<Table, Error>(was[i]@)
            &&& sstable::opened(files[i]) == Ok::<Table, Error>(now[i]@)
        }
}

/// Reopening shows what was there: runs opened again from the same files, in the same
/// order, under whatever identities, are seen as they were.
pub proof fn law_reopen_preserves_view(
    mem: Seq<Entry>,
    was: Seq<Arc<SsTable>>,
    now: Seq<Arc<SsTable>>,
    files: Seq<Seq<u8>>,
    old_disk: Map<u64, Seq<u8>>,
    new_disk: Map<u64, Seq<u8>>,
    key: Seq<u8>,
)
    requires
        same_files(was, old_disk, now, new_disk, files),
    ensures
        model::visible(db::sources_of(mem, now, new_disk), key) == model::visible(
            db::sources_of(mem, was, old_disk),
            key,
        ),
{
    let a = merge::run_contents(was, old_disk);
    let b = merge::run_contents(now, new_disk);
    assert forall|i: int| 0 <= i < a.len() implies a[i] == b[i] by {
        let f = files[i];
    }
    assert(a =~= b);
}

/// After a successful flush everything written before is read back on reopening: an engine
/// opened from the same run files, with nothing to replay, is seen as the engine was before
/// the flush.
pub proof fn law_flushed_data_survives_reopen<P, A, R, M, T>(
    was: Lsm,
    now: Lsm,
    again: Lsm,
    dimensions: Option<(u64, u32)>,
    persist: P,
    attach: A,
    read: R,
    store: M,
    rotate: T,
    done: Result<bool>,
    files: Seq<Seq<u8>>,
    disk: Map<u64, Seq<u8>>,
    new_disk: Map<u64, Seq<u8>>,
    key: Seq<u8>,
) where
    P: FnOnce(u64, String, Vec<u8>) -> Result<()>,
    A: FnOnce(String, Vec<u8>) -> Result<()>,
    R: Fn(u64, u64, usize) -> std::result::Result<Vec<u8>, std::io::Error>,
    M: FnOnce(String) -> Result<()>,
    T: FnOnce() -> Result<()>,

    requires
        db::flush_outcome(was, now, dimensions, persist, attach, read, store, rotate, done),
        done is Ok,
        merge::reads_disk(read, disk),
        disk[was.next_run()] == layout::run_bytes(was.mem()),
        same_files(now.live(), disk, again.live(), new_disk, files),
        again.mem() == Seq::<Entry>::empty(),
    ensures
        again.visible(new_disk, key) == was.visible(disk, key),
{
    law_flush_preserves_view(
        was,
        now,
        dimensions,
        persist,
        attach,
        read,
        store,
        rotate,
        done,
        disk,
        key,
    );
    law_reopen_preserves_view(now.mem(), now.live(), again.live(), files, disk, new_disk, key);
    assert(now.mem() =~= again.mem());
}

/// The states of the buffer from one group of writes to the next.
pub open spec fn history(states: Seq<Seq<Entry>>, groups: Seq<Seq<Entry>>) -> bool {
    &&& states.len() == groups.len() + 1
    &&& forall|i: int|
        0 <= i < groups.len() ==> memtable::applied_all(
            states[i + 1],
            states[i],
            #[trigger] groups[i],
        )
}

/// The states of the buffer from one replayed log record to the next.
pub open spec fn recovered(states: Seq<Seq<Entry>>, records: Seq<Seq<u8>>) -> bool {
    &&& states.len() == records.len() + 1
    &&& forall|i: int|
        0 <= i < records.len() ==> (durability::decoded_log(#[trigger] records[i]) matches Ok(ops)
            && memtable::applied_all(states[i + 1], states[i], ops))
}

/// The record is the log record of the group, within the limits of the log's format.
pub open spec fn logged_as(record: Seq<u8>, group: Seq<Entry>) -> bool {
    &&& record == durability::encode_log(group)
    &&& record.len() <= usize::MAX
    &&& group.len() <= u32::MAX
    &&& block::all_fit(group)
}

/// No acknowledged write is lost: replaying the records of the writes since the last flush
/// takes the buffer through the same states as the writes did.
pub proof fn law_logged_writes_are_recovered(
    live: Seq<Seq<Entry>>,
    replayed: Seq<Seq<Entry>>,
    groups: Seq<Seq<Entry>>,
    records: Seq<Seq<u8>>,
)
    requires
        history(live, groups),
        recovered(replayed, records),
        live[0] == replayed[0],
        records.len() == groups.len(),
        forall|i: int| 0 <= i < groups.len() ==> logged_as(records[i], #[trigger] groups[i]),
    ensures
        replayed == live,
{
    lemma_recovered_up_to(live, replayed, groups, records, groups.len() as int);
    assert(replayed =~= live);
}

/// The states agree up to the first `n` records.
proof fn lemma_recovered_up_to(
    live: Seq<Seq<Entry>>,
    replayed: Seq<Seq<Entry>>,
    groups: Seq<Seq<Entry>>,
    records: Seq<Seq<u8>>,
    n: int,
)
    requires
        history(live, groups),
        recovered(replayed, records),
        live[0] == replayed[0],
        records.len() == groups.len(),
        forall|i: int| 0 <= i < groups.len() ==> logged_as(records[i], #[trigger] groups[i]),
        0 <= n <= groups.len(),
    ensures
        forall|i: int| 0 <= i <= n ==> replayed[i] == #[trigger] live[i],
    decreases n,
{
    if n > 0 {
        lemma_recovered_up_to(live, replayed, groups, records, n - 1);
        let group = groups[n - 1];
        let record = records[n - 1];
        durability::lemma_log_roundtrip(group);
        assert(replayed[n - 1] == live[n - 1]);
        law_replay_redoes(live[n], replayed[n], live[n - 1], group);
    }
}

/// A live run is never swept away, nor is its sidecar.
pub proof fn law_live_files_are_kept(live: Seq<Seq<char>>, seq: u64)
    requires
        live.contains(manifest::run_name(seq)),
    ensures
        recovery::verdict_of(live, manifest::run_name(seq)) == Verdict::Keep,
        recovery::verdict_of(live, bloom::sidecar_name(manifest::run_name(seq))) == Verdict::Keep,
{
    reveal_strlit(".tmp");
    reveal_strlit(".bloom");
    reveal_strlit(".sst");
    let name = manifest::run_name(seq);
    let sidecar = bloom::sidecar_name(name);
    assert(name.last() == ".sst"@[3]);
    lemma_last_differs(name, ".tmp"@);
    lemma_last_differs(name, ".bloom"@);
    assert(sidecar.last() == ".bloom"@[5]);
    lemma_last_differs(sidecar, ".tmp"@);
    assert(sidecar.skip(sidecar.len() - ".bloom"@.len()) =~= ".bloom"@);
    assert(sidecar.take(sidecar.len() - ".bloom"@.len()) =~= name);
}

/// A run that the manifest does not name is swept away, and so is its sidecar, and so is
/// every temporary file.
pub proof fn law_orphans_are_swept(live: Seq<Seq<char>>, seq: u64, name: Seq<char>)
    requires
        !live.contains(manifest::run_name(seq)),
    ensures
        recovery::verdict_of(live, manifest::run_name(seq)) == Verdict::OrphanRun,
        recovery::verdict_of(live, bloom::sidecar_name(manifest::run_name(seq)))
            == Verdict::OrphanSidecar,
        recovery::verdict_of(live, name + ".tmp"@) == Verdict::Temporary,
{
    reveal_strlit(".tmp");
    reveal_strlit(".bloom");
    reveal_strlit(".sst");
    let run = manifest::run_name(seq);
    let sidecar = bloom::sidecar_name(run);
    manifest::lemma_run_name_roundtrip(seq);
    assert(run.last() == ".sst"@[3]);
    lemma_last_differs(run, ".tmp"@);
    lemma_last_differs(run, ".bloom"@);
    assert(sidecar.last() == ".bloom"@[5]);
    lemma_last_differs(sidecar, ".tmp"@);
    assert(sidecar.skip(sidecar.len() - ".bloom"@.len()) =~= ".bloom"@);
    assert(sidecar.take(sidecar.len() - ".bloom"@.len()) =~= run);
    let temp = name + ".tmp"@;
    assert(temp.skip(temp.len() - ".tmp"@.len()) =~= ".tmp"@);
}

/// A text whose last character differs from that of a suffix does not end with it.
proof fn lemma_last_differs(name: Seq<char>, suffix: Seq<char>)
    requires
        name.len() > 0,
        suffix.len() > 0,
        name.last() != suffix.last(),
    ensures
        !text::ends_with(name, suffix),
{
    if text::ends_with(name, suffix) {
        let tail = name.skip(name.len() - suffix.len());
        assert(tail.last() == name.last());
    }
}

/// A filter that was stored in a sidecar is loaded from it again, and admits the same keys.
pub proof fn law_sidecar_keeps_the_filter(stored: RunFilter, loaded: Option<RunFilter>)
    requires
        stored.wf(),
        recovery::filter_of(
            Some(bloom::envelope(sidecar::filter_encoding(stored.parts()))),
            loaded,
        ),
    ensures
        loaded matches Some(f) && f.parts() == stored.parts() && f.admitted() == stored.admitted(),
{
    stored.lemma_sidecar();
    assert(stored.admitted() == (loaded->0).admitted());
}

/// A run that its filter rejects can be skipped: no key in it is missed.
pub proof fn law_filter_skips_safely(run: SsTable, image: Seq<u8>, key: Seq<u8>)
    requires
        run.covered(image),
        !run.admits(key),
    ensures
        model::find(sstable::contents(run@, image), key) is None,
{
    assert(!model::mentions(sstable::contents(run@, image), key));
}

/// A filter that admits every key a run was written with never rejects a key that the run
/// holds.
pub proof fn law_filters_have_no_false_negatives(run: SsTable, image: Seq<u8>, es: Seq<Entry>)
    requires
        sstable::contents(run@, image) == es,
        flush::admits_all(run.filtered(), es),
    ensures
        run.covered(image),
{
    assert forall|key: Seq<u8>| #[trigger]
        model::mentions(sstable::contents(run@, image), key) implies run.admits(key) by {
        let i = model::position(es, key);
        assert(es[i].0 == key);
    }
}

/// A lookup that the cache can serve reads nothing: if the cache has the one block that may
/// hold the key, a lookup can be made whatever the read function can be called on, even if it
/// can be called on nothing. With the cache handed every block that is read, a repeated lookup
/// is served from it.
pub proof fn law_cached_blocks_are_not_read<R, C, S>(
    read: R,
    cached: C,
    store: S,
    run: u64,
    table: Table,
    key: Seq<u8>,
    c: u32,
) where
    R: Fn(u64, u64, usize) -> std::result::Result<Vec<u8>, std::io::Error>,
    C: Fn(BlockKey) -> Option<Arc<DecodedBlock>>,
    S: Fn(BlockKey, Arc<DecodedBlock>),

    requires
        sstable::is_candidate(table, key, c as int),
        call_requires(cached, (BlockKey { run_id: run, block_idx: c },)),
        !call_ensures(
            cached,
            (BlockKey { run_id: run, block_idx: c },),
            None::<Arc<DecodedBlock>>,
        ),
    ensures
        sstable::lookup_callable(read, cached, store, run, table, key),
{
    assert forall|d: int| #[trigger]
        sstable::is_candidate(table, key, d) && d
            < table.index.len() implies sstable::fetch_callable(
        read,
        cached,
        store,
        run,
        table,
        d,
    ) by {
        sstable::lemma_one_candidate(table, key, c as int, d);
    }
}

/// A block that was just stored is found again, unless the cache is disabled, and every
/// other block that is still there is the one that was there before.
pub proof fn law_cache_returns_what_was_stored(
    was: BlockCache,
    now: BlockCache,
    key: BlockKey,
    block: Arc<cache::DecodedBlock>,
    other: BlockKey,
)
    requires
        was.slots() > 0,
        now@ == (match was.evicts(key) {
            Some(k) => was@.remove(k),
            None => was@,
        }).insert(key, block),
    ensures
        now@.contains_key(key),
        now@[key] == block,
        other != key && now@.contains_key(other) ==> was@.contains_key(other) && now@[other]
            == was@[other],
{
}

/// The cache never holds more blocks than it has slots, shard by shard.
pub proof fn law_cache_is_bounded(cache: BlockCache, i: int)
    requires
        cache.wf(),
        0 <= i < cache::SHARDS,
    ensures
        cache.parts()[i]@.dom().finite(),
        cache.parts()[i]@.dom().len() <= cache.slots(),
{
    let shard = cache.parts()[i];
    assert(shard.wf());
    shard.lemma_bounded();
}

} // verus!
