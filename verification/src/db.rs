//! The storage engine's state and the operations on it.
//!
//! [`Lsm`] holds the write buffer and the ordered list of runs. Writes are logged, then
//! buffered; a full buffer is flushed to a new run; runs are compacted into one when they
//! grow too numerous. Reads consult the buffer, then each run, newest first.
//!
//! The engine's files are reached through functions that the caller hands in. What is
//! stated of a read holds for every content of the files that the read function is
//! faithful to.
use std::sync::Arc;
use vstd::prelude::*;
use crate::batch::Batch;
use crate::bloom;
use crate::bloom::RunFilter;
use crate::cache::{BlockKey, DecodedBlock};
use crate::compact;
use crate::compact::CompactionPlan;
use crate::config::{LsmConfig, Settings};
use crate::durability;
use crate::error::{Error, Result};
use crate::flush;
use crate::keys;
use crate::layout;
use crate::manifest;
use crate::manifest::{Manifest, RunList};
use crate::memtable;
use crate::memtable::MemTable;
use crate::merge;
use crate::merge::Merge;
use crate::model;
use crate::range::{KeyRange, Pos};
use crate::record;
use crate::record::{Entry, Item, Record};
use crate::scan;
use crate::scan::Scan;
use crate::sidecar;
use crate::sstable;
use crate::sstable::{SsTable, Table};

verus! {

/// The state of an engine.
#[derive(Debug)]
pub struct Lsm {
    config: LsmConfig,
    memtable: MemTable,
    runs: Vec<Arc<SsTable>>,
    next_seq: u64,
    next_id: u64,
    compacting: bool,
}

/// Every run can be read and probed.
pub open spec fn runs_ok(runs: Seq<Arc<SsTable>>) -> bool {
    forall|i: int| 0 <= i < runs.len() ==> (#[trigger] runs[i]).wf()
}

/// No two runs have the same identity.
pub open spec fn distinct_ids(runs: Seq<Arc<SsTable>>) -> bool {
    forall|i: int, j: int|
        #![trigger runs[i], runs[j]]
        0 <= i < j < runs.len() ==> runs[i].id() != runs[j].id()
}

/// Every run's filter admits every key that the run holds.
pub open spec fn all_covered(runs: Seq<Arc<SsTable>>, disk: Map<u64, Seq<u8>>) -> bool {
    forall|i: int| 0 <= i < runs.len() ==> (#[trigger] runs[i]).covered(disk[runs[i].id()])
}

/// The blocks that `cached` returns are blocks of the runs.
pub open spec fn serves_all<C>(cached: C, runs: Seq<Arc<SsTable>>, disk: Map<u64, Seq<u8>>) -> bool
    where C: Fn(BlockKey) -> Option<Arc<DecodedBlock>>
{
    forall|i: int|
        0 <= i < runs.len() ==> sstable::serves(
            cached,
            (#[trigger] runs[i]).id(),
            runs[i]@,
            disk[runs[i].id()],
        )
}

/// `key` can be looked up in every run whose filter does not reject it.
pub open spec fn callable_for<R, C, S>(
    read: R,
    cached: C,
    store: S,
    runs: Seq<Arc<SsTable>>,
    key: Seq<u8>,
) -> bool where
    R: Fn(u64, u64, usize) -> std::result::Result<Vec<u8>, std::io::Error>,
    C: Fn(BlockKey) -> Option<Arc<DecodedBlock>>,
    S: Fn(BlockKey, Arc<DecodedBlock>),
 {
    forall|i: int|
        0 <= i < runs.len() && (#[trigger] runs[i]).admits(key) ==> sstable::lookup_callable(
            read,
            cached,
            store,
            runs[i].id(),
            runs[i]@,
            key,
        )
}

/// `error` is what reading some block of some run ends in.
pub open spec fn some_fault<R>(
    read: R,
    disk: Map<u64, Seq<u8>>,
    runs: Seq<Arc<SsTable>>,
    error: Error,
) -> bool where R: Fn(u64, u64, usize) -> std::result::Result<Vec<u8>, std::io::Error> {
    exists|i: int|
        0 <= i < runs.len() && merge::run_fault(read, disk, *#[trigger] runs[i], error)
}

/// A search for `key` comes to run `i`: the run's filter does not reject the key, and no
/// newer run mentions it.
pub open spec fn asked(
    runs: Seq<Arc<SsTable>>,
    disk: Map<u64, Seq<u8>>,
    key: Seq<u8>,
    i: int,
) -> bool {
    &&& 0 <= i < runs.len()
    &&& runs[i].admits(key)
    &&& forall|k: int|
        0 <= k < i ==> model::find(
            sstable::contents((#[trigger] runs[k])@, disk[runs[k].id()]),
            key,
        ) is None
}

/// Every run that a search for `key` comes to, up to run `n`, has an undamaged block for it.
pub open spec fn sound_search(
    runs: Seq<Arc<SsTable>>,
    disk: Map<u64, Seq<u8>>,
    key: Seq<u8>,
    n: int,
) -> bool {
    forall|i: int|
        i < n && #[trigger] asked(runs, disk, key, i) ==> sstable::sound_for(
            runs[i]@,
            disk[runs[i].id()],
            key,
        )
}

/// Every block that a search for `key` needed, up to run `n`, came from the cache, or was read
/// and handed to it.
pub open spec fn handed_up_to<C, S>(
    cached: C,
    store: S,
    runs: Seq<Arc<SsTable>>,
    disk: Map<u64, Seq<u8>>,
    key: Seq<u8>,
    n: int,
) -> bool where
    C: Fn(BlockKey) -> Option<Arc<DecodedBlock>>,
    S: Fn(BlockKey, Arc<DecodedBlock>),
 {
    forall|i: int|
        i < n && #[trigger] asked(runs, disk, key, i) ==> sstable::handed_over(
            cached,
            store,
            runs[i].id(),
            runs[i]@,
            disk[runs[i].id()],
            key,
        )
}

/// `error` is what a search for `key` ends in: what fetching the block that may hold the key
/// ends in, in the first run that the search comes to of which it fails.
pub open spec fn search_fault<R, C, S>(
    read: R,
    cached: C,
    store: S,
    disk: Map<u64, Seq<u8>>,
    runs: Seq<Arc<SsTable>>,
    key: Seq<u8>,
    error: Error,
) -> bool where
    R: Fn(u64, u64, usize) -> std::result::Result<Vec<u8>, std::io::Error>,
    C: Fn(BlockKey) -> Option<Arc<DecodedBlock>>,
    S: Fn(BlockKey, Arc<DecodedBlock>),
 {
    exists|i: int| #[trigger]
        asked(runs, disk, key, i) && sound_search(runs, disk, key, i) && handed_up_to(
            cached,
            store,
            runs,
            disk,
            key,
            i,
        ) && exists|c: int|
            sstable::is_candidate(runs[i]@, key, c) && #[trigger] sstable::block_fault(
                read,
                runs[i].id(),
                runs[i]@,
                disk[runs[i].id()],
                c,
                error,
            )
}

/// The view of an optional value.
pub open spec fn value_view(value: Option<Vec<u8>>) -> Option<Seq<u8>> {
    match value {
        Some(v) => Some(v@),
        None => None,
    }
}

/// What the write buffer knows of a key: its value or its deletion, or that the runs have
/// to be searched.
#[derive(Debug)]
pub enum Probe {
    /// The buffer decides: the value, or `None` for a deletion.
    Known(Option<Vec<u8>>),
    /// The buffer does not mention the key; these runs have to be searched, newest first.
    Search(Vec<Arc<SsTable>>),
}

/// Searches runs for `key`, newest first. A run whose filter rejects the key is skipped:
/// neither the read function nor the cache is asked for any of its blocks. A block that is
/// read is handed to the cache. A damaged block is an error: the search does not go on to
/// older runs.
pub fn search<R, C, S>(
    runs: &Vec<Arc<SsTable>>,
    key: &[u8],
    read: &R,
    cached: &C,
    store: &S,
) -> (value: Result<Option<Vec<u8>>>) where
    R: Fn(u64, u64, usize) -> std::result::Result<Vec<u8>, std::io::Error>,
    C: Fn(BlockKey) -> Option<Arc<DecodedBlock>>,
    S: Fn(BlockKey, Arc<DecodedBlock>),

    requires
        runs_ok(runs@),
        callable_for(*read, *cached, *store, runs@, key@),
    ensures
        forall|disk: Map<u64, Seq<u8>>| #[trigger]
            merge::reads_disk(*read, disk) && serves_all(*cached, runs@, disk) && all_covered(
                runs@,
                disk,
            ) ==> match value {
                Ok(v) => {
                    &&& value_view(v) == model::visible(merge::run_contents(runs@, disk), key@)
                    &&& sound_search(runs@, disk, key@, runs@.len() as int)
                    &&& handed_up_to(*cached, *store, runs@, disk, key@, runs@.len() as int)
                },
                Err(e) => search_fault(*read, *cached, *store, disk, runs@, key@, e),
            },
{
    let mut i: usize = 0;
    while i < runs.len()
        invariant
            i <= runs@.len(),
            runs_ok(runs@),
            callable_for(*read, *cached, *store, runs@, key@),
            forall|disk: Map<u64, Seq<u8>>, k: int|
                #![trigger merge::reads_disk(*read, disk), runs@[k]]
                merge::reads_disk(*read, disk) && serves_all(*cached, runs@, disk) && all_covered(
                    runs@,
                    disk,
                ) && 0 <= k < i ==> {
                    &&& model::find(
                        sstable::contents(runs@[k]@, disk[runs@[k].id()]),
                        key@,
                    ) is None
                    &&& runs@[k].admits(key@) ==> sstable::sound_for(
                        runs@[k]@,
                        disk[runs@[k].id()],
                        key@,
                    ) && sstable::handed_over(
                        *cached,
                        *store,
                        runs@[k].id(),
                        runs@[k]@,
                        disk[runs@[k].id()],
                        key@,
                    )
                },
        decreases runs@.len() - i,
    {
        let run: &SsTable = &runs[i];
        assert(*run == *runs@[i as int]);
        assert(runs@[i as int].wf());
        if run.might_contain(key) {
            match run.lookup(key, read, cached, store) {
                Ok(hit) => {
                    proof {
                        assert forall|disk: Map<u64, Seq<u8>>| #[trigger]
                            merge::reads_disk(*read, disk) && serves_all(*cached, runs@, disk)
                                && all_covered(runs@, disk) implies {
                            &&& sstable::found(hit) == model::find(
                                sstable::contents(run@, disk[run.id()]),
                                key@,
                            )
                            &&& sstable::sound_for(run@, disk[run.id()], key@)
                            &&& sstable::handed_over(
                                *cached,
                                *store,
                                run.id(),
                                run@,
                                disk[run.id()],
                                key@,
                            )
                            &&& hit is Some ==> model::newest(
                                merge::run_contents(runs@, disk),
                                key@,
                            ) == sstable::found(hit) && sound_search(
                                runs@,
                                disk,
                                key@,
                                runs@.len() as int,
                            ) && handed_up_to(
                                *cached,
                                *store,
                                runs@,
                                disk,
                                key@,
                                runs@.len() as int,
                            )
                        } by {
                            assert(sstable::reads_image(*read, run.id(), disk[run.id()]));
                            assert(sstable::serves(*cached, run.id(), run@, disk[run.id()]));
                            if hit is Some {
                                lemma_first_hit(runs@, disk, key@, i as int);
                                assert forall|k: int| #[trigger]
                                    asked(runs@, disk, key@, k) implies sstable::sound_for(
                                    runs@[k]@,
                                    disk[runs@[k].id()],
                                    key@,
                                ) && sstable::handed_over(
                                    *cached,
                                    *store,
                                    runs@[k].id(),
                                    runs@[k]@,
                                    disk[runs@[k].id()],
                                    key@,
                                ) by {
                                    if k > i {
                                        assert(runs@[i as int].id() == run.id());
                                    }
                                }
                            }
                        }
                    }
                    match hit {
                        Some(Record::Value(value)) => {
                            return Ok(Some(value));
                        },
                        Some(Record::Tombstone) => {
                            return Ok(None);
                        },
                        None => {},
                    }
                },
                Err(e) => {
                    proof {
                        assert forall|disk: Map<u64, Seq<u8>>| #[trigger]
                            merge::reads_disk(*read, disk) && serves_all(*cached, runs@, disk)
                                && all_covered(runs@, disk) implies search_fault(
                            *read,
                            *cached,
                            *store,
                            disk,
                            runs@,
                            key@,
                            e,
                        ) by {
                            assert(sstable::reads_image(*read, run.id(), disk[run.id()]));
                            assert(sstable::serves(*cached, run.id(), run@, disk[run.id()]));
                            assert(asked(runs@, disk, key@, i as int));
                        }
                    }
                    return Err(e);
                },
            }
        } else {
            proof {
                assert forall|disk: Map<u64, Seq<u8>>| #[trigger]
                    merge::reads_disk(*read, disk) && all_covered(runs@, disk) implies model::find(
                    sstable::contents(run@, disk[run.id()]),
                    key@,
                ) is None by {
                    assert(runs@[i as int].covered(disk[run.id()]));
                }
            }
        }
        i += 1;
    }
    proof {
        assert forall|disk: Map<u64, Seq<u8>>| #[trigger]
            merge::reads_disk(*read, disk) && serves_all(*cached, runs@, disk) && all_covered(
                runs@,
                disk,
            ) implies model::newest(merge::run_contents(runs@, disk), key@) is None by {
            let all = merge::run_contents(runs@, disk);
            assert forall|k: int| 0 <= k < all.len() implies model::find(#[trigger] all[k], key@)
                is None by {
                let run = runs@[k];
            }
            model::lemma_newest_absent(all, key@);
        }
    }
    Ok(None)
}

/// The first run that mentions a key decides it.
proof fn lemma_first_hit(
    runs: Seq<Arc<SsTable>>,
    disk: Map<u64, Seq<u8>>,
    key: Seq<u8>,
    i: int,
)
    requires
        0 <= i < runs.len(),
        forall|k: int|
            #![trigger runs[k]]
            0 <= k < i ==> model::find(sstable::contents(runs[k]@, disk[runs[k].id()]), key) is None,
        model::find(sstable::contents(runs[i]@, disk[runs[i].id()]), key) is Some,
    ensures
        model::newest(merge::run_contents(runs, disk), key) == model::find(
            sstable::contents(runs[i]@, disk[runs[i].id()]),
            key,
        ),
{
    let all = merge::run_contents(runs, disk);
    let (a, b) = (all.take(i), all.skip(i));
    assert(a + b =~= all);
    assert forall|k: int| 0 <= k < a.len() implies model::find(#[trigger] a[k], key) is None by {
        let run = runs[k];
    }
    model::lemma_newest_absent(a, key);
    model::lemma_newest_concat(a, b, key);
    assert(b[0] == all[i]);
}

/// The write buffer and the runs as sources, newest first.
pub open spec fn sources_of(
    mem: Seq<Entry>,
    runs: Seq<Arc<SsTable>>,
    disk: Map<u64, Seq<u8>>,
) -> Seq<Seq<Entry>> {
    seq![mem] + merge::run_contents(runs, disk)
}

/// The sources of an engine are ascending.
pub proof fn lemma_sources_ascending(
    mem: Seq<Entry>,
    runs: Seq<Arc<SsTable>>,
    disk: Map<u64, Seq<u8>>,
)
    requires
        model::ascending(mem),
        runs_ok(runs),
    ensures
        merge::all_ascending(sources_of(mem, runs, disk)),
{
    let all = sources_of(mem, runs, disk);
    assert forall|i: int| 0 <= i < all.len() implies model::ascending(#[trigger] all[i]) by {
        if i > 0 {
            let run = runs[i - 1];
            assert(run.wf());
            sstable::lemma_entries_ascending(run@, disk[run.id()], 0);
            assert(all[i] == sstable::contents(run@, disk[run.id()]));
        }
    }
}

/// The keys of the pairs ascend strictly.
pub open spec fn pairs_ascending(pairs: Seq<model::Pair>) -> bool {
    model::ascending(model::pair_entries(pairs))
}

/// Every block that can hold a key up to the end of the range reads without fault.
pub open spec fn sound_up_to(
    runs: Seq<Arc<SsTable>>,
    disk: Map<u64, Seq<u8>>,
    range: KeyRange,
) -> bool {
    forall|i: int, j: int|
        #![trigger sstable::block_of(runs[i]@, disk[runs[i].id()], j)]
        0 <= i < runs.len() && 0 <= j < runs[i]@.index.len() && (j == 0 || !range.after_end(
            runs[i]@.index[j - 1].last_key,
        )) ==> sstable::block_of(runs[i]@, disk[runs[i].id()], j) is Ok
}

/// A scan of the range stops at `key`: it has a live value, and is past the range's end. Keys
/// before the range's start do not stop a scan.
pub open spec fn stops_at(sources: Seq<Seq<Entry>>, range: KeyRange, key: Seq<u8>) -> bool {
    &&& model::visible(sources, key) is Some
    &&& !range.before_start(key)
    &&& range.after_end(key)
}

/// A scan of the range comes to block `j` of the run before it stops: every entry in the
/// blocks before is below every key that the scan stops at.
pub open spec fn comes_to(
    sources: Seq<Seq<Entry>>,
    range: KeyRange,
    run: Table,
    image: Seq<u8>,
    j: int,
) -> bool {
    forall|key: Seq<u8>, n: int, m: int|
        #![trigger stops_at(sources, range, key), sstable::block_entries(run, image, n)[m]]
        stops_at(sources, range, key) && 0 <= n < j && 0 <= m < sstable::block_entries(
            run,
            image,
            n,
        ).len() ==> keys::key_lt(sstable::block_entries(run, image, n)[m].0, key)
}

/// `error` is what a scan of the range ends in: what reading a block ends in that the scan
/// comes to.
pub open spec fn scan_fault<R>(
    read: R,
    disk: Map<u64, Seq<u8>>,
    sources: Seq<Seq<Entry>>,
    runs: Seq<Arc<SsTable>>,
    range: KeyRange,
    error: Error,
) -> bool where R: Fn(u64, u64, usize) -> std::result::Result<Vec<u8>, std::io::Error> {
    exists|i: int, j: int|
        0 <= i < runs.len() && #[trigger] sstable::block_fault(
            read,
            runs[i].id(),
            runs[i]@,
            disk[runs[i].id()],
            j,
            error,
        ) && comes_to(sources, range, runs[i]@, disk[runs[i].id()], j)
}

/// A block that an unfinished scan stopped at is one that the scan comes to.
proof fn lemma_scan_fault<R>(
    read: R,
    disk: Map<u64, Seq<u8>>,
    mem: Seq<Entry>,
    runs: Seq<Arc<SsTable>>,
    range: KeyRange,
    before: Merge,
    merge: Merge,
    bound: Option<Seq<u8>>,
    error: Error,
) where R: Fn(u64, u64, usize) -> std::result::Result<Vec<u8>, std::io::Error>
    requires
        model::ascending(mem),
        runs_ok(runs),
        merge.tables() == seq![None::<SsTable>] + runs.map_values(|r: Arc<SsTable>| Some(*r)),
        merge::left_above(sources_of(mem, runs, disk), before.rests(disk), bound),
        exists|to: Option<Seq<u8>>| #[trigger]
            merge::progressed(before.rests(disk), merge.rests(disk), to),
        exists|s: int, j: int| #[trigger] merge.stopped_by(read, disk, s, j, error),
        forall|key: Seq<u8>| #[trigger]
            stops_at(sources_of(mem, runs, disk), range, key) && bound is Some ==> keys::key_lt(
                bound->0,
                key,
            ),
    ensures
        scan_fault(read, disk, sources_of(mem, runs, disk), runs, range, error),
{
    let sources = sources_of(mem, runs, disk);
    let (s, j) = choose|s: int, j: int| #[trigger] merge.stopped_by(read, disk, s, j, error);
    merge.lemma_drained_at(disk, s, j);
    let i = s - 1;
    assert(merge.tables()[s] == Some(*runs[i]));
    let run = runs[i]@;
    let image = disk[runs[i].id()];
    assert(runs[i].wf());
    lemma_sources_ascending(mem, runs, disk);
    assert(sources[s] == sstable::contents(run, image));
    assert forall|key: Seq<u8>, n: int, m: int|
        #![trigger stops_at(sources, range, key), sstable::block_entries(run, image, n)[m]]
        stops_at(sources, range, key) && 0 <= n < j && 0 <= m < sstable::block_entries(
            run,
            image,
            n,
        ).len() implies keys::key_lt(sstable::block_entries(run, image, n)[m].0, key) by {
        let gone = sstable::block_entries(run, image, n)[m].0;
        sstable::lemma_read_past(run, image, n, m, j);
        merge::lemma_stopped_below(
            sources,
            before.rests(disk),
            merge.rests(disk),
            bound,
            s,
            gone,
            key,
        );
    }
}

/// Merges a snapshot of the write buffer with runs, newest first, and keeps the live pairs
/// whose key is in the range. Whatever the files hold, the pairs ascend and are in the
/// range. A damaged block up to the end of the range is an error: none is passed over. The
/// merge is not taken past the first live key behind the range.
pub fn scan_sources<R>(
    mem: Vec<Item>,
    runs: &Vec<Arc<SsTable>>,
    range: &KeyRange,
    read: &R,
) -> (found: Result<Scan>) where
    R: Fn(u64, u64, usize) -> std::result::Result<Vec<u8>, std::io::Error>,

    requires
        model::ascending(record::entries(mem@)),
        runs_ok(runs@),
        sstable::total(*read),
    ensures
        found matches Ok(s) ==> pairs_ascending(s@) && forall|i: int|
            0 <= i < s@.len() ==> range.contains((#[trigger] s@[i]).0),
        forall|disk: Map<u64, Seq<u8>>| #[trigger]
            merge::reads_disk(*read, disk) ==> match found {
                Ok(s) => {
                    &&& model::lists(
                        s@,
                        sources_of(record::entries(mem@), runs@, disk),
                        |k: Seq<u8>| range.contains(k),
                    )
                    &&& sound_up_to(runs@, disk, *range)
                },
                Err(e) => scan_fault(
                    *read,
                    disk,
                    sources_of(record::entries(mem@), runs@, disk),
                    runs@,
                    *range,
                    e,
                ),
            },
{
    let ghost start = record::entries(mem@);
    let ghost keep = |k: Seq<u8>| range.contains(k);
    let mut merge = Merge::new(mem, runs);
    let ghost tables = merge.tables();
    let mut out: Vec<(Vec<u8>, Vec<u8>)> = Vec::new();
    let ghost mut bound: Option<Seq<u8>> = None;
    proof {
        assert(scan::pairs(out@) =~= seq![]);
        assert(model::pair_entries(seq![]) =~= seq![]);
        assert forall|disk: Map<u64, Seq<u8>>| #[trigger]
            merge::reads_disk(*read, disk) implies merge::collected(
            sources_of(start, runs@, disk),
            merge.rests(disk),
            bound,
            scan::pairs(out@),
            keep,
        ) by {
            merge::lemma_collect_start(sources_of(start, runs@, disk), keep);
        }
    }
    loop
        invariant_except_break
            merge.wf(),
            forall|e: Error| !#[trigger] merge.stopped(e),
            out@.len() > 0 ==> merge.beyond(out@.last().0@),
            forall|disk: Map<u64, Seq<u8>>| #[trigger]
                merge::reads_disk(*read, disk) ==> merge.clean(disk),
            forall|disk: Map<u64, Seq<u8>>| #[trigger]
                merge::reads_disk(*read, disk) ==> merge::collected(
                    sources_of(start, runs@, disk),
                    merge.rests(disk),
                    bound,
                    scan::pairs(out@),
                    keep,
                ),
            forall|disk: Map<u64, Seq<u8>>, k: Seq<u8>|
                #![trigger merge::reads_disk(*read, disk), stops_at(sources_of(start, runs@, disk), *range, k)]
                merge::reads_disk(*read, disk) && stops_at(
                    sources_of(start, runs@, disk),
                    *range,
                    k,
                ) && bound is Some ==> keys::key_lt(bound->0, k),
        invariant
            start == record::entries(mem@),
            model::ascending(start),
            runs_ok(runs@),
            sstable::total(*read),
            keep == (|k: Seq<u8>| range.contains(k)),
            merge.tables() == tables,
            tables == seq![None::<SsTable>] + runs@.map_values(|r: Arc<SsTable>| Some(*r)),
            pairs_ascending(scan::pairs(out@)),
            forall|i: int| 0 <= i < out@.len() ==> range.contains((#[trigger] out@[i]).0@),
        ensures
            forall|disk: Map<u64, Seq<u8>>| #[trigger]
                merge::reads_disk(*read, disk) ==> sound_up_to(runs@, disk, *range),
            forall|disk: Map<u64, Seq<u8>>| #[trigger]
                merge::reads_disk(*read, disk) ==> model::lists(
                    scan::pairs(out@),
                    sources_of(start, runs@, disk),
                    keep,
                ),
        decreases merge.blocks_left(), merge.items_left(),
    {
        let ghost before = merge;
        match merge.next(read) {
            None => {
                proof {
                    assert forall|disk: Map<u64, Seq<u8>>| #[trigger]
                        merge::reads_disk(*read, disk) implies sound_up_to(
                        runs@,
                        disk,
                        *range,
                    ) by {
                        assert(before.all_intact(disk));
                        assert forall|i: int, j: int|
                            #![trigger sstable::block_of(runs@[i]@, disk[runs@[i].id()], j)]
                            0 <= i < runs@.len() && 0 <= j
                                < runs@[i]@.index.len() implies sstable::block_of(
                            runs@[i]@,
                            disk[runs@[i].id()],
                            j,
                        ) is Ok by {
                            assert(tables[i + 1] == Some(*runs@[i]));
                            assert(before.tables()[i + 1] == tables[i + 1]);
                        }
                    }
                    assert forall|disk: Map<u64, Seq<u8>>| #[trigger]
                        merge::reads_disk(*read, disk) implies model::lists(
                        scan::pairs(out@),
                        sources_of(start, runs@, disk),
                        keep,
                    ) by {
                        lemma_sources_ascending(start, runs@, disk);
                        merge::lemma_collect_end(
                            sources_of(start, runs@, disk),
                            before.rests(disk),
                            merge.rests(disk),
                            bound,
                            scan::pairs(out@),
                            keep,
                        );
                    }
                }
                break;
            },
            Some(Err(e)) => {
                proof {
                    assert forall|disk: Map<u64, Seq<u8>>| #[trigger]
                        merge::reads_disk(*read, disk) implies scan_fault(
                        *read,
                        disk,
                        sources_of(start, runs@, disk),
                        runs@,
                        *range,
                        e,
                    ) by {
                        let sources = sources_of(start, runs@, disk);
                        lemma_sources_ascending(start, runs@, disk);
                        merge::lemma_left_ascending(sources, before.rests(disk), bound, seq![]);
                        lemma_scan_fault(
                            *read,
                            disk,
                            start,
                            runs@,
                            *range,
                            before,
                            merge,
                            bound,
                            e,
                        );
                    }
                }
                return Err(e);
            },
            Some(Ok((key, value))) => {
                let ghost was = scan::pairs(out@);
                proof {
                    assert forall|disk: Map<u64, Seq<u8>>| #[trigger]
                        merge::reads_disk(*read, disk) implies merge::collected(
                        sources_of(start, runs@, disk),
                        merge.rests(disk),
                        Some(key@),
                        if keep(key@) {
                            was.push((key@, value@))
                        } else {
                            was
                        },
                        keep,
                    ) by {
                        lemma_sources_ascending(start, runs@, disk);
                        merge::lemma_collect_step(
                            sources_of(start, runs@, disk),
                            before.rests(disk),
                            merge.rests(disk),
                            bound,
                            was,
                            keep,
                            key@,
                            value@,
                        );
                    }
                    if out@.len() > 0 {
                        assert(keys::key_lt(out@.last().0@, key@));
                        merge.lemma_beyond_lower(key@, out@.last().0@);
                    }
                }
                proof {
                    assert forall|disk: Map<u64, Seq<u8>>, k: Seq<u8>|
                        #![trigger merge::reads_disk(*read, disk), stops_at(sources_of(start, runs@, disk), *range, k)]
                        merge::reads_disk(*read, disk) && stops_at(
                            sources_of(start, runs@, disk),
                            *range,
                            k,
                        ) implies keys::key_le(key@, k) by {
                        let sources = sources_of(start, runs@, disk);
                        keys::lemma_key_order();
                        keys::lemma_key_total(key@, k);
                        lemma_sources_ascending(start, runs@, disk);
                        if keys::key_lt(k, key@) {
                            merge::lemma_nothing_between(
                                sources,
                                before.rests(disk),
                                merge.rests(disk),
                                bound,
                                key@,
                                value@,
                                k,
                            );
                        }
                    }
                }
                match range.position(key.as_slice()) {
                    Pos::Below => {},
                    Pos::In => {
                        proof {
                            lemma_push_ascending(was, (key@, value@));
                        }
                        let ghost kept = out@;
                        out.push((key, value));
                        assert(scan::pairs(out@) =~= was.push((key@, value@)));
                    },
                    Pos::Above => {
                        proof {
                            assert forall|k: Seq<u8>| #![trigger keep(k)]
                                keys::key_le(key@, k) implies !keep(k) by {
                                range.lemma_after_end(key@, k);
                            }
                            assert forall|disk: Map<u64, Seq<u8>>| #[trigger]
                                merge::reads_disk(*read, disk) implies sound_up_to(
                                runs@,
                                disk,
                                *range,
                            ) by {
                                assert forall|i: int, j: int|
                                    #![trigger sstable::block_of(runs@[i]@, disk[runs@[i].id()], j)]
                                    0 <= i < runs@.len() && 0 <= j < runs@[i]@.index.len() && (j
                                        == 0 || !range.after_end(
                                        runs@[i]@.index[j - 1].last_key,
                                    )) implies sstable::block_of(
                                    runs@[i]@,
                                    disk[runs@[i].id()],
                                    j,
                                ) is Ok by {
                                    assert(tables[i + 1] == Some(*runs@[i]));
                                    if j > 0 {
                                        let last = runs@[i]@.index[j - 1].last_key;
                                        if keys::key_le(key@, last) {
                                            range.lemma_after_end(key@, last);
                                        }
                                    }
                                    merge.lemma_beyond_clean(disk, key@, i + 1, j);
                                }
                            }
                            assert forall|disk: Map<u64, Seq<u8>>| #[trigger]
                                merge::reads_disk(*read, disk) implies model::lists(
                                scan::pairs(out@),
                                sources_of(start, runs@, disk),
                                keep,
                            ) by {
                                lemma_sources_ascending(start, runs@, disk);
                                merge::lemma_collect_above(
                                    sources_of(start, runs@, disk),
                                    before.rests(disk),
                                    merge.rests(disk),
                                    bound,
                                    was,
                                    keep,
                                    key@,
                                    value@,
                                );
                            }
                        }
                        break;
                    },
                }
                proof {
                    keys::lemma_key_order();
                    bound = Some(key@);
                }
            },
        }
    }
    let scan = Scan::new(out);
    proof {
        assert forall|i: int| 0 <= i < scan@.len() implies range.contains((#[trigger] scan@[i]).0) by {
            assert(scan@[i].0 == out@[i].0@);
        }
    }
    Ok(scan)
}

/// Pairs stay ascending when a higher key is added at the end.
proof fn lemma_push_ascending(pairs: Seq<model::Pair>, p: model::Pair)
    requires
        pairs_ascending(pairs),
        pairs.len() > 0 ==> keys::key_lt(pairs.last().0, p.0),
    ensures
        pairs_ascending(pairs.push(p)),
{
    keys::lemma_key_order();
    let was = model::pair_entries(pairs);
    let is = model::pair_entries(pairs.push(p));
    assert forall|i: int, j: int| #![trigger is[i], is[j]]
        0 <= i < j < is.len() implies keys::key_lt(is[i].0, is[j].0) by {
        assert(is[i] == was[i]);
        if j < was.len() {
            assert(is[j] == was[j]);
        } else if i < was.len() - 1 {
            assert(keys::key_lt(was[i].0, was[was.len() - 1].0));
        }
    }
}

/// A fault of a merge is a fault of one of its runs.
pub proof fn lemma_merge_fault<R>(
    merge: Merge,
    runs: Seq<Arc<SsTable>>,
    read: R,
    disk: Map<u64, Seq<u8>>,
    error: Error,
) where R: Fn(u64, u64, usize) -> std::result::Result<Vec<u8>, std::io::Error>
    requires
        merge.tables() == seq![None::<SsTable>] + runs.map_values(|r: Arc<SsTable>| Some(*r)),
        merge.faulty(read, disk, error),
    ensures
        some_fault(read, disk, runs, error),
{
    let s = choose|s: int|
        0 <= s < merge.tables().len() && (#[trigger] merge.tables()[s]) is Some
            && merge::run_fault(read, disk, merge.tables()[s]->0, error);
    assert(merge.tables()[s]->0 == *runs[s - 1]);
}

/// `part` is `mem` without the keys outside the range.
pub open spec fn restricted(part: Seq<Entry>, mem: Seq<Entry>, range: KeyRange) -> bool {
    &&& model::ascending(part)
    &&& forall|k: Seq<u8>|
        #![trigger model::find(part, k)]
        model::find(part, k) == (if range.contains(k) {
            model::find(mem, k)
        } else {
            None
        })
}

/// Copies the items whose key is in the range.
fn items_in(items: &Vec<Item>, range: &KeyRange) -> (part: Vec<Item>)
    requires
        model::ascending(record::entries(items@)),
    ensures
        restricted(record::entries(part@), record::entries(items@), *range),
{
    let mut part: Vec<Item> = Vec::new();
    let mut i: usize = 0;
    let ghost all = record::entries(items@);
    proof {
        assert(record::entries(part@) =~= seq![]);
        assert(all.take(0) =~= seq![]);
    }
    while i < items.len()
        invariant
            i <= items@.len(),
            all == record::entries(items@),
            model::ascending(all),
            restricted(record::entries(part@), all.take(i as int), *range),
            forall|k: int|
                0 <= k < part@.len() ==> exists|j: int|
                    0 <= j < i && #[trigger] all[j] == record::entry(#[trigger] part@[k]),
        decreases items@.len() - i,
    {
        let ghost e = all[i as int];
        let ghost before = record::entries(part@);
        let ghost kept = part@;
        proof {
            assert(e == record::entry(items@[i as int]));
            assert(all.take(i + 1) =~= all.take(i as int) + seq![e]);
            lemma_take_ascending(all, i + 1);
        }
        match range.position(items[i].0.as_slice()) {
            Pos::In => {
                let copy = record::clone_item(&items[i]);
                part.push(copy);
                proof {
                    let is = record::entries(part@);
                    assert(is =~= before + seq![e]);
                    keys::lemma_key_order();
                    assert forall|p: int, q: int| #![trigger is[p], is[q]]
                        0 <= p < q < is.len() implies keys::key_lt(is[p].0, is[q].0) by {
                        if q < before.len() {
                            assert(is[p] == before[p] && is[q] == before[q]);
                        } else {
                            assert(is[p] == record::entry(kept[p]));
                            let j = choose|j: int|
                                0 <= j < i && #[trigger] all[j] == record::entry(kept[p]);
                            assert(keys::key_lt(all[j].0, all[i as int].0));
                        }
                    }
                    assert forall|k: Seq<u8>| #![trigger model::find(is, k)]
                        model::find(is, k) == (if range.contains(k) {
                            model::find(all.take(i + 1), k)
                        } else {
                            None
                        }) by {
                        model::lemma_find_concat(before, seq![e], k);
                        model::lemma_find_concat(all.take(i as int), seq![e], k);
                        if k != e.0 {
                            assert(seq![e][0].0 != k);
                            model::lemma_find_absent(seq![e], k);
                        }
                    }
                    assert forall|k: int| 0 <= k < part@.len() implies exists|j: int|
                        0 <= j < i + 1 && #[trigger] all[j] == record::entry(#[trigger] part@[k]) by {
                        if k < kept.len() {
                            assert(part@[k] == kept[k]);
                        } else {
                            assert(all[i as int] == record::entry(part@[k]));
                        }
                    }
                }
            },
            _ => {
                proof {
                    assert forall|k: Seq<u8>| #![trigger model::find(before, k)]
                        model::find(before, k) == (if range.contains(k) {
                            model::find(all.take(i + 1), k)
                        } else {
                            None
                        }) by {
                        model::lemma_find_concat(all.take(i as int), seq![e], k);
                        if k != e.0 {
                            assert(seq![e][0].0 != k);
                            model::lemma_find_absent(seq![e], k);
                        }
                    }
                }
            },
        }
        i += 1;
    }
    assert(all.take(i as int) =~= all);
    part
}

/// The first entries of an ascending source are ascending.
proof fn lemma_take_ascending(source: Seq<Entry>, n: int)
    requires
        model::ascending(source),
        0 <= n <= source.len(),
    ensures
        model::ascending(source.take(n)),
{
    let part = source.take(n);
    assert forall|i: int, j: int| #![trigger part[i], part[j]]
        0 <= i < j < part.len() implies keys::key_lt(part[i].0, part[j].0) by {
        assert(part[i] == source[i] && part[j] == source[j]);
    }
}

/// What a list of the kept keys says does not depend on what the newest source holds for
/// the others.
proof fn lemma_lists_restricted(
    pairs: Seq<model::Pair>,
    part: Seq<Entry>,
    mem: Seq<Entry>,
    runs: Seq<Seq<Entry>>,
    range: KeyRange,
)
    requires
        restricted(part, mem, range),
        model::lists(pairs, seq![part] + runs, |k: Seq<u8>| range.contains(k)),
    ensures
        model::lists(pairs, seq![mem] + runs, |k: Seq<u8>| range.contains(k)),
{
    let keep = |k: Seq<u8>| range.contains(k);
    assert forall|k: Seq<u8>| #![trigger model::find(model::pair_entries(pairs), k)]
        model::live(model::find(model::pair_entries(pairs), k)) == (if keep(k) {
            model::visible(seq![mem] + runs, k)
        } else {
            None
        }) by {
        if keep(k) {
            let (a, b) = (seq![part] + runs, seq![mem] + runs);
            assert(model::find(part, k) == model::find(mem, k));
            assert forall|i: int| 0 <= i < a.len() implies model::find(#[trigger] a[i], k)
                == model::find(b[i], k) by {
                if i > 0 {
                    assert(a[i] == b[i]);
                }
            }
            model::lemma_newest_congruent(a, b, k);
        }
    }
}

/// `log` can be called on the record of `ops`.
pub open spec fn loggable<L>(log: L, ops: Seq<Entry>) -> bool where
    L: FnOnce(Vec<u8>) -> Result<()>,
 {
    forall|bytes: Vec<u8>|
        bytes@ == durability::encode_log(ops) ==> #[trigger] call_requires(log, (bytes,))
}

/// What the log said of a record: the record's bytes are those of `ops`, and `done` is a
/// result of logging them.
pub open spec fn logged<L>(log: L, ops: Seq<Entry>, done: Result<()>) -> bool where
    L: FnOnce(Vec<u8>) -> Result<()>,
 {
    exists|bytes: Vec<u8>|
        bytes@ == durability::encode_log(ops) && #[trigger] call_ensures(log, (bytes,), done)
}

impl Lsm {
    /// The buffered entries.
    pub closed spec fn mem(&self) -> Seq<Entry> {
        self.memtable@
    }

    /// The live runs, newest first.
    pub closed spec fn live(&self) -> Seq<Arc<SsTable>> {
        self.runs@
    }

    /// The sequence number of the next run.
    pub closed spec fn seq(&self) -> u64 {
        self.next_seq
    }

    /// The identity of the next run.
    pub closed spec fn next_run(&self) -> u64 {
        self.next_id
    }

    /// Whether a compaction is under way.
    pub closed spec fn busy(&self) -> bool {
        self.compacting
    }

    /// The engine's settings.
    pub closed spec fn settings(&self) -> Settings {
        self.config@
    }

    /// The buffer is well-formed, the runs can be read, and no two of them, nor the next
    /// one, have the same identity.
    pub closed spec fn wf(&self) -> bool {
        &&& self.memtable.wf()
        &&& runs_ok(self.runs@)
        &&& distinct_ids(self.runs@)
        &&& forall|i: int| 0 <= i < self.runs@.len() ==> (#[trigger] self.runs@[i]).id() < self.next_id
    }

    /// What the parts of a well-formed engine are.
    pub proof fn lemma_wf(&self)
        requires
            self.wf(),
        ensures
            model::ascending(self.mem()),
            memtable::total_size(self.mem()) <= usize::MAX,
            runs_ok(self.live()),
            distinct_ids(self.live()),
            forall|i: int|
                0 <= i < self.live().len() ==> (#[trigger] self.live()[i]).id() < self.next_run(),
    {
        self.memtable.lemma_wf();
    }

    /// The buffer and the runs as sources, newest first.
    pub open spec fn sources(&self, disk: Map<u64, Seq<u8>>) -> Seq<Seq<Entry>> {
        sources_of(self.mem(), self.live(), disk)
    }

    /// The value a reader sees under `key` when the run files are as `disk` has them.
    pub open spec fn visible(&self, disk: Map<u64, Seq<u8>>, key: Seq<u8>) -> Option<Seq<u8>> {
        model::visible(self.sources(disk), key)
    }

    /// Everything but the buffer is as it was.
    pub open spec fn same_but_mem(&self, other: Lsm) -> bool {
        &&& self.live() == other.live()
        &&& self.seq() == other.seq()
        &&& self.next_run() == other.next_run()
        &&& self.busy() == other.busy()
        &&& self.settings() == other.settings()
    }

    /// Logs a write, then buffers it. If the log refuses it nothing changes.
    fn apply_logged<L>(&mut self, key: &[u8], record: Record, log: L) -> (done: Result<()>) where
        L: FnOnce(Vec<u8>) -> Result<()>,

        requires
            old(self).wf(),
            memtable::applied_size(old(self).mem(), key@, record@) <= usize::MAX,
            loggable(log, seq![(key@, record@)]),
        ensures
            final(self).wf(),
            final(self).same_but_mem(*old(self)),
            logged(log, seq![(key@, record@)], done),
            match done {
                Ok(_) => memtable::applied(final(self).mem(), old(self).mem(), key@, record@)
                    && memtable::total_size(final(self).mem()) == memtable::applied_size(
                    old(self).mem(),
                    key@,
                    record@,
                ),
                Err(_) => final(self).mem() == old(self).mem(),
            },
    {
        let bytes = durability::encode_one(key, &record);
        match log(bytes) {
            Ok(done) => {
                assert(call_ensures(log, (bytes,), Ok::<(), Error>(done)));
                self.memtable.apply(vstd::slice::slice_to_vec(key), record);
                Ok(())
            },
            Err(e) => {
                assert(call_ensures(log, (bytes,), Err::<(), Error>(e)));
                Err(e)
            },
        }
    }

    /// Sets `key` to `value`, overwriting any previous value.
    pub fn put<L>(&mut self, key: &[u8], value: &[u8], log: L) -> (done: Result<()>) where
        L: FnOnce(Vec<u8>) -> Result<()>,

        requires
            old(self).wf(),
            memtable::applied_size(old(self).mem(), key@, Some(value@)) <= usize::MAX,
            loggable(log, seq![(key@, Some(value@))]),
        ensures
            final(self).wf(),
            final(self).same_but_mem(*old(self)),
            logged(log, seq![(key@, Some(value@))], done),
            match done {
                Ok(_) => memtable::applied(final(self).mem(), old(self).mem(), key@, Some(value@)),
                Err(_) => final(self).mem() == old(self).mem(),
            },
    {
        self.apply_logged(key, Record::Value(vstd::slice::slice_to_vec(value)), log)
    }

    /// Deletes `key`. Deleting a key that is not present is not an error.
    pub fn delete<L>(&mut self, key: &[u8], log: L) -> (done: Result<()>) where
        L: FnOnce(Vec<u8>) -> Result<()>,

        requires
            old(self).wf(),
            memtable::applied_size(old(self).mem(), key@, None) <= usize::MAX,
            loggable(log, seq![(key@, None)]),
        ensures
            final(self).wf(),
            final(self).same_but_mem(*old(self)),
            logged(log, seq![(key@, None)], done),
            match done {
                Ok(_) => memtable::applied(final(self).mem(), old(self).mem(), key@, None),
                Err(_) => final(self).mem() == old(self).mem(),
            },
    {
        self.apply_logged(key, Record::Tombstone, log)
    }

    /// Applies a batch as one group: it is logged as one record, and then buffered in
    /// order. If the log refuses it nothing changes.
    pub fn write<L>(&mut self, batch: Batch, log: L) -> (done: Result<()>) where
        L: FnOnce(Vec<u8>) -> Result<()>,

        requires
            old(self).wf(),
            memtable::total_size(old(self).mem()) + memtable::total_size(batch@) <= usize::MAX,
            loggable(log, batch@),
        ensures
            final(self).wf(),
            final(self).same_but_mem(*old(self)),
            logged(log, batch@, done),
            match done {
                Ok(_) => memtable::applied_all(final(self).mem(), old(self).mem(), batch@),
                Err(_) => final(self).mem() == old(self).mem(),
            },
    {
        let ops = batch.into_items();
        let bytes = durability::encode(&ops);
        match log(bytes) {
            Ok(done) => {
                assert(call_ensures(log, (bytes,), Ok::<(), Error>(done)));
                self.memtable.apply_all(ops);
                Ok(())
            },
            Err(e) => {
                assert(call_ensures(log, (bytes,), Err::<(), Error>(e)));
                Err(e)
            },
        }
    }

    /// What the buffer knows of `key`.
    pub fn probe(&self, key: &[u8]) -> (probe: Probe)
        requires
            self.wf(),
        ensures
            match probe {
                Probe::Known(value) => model::find(self.mem(), key@) == Some(value_view(value)),
                Probe::Search(runs) => model::find(self.mem(), key@) is None && runs@
                    == self.live(),
            },
    {
        match self.memtable.get(key) {
            Some(Record::Value(value)) => Probe::Known(
                Some(vstd::slice::slice_to_vec(value.as_slice())),
            ),
            Some(Record::Tombstone) => Probe::Known(None),
            None => Probe::Search(clone_runs(&self.runs)),
        }
    }

    /// Looks up `key`: its value, or `None` if it is absent or deleted. A key that is
    /// buffered is answered without reading, and a run whose filter rejects the key is not
    /// read.
    pub fn get<R, C, S>(&self, key: &[u8], read: &R, cached: &C, store: &S) -> (value: Result<
        Option<Vec<u8>>,
    >) where
        R: Fn(u64, u64, usize) -> std::result::Result<Vec<u8>, std::io::Error>,
        C: Fn(BlockKey) -> Option<Arc<DecodedBlock>>,
        S: Fn(BlockKey, Arc<DecodedBlock>),

        requires
            self.wf(),
            model::find(self.mem(), key@) is None ==> callable_for(
                *read,
                *cached,
                *store,
                self.live(),
                key@,
            ),
        ensures
            model::find(self.mem(), key@) matches Some(record) ==> value matches Ok(v)
                && value_view(v) == record,
            forall|disk: Map<u64, Seq<u8>>| #[trigger]
                merge::reads_disk(*read, disk) && serves_all(*cached, self.live(), disk)
                    && all_covered(self.live(), disk) ==> match value {
                    Ok(v) => {
                        &&& value_view(v) == self.visible(disk, key@)
                        &&& model::find(self.mem(), key@) is None ==> sound_search(
                            self.live(),
                            disk,
                            key@,
                            self.live().len() as int,
                        ) && handed_up_to(
                            *cached,
                            *store,
                            self.live(),
                            disk,
                            key@,
                            self.live().len() as int,
                        )
                    },
                    Err(e) => search_fault(*read, *cached, *store, disk, self.live(), key@, e),
                },
    {
        proof {
            assert forall|disk: Map<u64, Seq<u8>>| #[trigger]
                merge::reads_disk(*read, disk) implies self.visible(disk, key@) == (
            match model::find(self.mem(), key@) {
                Some(record) => record,
                None => model::visible(merge::run_contents(self.live(), disk), key@),
            }) by {
                lemma_mem_first(self.mem(), self.live(), disk, key@);
            }
        }
        match self.probe(key) {
            Probe::Known(value) => Ok(value),
            Probe::Search(runs) => {
                proof {
                    self.lemma_wf();
                }
                search(&runs, key, read, cached, store)
            },
        }
    }

    /// What a scan of the range needs: the buffered items in it, and the runs.
    pub fn snapshot(&self, range: &KeyRange) -> (parts: (Vec<Item>, Vec<Arc<SsTable>>))
        requires
            self.wf(),
        ensures
            restricted(record::entries(parts.0@), self.mem(), *range),
            parts.1@ == self.live(),
    {
        proof {
            self.lemma_wf();
        }
        (items_in(self.memtable.iter(), range), clone_runs(&self.runs))
    }

    /// The live pairs whose key is in the range, in ascending key order. Nothing is read past
    /// the first key behind the range that the runs hold a value for.
    pub fn scan<R>(&self, range: &KeyRange, read: &R) -> (found: Result<Scan>) where
        R: Fn(u64, u64, usize) -> std::result::Result<Vec<u8>, std::io::Error>,

        requires
            self.wf(),
            sstable::total(*read),
        ensures
            found matches Ok(s) ==> pairs_ascending(s@) && forall|i: int|
                0 <= i < s@.len() ==> range.contains((#[trigger] s@[i]).0),
            forall|disk: Map<u64, Seq<u8>>| #[trigger]
                merge::reads_disk(*read, disk) ==> match found {
                    Ok(s) => {
                        &&& model::lists(s@, self.sources(disk), |k: Seq<u8>| range.contains(k))
                        &&& sound_up_to(self.live(), disk, *range)
                    },
                    Err(e) => scan_fault(
                        *read,
                        disk,
                        merge::run_contents(self.live(), disk),
                        self.live(),
                        *range,
                        e,
                    ),
                },
    {
        let (mem, runs) = self.snapshot(range);
        proof {
            self.lemma_wf();
        }
        let ghost part = record::entries(mem@);
        let found = scan_sources(mem, &runs, range, read);
        proof {
            if found is Ok {
                assert forall|disk: Map<u64, Seq<u8>>| #[trigger]
                    merge::reads_disk(*read, disk) implies model::lists(
                    found->Ok_0@,
                    self.sources(disk),
                    |k: Seq<u8>| range.contains(k),
                ) by {
                    lemma_lists_restricted(
                        found->Ok_0@,
                        part,
                        self.mem(),
                        merge::run_contents(self.live(), disk),
                        *range,
                    );
                }
            } else {
                assert forall|disk: Map<u64, Seq<u8>>| #[trigger]
                    merge::reads_disk(*read, disk) implies scan_fault(
                    *read,
                    disk,
                    merge::run_contents(self.live(), disk),
                    self.live(),
                    *range,
                    found->Err_0,
                ) by {
                    assert forall|k: Seq<u8>| #[trigger]
                        stops_at(merge::run_contents(self.live(), disk), *range, k) implies
                        stops_at(sources_of(part, self.live(), disk), *range, k) by {
                        lemma_mem_first(part, self.live(), disk, k);
                        assert(model::find(part, k) is None);
                    }
                }
            }
        }
        found
    }

    /// The buffer is not empty and has reached its capacity.
    pub open spec fn full(&self) -> bool {
        self.mem().len() > 0 && memtable::total_size(self.mem())
            >= self.settings().memtable_capacity
    }

    /// Whether the buffer has reached its capacity and is to be flushed.
    pub fn should_flush(&self) -> (full: bool)
        requires
            self.wf(),
        ensures
            full == self.full(),
            full == (self.mem().len() > 0 && memtable::total_size(self.mem())
                >= self.settings().memtable_capacity),
    {
        !self.memtable.is_empty() && self.memtable.approx_size()
            >= self.config.memtable_capacity_bytes()
    }

    /// The key and value bytes buffered.
    pub fn buffered_bytes(&self) -> (size: usize)
        requires
            self.wf(),
        ensures
            size == memtable::total_size(self.mem()),
    {
        self.memtable.approx_size()
    }

    /// The number of keys buffered.
    pub fn buffered_keys(&self) -> (n: usize)
        ensures
            n == self.mem().len(),
    {
        self.memtable.len()
    }

    /// Whether another run can be given an identity.
    pub fn has_run_ids(&self) -> (yes: bool)
        ensures
            yes == (self.next_run() < u64::MAX),
    {
        self.next_id < u64::MAX
    }

    /// The number of live runs.
    pub fn run_count(&self) -> (n: usize)
        ensures
            n == self.live().len(),
    {
        self.runs.len()
    }
}

/// Shares the runs of a list.
pub fn clone_runs(runs: &Vec<Arc<SsTable>>) -> (copy: Vec<Arc<SsTable>>)
    ensures
        copy@ == runs@,
{
    let mut copy: Vec<Arc<SsTable>> = Vec::new();
    let mut i: usize = 0;
    while i < runs.len()
        invariant
            i <= runs@.len(),
            copy@ == runs@.take(i as int),
        decreases runs@.len() - i,
    {
        copy.push(Arc::clone(&runs[i]));
        i += 1;
        assert(copy@ =~= runs@.take(i as int));
    }
    assert(runs@.take(i as int) =~= runs@);
    copy
}

/// The buffer decides a key that it mentions, else the runs do.
pub proof fn lemma_mem_first(
    mem: Seq<Entry>,
    runs: Seq<Arc<SsTable>>,
    disk: Map<u64, Seq<u8>>,
    key: Seq<u8>,
)
    ensures
        model::newest(sources_of(mem, runs, disk), key) == (match model::find(mem, key) {
            Some(record) => Some(record),
            None => model::newest(merge::run_contents(runs, disk), key),
        }),
        model::visible(sources_of(mem, runs, disk), key) == (match model::find(mem, key) {
            Some(record) => record,
            None => model::visible(merge::run_contents(runs, disk), key),
        }),
{
    let all = merge::run_contents(runs, disk);
    model::lemma_newest_concat(seq![mem], all, key);
    model::lemma_newest_single(mem, key);
}

/// The names of some runs.
pub open spec fn labels(runs: Seq<Arc<SsTable>>) -> Seq<Seq<char>> {
    runs.map_values(|r: Arc<SsTable>| r.label())
}

/// The names of some runs.
fn names_of(runs: &Vec<Arc<SsTable>>) -> (names: Vec<String>)
    ensures
        manifest::names(names@) == labels(runs@),
{
    let mut names: Vec<String> = Vec::new();
    let mut i: usize = 0;
    assert(manifest::names(names@) =~= labels(runs@).take(0));
    while i < runs.len()
        invariant
            i <= runs@.len(),
            manifest::names(names@) == labels(runs@).take(i as int),
        decreases runs@.len() - i,
    {
        let ghost before = names@;
        names.push(runs[i].file_name());
        proof {
            let all = labels(runs@);
            assert(manifest::names(names@) =~= manifest::names(before).push(all[i as int]));
            assert(all.take(i + 1) =~= all.take(i as int).push(all[i as int]));
        }
        i += 1;
    }
    assert(labels(runs@).take(i as int) =~= labels(runs@));
    names
}

/// The list of runs with a new one in front.
pub open spec fn fronted(table: SsTable, runs: Seq<Arc<SsTable>>, now: Seq<Arc<SsTable>>) -> bool {
    &&& now.len() == runs.len() + 1
    &&& *now[0] == table
    &&& now.skip(1) == runs
}

/// The functions through which a flush reaches the files can be called just as a flush of
/// `was` has to call them: `persist` on the run's file, `attach` on its sidecar once the run
/// is written, `store` on the manifest that lists the new run first once both are and the
/// run was opened again, and `rotate` once that manifest is stored. If the buffer is empty
/// there is nothing to call.
pub open spec fn flush_callable<P, A, R, M, T>(
    was: Lsm,
    dimensions: Option<(u64, u32)>,
    persist: P,
    attach: A,
    read: R,
    store: M,
    rotate: T,
) -> bool where
    P: FnOnce(u64, String, Vec<u8>) -> Result<()>,
    A: FnOnce(String, Vec<u8>) -> Result<()>,
    R: Fn(u64, u64, usize) -> std::result::Result<Vec<u8>, std::io::Error>,
    M: FnOnce(String) -> Result<()>,
    T: FnOnce() -> Result<()>,
 {
    was.mem().len() > 0 ==> {
        let id = was.next_run();
        let name = manifest::run_name(was.seq());
        let es = was.mem();
        let next_seq = was.seq().wrapping_add(1);
        let runs = seq![name] + labels(was.live());
        &&& forall|file: String, bytes: Vec<u8>|
            file@ == name && bytes@ == layout::run_bytes(es) ==> #[trigger] call_requires(
                persist,
                (id, file, bytes),
            )
        &&& forall|file: String, bytes: Vec<u8>|
            file@ == bloom::sidecar_name(name) && is_sized_sidecar(bytes@, es, dimensions)
                && persisted(
                persist,
                id,
                name,
                es,
                Ok(()),
            ) ==> #[trigger] call_requires(attach, (file, bytes))
        &&& forall|content: String|
            content@ == manifest::manifest_text(RunList { next_seq, runs }) && persisted(
                persist,
                id,
                name,
                es,
                Ok(()),
            ) && (bloom::sizeable(dimensions) ==> attached(
                attach,
                name,
                es,
                dimensions,
                Ok(()),
            )) && sstable::opens(read, id, layout::run_bytes(es).len() as u64)
                ==> #[trigger] call_requires(store, (content,))
        &&& stored_list(store, next_seq, runs, Ok(())) ==> call_requires(rotate, ())
    }
}

/// The bytes are a sidecar's, with a filter in it that admits the keys of `es`.
pub open spec fn is_sidecar_of(bytes: Seq<u8>, es: Seq<Entry>) -> bool {
    exists|filter: RunFilter| #[trigger]
        sidecar_bytes(filter, bytes) && filter.wf() && flush::admits_all(Some(filter), es)
}

/// The bytes are a sidecar's, with a filter of these dimensions in it that admits the keys of
/// `es` and has no bit set but those of their probes.
pub open spec fn is_sized_sidecar(
    bytes: Seq<u8>,
    es: Seq<Entry>,
    dimensions: Option<(u64, u32)>,
) -> bool {
    exists|filter: RunFilter| #[trigger]
        sidecar_bytes(filter, bytes) && filter.wf() && flush::admits_all(Some(filter), es)
            && flush::sized(Some(filter), dimensions) && flush::marked_by(Some(filter), es.len())
}

/// `done` is a result of writing the run of `es` as file `name`.
pub open spec fn persisted<P>(
    persist: P,
    id: u64,
    name: Seq<char>,
    es: Seq<Entry>,
    done: Result<()>,
) -> bool where P: FnOnce(u64, String, Vec<u8>) -> Result<()> {
    exists|file: String, bytes: Vec<u8>|
        file@ == name && bytes@ == layout::run_bytes(es) && #[trigger] call_ensures(
            persist,
            (id, file, bytes),
            done,
        )
}

/// `done` is a result of writing the sidecar of run `name`, with a filter of these dimensions
/// in it that admits the keys of `es`.
pub open spec fn attached<A>(
    attach: A,
    name: Seq<char>,
    es: Seq<Entry>,
    dimensions: Option<(u64, u32)>,
    done: Result<()>,
) -> bool where A: FnOnce(String, Vec<u8>) -> Result<()> {
    exists|file: String, bytes: Vec<u8>|
        file@ == bloom::sidecar_name(name) && is_sized_sidecar(bytes@, es, dimensions)
            && #[trigger] call_ensures(attach, (file, bytes), done)
}

/// The bytes are those of the filter's sidecar.
pub open spec fn sidecar_bytes(filter: RunFilter, bytes: Seq<u8>) -> bool {
    bytes == bloom::envelope(sidecar::filter_encoding(filter.parts()))
}

/// `done` is a result of replacing the manifest by one with this content.
pub open spec fn stored_list<M>(
    store: M,
    next_seq: u64,
    runs: Seq<Seq<char>>,
    done: Result<()>,
) -> bool where M: FnOnce(String) -> Result<()> {
    exists|content: String|
        content@ == manifest::manifest_text(RunList { next_seq, runs }) && #[trigger] call_ensures(
            store,
            (content,),
            done,
        )
}

/// A flush that ended in `error` before the new run was installed: the run could not be
/// built; or the run could not be written; or, once it was, its sidecar could not be; or, once
/// both were, the run could not be opened; or, once it was, the manifest could not be
/// replaced.
pub open spec fn flush_refused<P, A, R, M>(
    was: Lsm,
    dimensions: Option<(u64, u32)>,
    persist: P,
    attach: A,
    read: R,
    store: M,
    error: Error,
) -> bool where
    P: FnOnce(u64, String, Vec<u8>) -> Result<()>,
    A: FnOnce(String, Vec<u8>) -> Result<()>,
    R: Fn(u64, u64, usize) -> std::result::Result<Vec<u8>, std::io::Error>,
    M: FnOnce(String) -> Result<()>,
 {
    let id = was.next_run();
    let name = manifest::run_name(was.seq());
    let es = was.mem();
    let len = layout::run_bytes(es).len() as u64;
    let written = persisted(persist, id, name, es, Ok(()));
    let filtered = bloom::sizeable(dimensions) ==> attached(attach, name, es, dimensions, Ok(()));
    ||| flush::build_fault(es, error)
    ||| persisted(persist, id, name, es, Err(error))
    ||| written && bloom::sizeable(dimensions) && attached(
        attach,
        name,
        es,
        dimensions,
        Err(error),
    )
    ||| written && filtered && sstable::opens_to(read, id, len, Err(error)) && (
    sstable::reads_image(read, id, layout::run_bytes(es)) ==> flush::open_fault(read, id, error))
    ||| written && filtered && sstable::opens(read, id, len) && stored_list(
        store,
        was.seq().wrapping_add(1),
        seq![name] + labels(was.live()),
        Err(error),
    )
}

/// The run is the one that a flush of `was` makes: it has its identity and its name, and its
/// filter, if one of these dimensions can be had, which admits every key that was buffered
/// and has no bit set but those of their probes.
pub open spec fn flushed_as(table: SsTable, was: Lsm, dimensions: Option<(u64, u32)>) -> bool {
    &&& table.wf()
    &&& table.id() == was.next_run()
    &&& table.label() == manifest::run_name(was.seq())
    &&& table.filtered() is Some <==> bloom::sizeable(dimensions)
    &&& flush::sized(table.filtered(), dimensions)
    &&& flush::admits_all(table.filtered(), was.mem())
    &&& flush::marked_by(table.filtered(), was.mem().len())
}

/// What a flush does to the engine, and what it returns. An empty buffer is left alone.
/// Otherwise the buffer is emptied, its entries become the newest run unless something
/// failed before the run was installed, and the result says whether a compaction is due.
pub open spec fn flush_outcome<P, A, R, M, T>(
    was: Lsm,
    now: Lsm,
    dimensions: Option<(u64, u32)>,
    persist: P,
    attach: A,
    read: R,
    store: M,
    rotate: T,
    done: Result<bool>,
) -> bool where
    P: FnOnce(u64, String, Vec<u8>) -> Result<()>,
    A: FnOnce(String, Vec<u8>) -> Result<()>,
    R: Fn(u64, u64, usize) -> std::result::Result<Vec<u8>, std::io::Error>,
    M: FnOnce(String) -> Result<()>,
    T: FnOnce() -> Result<()>,
 {
    &&& now.settings() == was.settings()
    &&& now.busy() == was.busy()
    &&& was.mem().len() == 0 ==> done == Ok::<bool, Error>(false) && now.mem() == was.mem()
        && now.same_but_mem(was)
    &&& was.mem().len() > 0 ==> {
        let id = was.next_run();
        let name = manifest::run_name(was.seq());
        &&& now.mem() == Seq::<Entry>::empty()
        &&& now.seq() == was.seq().wrapping_add(1)
        &&& now.next_run() == id + 1
        &&& match done {
            Ok(due) => {
                &&& exists|table: SsTable| #[trigger]
                    fronted(table, was.live(), now.live()) && flushed_as(table, was, dimensions)
                        && (table.filtered() matches Some(f) ==> compact::sidecar_written(
                        attach,
                        name,
                        f,
                        Ok(()),
                    ))
                &&& persisted(persist, id, name, was.mem(), Ok(()))
                &&& stored_list(store, now.seq(), labels(now.live()), Ok(()))
                &&& call_ensures(rotate, (), Ok::<(), Error>(()))
                &&& due == (now.live().len() >= now.settings().compaction_trigger)
            },
            Err(e) => {
                ||| now.live() == was.live() && flush_refused(
                    was,
                    dimensions,
                    persist,
                    attach,
                    read,
                    store,
                    e,
                )
                ||| {
                    &&& call_ensures(rotate, (), Err::<(), Error>(e))
                    &&& persisted(persist, id, name, was.mem(), Ok(()))
                    &&& stored_list(store, now.seq(), labels(now.live()), Ok(()))
                    &&& exists|table: SsTable| #[trigger]
                        fronted(table, was.live(), now.live()) && flushed_as(table, was, dimensions)
                            && (table.filtered() matches Some(f) ==> compact::sidecar_written(
                            attach,
                            name,
                            f,
                            Ok(()),
                        ))
                }
            },
        }
    }
    &&& forall|disk: Map<u64, Seq<u8>>| #[trigger]
        merge::reads_disk(read, disk) && disk[was.next_run()] == layout::run_bytes(was.mem())
            && was.mem().len() > 0 && now.live() != was.live() ==> {
            &&& merge::run_contents(now.live(), disk) == seq![was.mem()] + merge::run_contents(
                was.live(),
                disk,
            )
            &&& now.live()[0].covered(disk[was.next_run()])
            &&& sstable::opened(layout::run_bytes(was.mem())) == Ok::<Table, Error>(
                now.live()[0]@,
            )
            &&& sstable::intact(now.live()[0]@, layout::run_bytes(was.mem()))
        }
}

impl Lsm {
    /// Forces the buffer to disk as a new run, newest of all. An empty buffer is left
    /// alone. The run and its sidecar are written before the manifest names the run, the
    /// run joins the live ones once the manifest names it, and the log is emptied last.
    /// Returns whether a compaction is due.
    pub fn flush<P, A, R, M, T>(
        &mut self,
        dimensions: Option<(u64, u32)>,
        persist: P,
        attach: A,
        read: &R,
        store: M,
        rotate: T,
    ) -> (done: Result<bool>) where
        P: FnOnce(u64, String, Vec<u8>) -> Result<()>,
        A: FnOnce(String, Vec<u8>) -> Result<()>,
        R: Fn(u64, u64, usize) -> std::result::Result<Vec<u8>, std::io::Error>,
        M: FnOnce(String) -> Result<()>,
        T: FnOnce() -> Result<()>,

        requires
            old(self).wf(),
            old(self).mem().len() > 0 ==> old(self).next_run() < u64::MAX,
            flush_callable(*old(self), dimensions, persist, attach, *read, store, rotate),
            sstable::total(*read),
        ensures
            final(self).wf(),
            flush_outcome(
                *old(self),
                *final(self),
                dimensions,
                persist,
                attach,
                *read,
                store,
                rotate,
                done,
            ),
    {
        if self.memtable.is_empty() {
            return Ok(false);
        }
        let ghost es = self.mem();
        let ghost was = *self;
        proof {
            self.lemma_wf();
        }
        let items = self.memtable.take();
        let seq: u64 = self.next_seq;
        self.next_seq = self.next_seq.wrapping_add(1);
        let id: u64 = self.next_id;
        self.next_id = self.next_id + 1;
        let ghost name_view = manifest::run_name(seq);
        assert(self.wf());
        let name = manifest::run_filename(seq);
        let (bytes, filter) = match flush::build_run(&items, dimensions) {
            Ok(built) => built,
            Err(e) => {
                return Err(e);
            },
        };
        let file_len: u64 = bytes.len() as u64;
        let ghost file = bytes@;
        let file_name = name.clone();
        match persist(id, file_name, bytes) {
            Ok(done) => {
                assert(call_ensures(persist, (id, file_name, bytes), Ok::<(), Error>(done)));
                assert(persisted(persist, id, name_view, es, Ok(())));
            },
            Err(e) => {
                assert(call_ensures(persist, (id, file_name, bytes), Err::<(), Error>(e)));
                return Err(e);
            },
        }
        match &filter {
            Some(f) => {
                let sidecar = match f.sidecar() {
                    Ok(b) => b,
                    Err(e) => {
                        return Err(e);
                    },
                };
                let sidecar_file = bloom::sidecar_of(name.as_str());
                assert(sidecar_bytes(*f, sidecar@) && f.wf());
                match attach(sidecar_file, sidecar) {
                    Ok(done) => {
                        assert(call_ensures(attach, (sidecar_file, sidecar), Ok::<(), Error>(done)));
                        assert(f.wf());
                        assert(attached(attach, name_view, es, dimensions, Ok(())));
                        assert(compact::sidecar_written(attach, name_view, *f, Ok(())));
                    },
                    Err(e) => {
                        assert(call_ensures(attach, (sidecar_file, sidecar), Err::<(), Error>(e)));
                        assert(f.wf());
                        return Err(e);
                    },
                }
            },
            None => {},
        }
        let ghost made = filter;
        let opened = flush::open_built(name, id, file_len, filter, read);
        assert(layout::run_bytes(es) == file);
        let table = match opened {
            Ok(t) => t,
            Err(e) => {
                return Err(e);
            },
        };
        let ghost fresh = table;
        let mut new_runs: Vec<Arc<SsTable>> = Vec::new();
        new_runs.push(Arc::new(table));
        let mut older = clone_runs(&self.runs);
        new_runs.append(&mut older);
        proof {
            assert(new_runs@.skip(1) =~= was.live());
            assert(fronted(fresh, was.live(), new_runs@));
            assert(fresh.filtered() == made);
            assert(flushed_as(fresh, was, dimensions));
            assert(made matches Some(f) ==> compact::sidecar_written(
                attach,
                name_view,
                f,
                Ok(()),
            ));
            assert(labels(new_runs@) =~= seq![name_view] + labels(was.live()));
        }
        let content = Manifest::store(self.next_seq, &names_of(&new_runs));
        match store(content) {
            Ok(done) => {
                assert(call_ensures(store, (content,), Ok::<(), Error>(done)));
            },
            Err(e) => {
                assert(call_ensures(store, (content,), Err::<(), Error>(e)));
                return Err(e);
            },
        }
        self.runs = new_runs;
        proof {
            assert forall|i: int| 0 <= i < self.runs@.len() implies (#[trigger] self.runs@[i]).wf()
                && self.runs@[i].id() < self.next_id by {
                if i > 0 {
                    assert(self.runs@[i] == was.live()[i - 1]);
                }
            }
            assert forall|i: int, j: int|
                #![trigger self.runs@[i], self.runs@[j]]
                0 <= i < j < self.runs@.len() implies self.runs@[i].id() != self.runs@[j].id() by {
                assert(self.runs@[j] == was.live()[j - 1]);
                if i > 0 {
                    assert(self.runs@[i] == was.live()[i - 1]);
                }
            }
            assert forall|disk: Map<u64, Seq<u8>>| #[trigger]
                merge::reads_disk(*read, disk) && disk[id] == layout::run_bytes(es) implies {
                &&& merge::run_contents(self.live(), disk) == seq![es] + merge::run_contents(
                    was.live(),
                    disk,
                )
                &&& self.live()[0].covered(disk[id])
                &&& sstable::opened(layout::run_bytes(es)) == Ok::<Table, Error>(self.live()[0]@)
                &&& sstable::intact(self.live()[0]@, layout::run_bytes(es))
            } by {
                assert(sstable::reads_image(*read, id, disk[id]));
                layout::lemma_index_within(es);
                layout::lemma_run_roundtrip(es);
                assert(merge::run_contents(self.live(), disk) =~= seq![es] + merge::run_contents(
                    was.live(),
                    disk,
                ));
            }
        }
        match rotate() {
            Ok(done) => {
                assert(call_ensures(rotate, (), Ok::<(), Error>(done)));
            },
            Err(e) => {
                return Err(e);
            },
        }
        Ok(self.runs.len() >= self.config.compaction_trigger_runs())
    }

    /// Flushes if the buffer has reached its capacity, and otherwise does nothing. Returns
    /// whether a compaction is due.
    pub fn maybe_flush<P, A, R, M, T>(
        &mut self,
        dimensions: Option<(u64, u32)>,
        persist: P,
        attach: A,
        read: &R,
        store: M,
        rotate: T,
    ) -> (done: Result<bool>) where
        P: FnOnce(u64, String, Vec<u8>) -> Result<()>,
        A: FnOnce(String, Vec<u8>) -> Result<()>,
        R: Fn(u64, u64, usize) -> std::result::Result<Vec<u8>, std::io::Error>,
        M: FnOnce(String) -> Result<()>,
        T: FnOnce() -> Result<()>,

        requires
            old(self).wf(),
            old(self).full() ==> old(self).next_run() < u64::MAX && flush_callable(
                *old(self),
                dimensions,
                persist,
                attach,
                *read,
                store,
                rotate,
            ),
            sstable::total(*read),
        ensures
            final(self).wf(),
            if old(self).full() {
                flush_outcome(
                    *old(self),
                    *final(self),
                    dimensions,
                    persist,
                    attach,
                    *read,
                    store,
                    rotate,
                    done,
                )
            } else {
                done == Ok::<bool, Error>(false) && *final(self) == *old(self)
            },
    {
        if self.should_flush() {
            self.flush(dimensions, persist, attach, read, store, rotate)
        } else {
            Ok(false)
        }
    }
}

/// One of the runs has this identity.
pub open spec fn has_id(runs: Seq<Arc<SsTable>>, id: u64) -> bool {
    exists|i: int| 0 <= i < runs.len() && (#[trigger] runs[i]).id() == id
}

/// The runs that are not among those replaced, in order.
pub open spec fn survivors(runs: Seq<Arc<SsTable>>, replaced: Seq<Arc<SsTable>>) -> Seq<Arc<SsTable>>
    decreases runs.len(),
{
    if runs.len() == 0 {
        seq![]
    } else if has_id(replaced, runs.last().id()) {
        survivors(runs.drop_last(), replaced)
    } else {
        survivors(runs.drop_last(), replaced).push(runs.last())
    }
}

/// Whether one of the runs has this identity.
fn is_among(runs: &Vec<Arc<SsTable>>, id: u64) -> (yes: bool)
    ensures
        yes == has_id(runs@, id),
{
    let mut i: usize = 0;
    while i < runs.len()
        invariant
            i <= runs@.len(),
            forall|k: int| 0 <= k < i ==> (#[trigger] runs@[k]).id() != id,
        decreases runs@.len() - i,
    {
        if runs[i].run_id() == id {
            assert(runs@[i as int].id() == id);
            return true;
        }
        i += 1;
    }
    false
}

/// The survivors are among the runs, in order and without repetition.
proof fn lemma_survivors(runs: Seq<Arc<SsTable>>, replaced: Seq<Arc<SsTable>>)
    ensures
        forall|i: int|
            0 <= i < survivors(runs, replaced).len() ==> runs.contains(
                #[trigger] survivors(runs, replaced)[i],
            ) && !has_id(replaced, survivors(runs, replaced)[i].id()),
        distinct_ids(runs) ==> distinct_ids(survivors(runs, replaced)),
    decreases runs.len(),
{
    if runs.len() > 0 {
        let d = runs.drop_last();
        let kept = survivors(d, replaced);
        let all = survivors(runs, replaced);
        lemma_survivors(d, replaced);
        assert forall|i: int| 0 <= i < all.len() implies runs.contains(#[trigger] all[i])
            && !has_id(replaced, all[i].id()) by {
            if i < kept.len() {
                assert(all[i] == kept[i]);
                let k = choose|k: int| 0 <= k < d.len() && d[k] == kept[i];
                assert(runs[k] == kept[i]);
            } else {
                assert(runs[runs.len() - 1] == all[i]);
            }
        }
        if distinct_ids(runs) {
            assert(distinct_ids(d)) by {
                assert forall|i: int, j: int| #![trigger d[i], d[j]]
                    0 <= i < j < d.len() implies d[i].id() != d[j].id() by {
                    assert(d[i] == runs[i] && d[j] == runs[j]);
                }
            }
            assert forall|i: int, j: int| #![trigger all[i], all[j]]
                0 <= i < j < all.len() implies all[i].id() != all[j].id() by {
                assert(all[i] == kept[i]);
                if j < kept.len() {
                    assert(all[j] == kept[j]);
                } else {
                    let k = choose|k: int| 0 <= k < d.len() && d[k] == kept[i];
                    assert(runs[k] == kept[i]);
                    assert(runs[runs.len() - 1] == all[j]);
                }
            }
        }
    }
}

/// Replacing the runs at the end of a list leaves the newer ones.
pub proof fn lemma_survivors_newer(newer: Seq<Arc<SsTable>>, replaced: Seq<Arc<SsTable>>, k: int)
    requires
        0 <= k <= replaced.len(),
        distinct_ids(newer + replaced),
    ensures
        survivors(newer + replaced.take(k), replaced) == newer,
    decreases newer.len() + k,
{
    let all = newer + replaced;
    let part = newer + replaced.take(k);
    if k > 0 {
        assert(part.drop_last() =~= newer + replaced.take(k - 1));
        assert(part.last() == replaced[k - 1]);
        assert(has_id(replaced, part.last().id()));
        lemma_survivors_newer(newer, replaced, k - 1);
    } else {
        assert(part =~= newer);
        if newer.len() > 0 {
            let d = newer.drop_last();
            let last = newer.last();
            assert forall|i: int| 0 <= i < replaced.len() implies (#[trigger] replaced[i]).id()
                != last.id() by {
                assert(all[newer.len() - 1] == last);
                assert(all[newer.len() + i] == replaced[i]);
            }
            assert(distinct_ids(d + replaced)) by {
                let rest = d + replaced;
                assert forall|i: int, j: int| #![trigger rest[i], rest[j]]
                    0 <= i < j < rest.len() implies rest[i].id() != rest[j].id() by {
                    let p = if i < d.len() {
                        i
                    } else {
                        i + 1
                    };
                    let q = if j < d.len() {
                        j
                    } else {
                        j + 1
                    };
                    assert(rest[i] == all[p] && rest[j] == all[q]);
                }
            }
            lemma_survivors_newer(d, replaced, 0);
            assert(d + replaced.take(0) =~= d);
            assert(d.push(last) =~= newer);
        } else {
            assert(newer =~= seq![]);
        }
    }
}

/// The identities of some runs.
pub open spec fn run_ids(runs: Seq<Arc<SsTable>>) -> Seq<u64> {
    runs.map_values(|r: Arc<SsTable>| r.id())
}

/// The identities of some runs.
fn ids_of(runs: &Vec<Arc<SsTable>>) -> (ids: Vec<u64>)
    ensures
        ids@ == run_ids(runs@),
{
    let mut ids: Vec<u64> = Vec::new();
    let mut i: usize = 0;
    while i < runs.len()
        invariant
            i <= runs@.len(),
            ids@ == run_ids(runs@).take(i as int),
        decreases runs@.len() - i,
    {
        ids.push(runs[i].run_id());
        i += 1;
        assert(ids@ =~= run_ids(runs@).take(i as int));
    }
    assert(run_ids(runs@).take(i as int) =~= run_ids(runs@));
    ids
}

/// The functions through which a compaction is installed can be called just as they have to
/// be: `store` on the manifest that lists the surviving runs and then the output, and
/// `retire` on the identities of the runs that were merged, once that manifest is stored.
pub open spec fn install_callable<M, D>(
    was: Lsm,
    inputs: Seq<Arc<SsTable>>,
    output: Seq<char>,
    store: M,
    retire: D,
) -> bool where M: FnOnce(String) -> Result<()>, D: FnOnce(Vec<u64>) {
    let runs = labels(survivors(was.live(), inputs)).push(output);
    &&& forall|content: String|
        content@ == manifest::manifest_text(RunList { next_seq: was.seq(), runs })
            ==> #[trigger] call_requires(store, (content,))
    &&& forall|ids: Vec<u64>|
        ids@ == run_ids(inputs) && stored_list(store, was.seq(), runs, Ok(()))
            ==> #[trigger] call_requires(retire, (ids,))
}

impl Lsm {
    /// Begins a compaction of every live run, unless one is under way or there are fewer
    /// than two runs.
    pub fn begin_compaction(&mut self) -> (plan: Option<CompactionPlan>)
        requires
            old(self).wf(),
            !old(self).busy() && old(self).live().len() >= 2 ==> old(self).next_run() < u64::MAX,
        ensures
            final(self).wf(),
            final(self).mem() == old(self).mem(),
            final(self).live() == old(self).live(),
            final(self).settings() == old(self).settings(),
            match plan {
                None => {
                    &&& old(self).busy() || old(self).live().len() < 2
                    &&& final(self).same_but_mem(*old(self))
                },
                Some(p) => {
                    &&& !old(self).busy()
                    &&& old(self).live().len() >= 2
                    &&& final(self).busy()
                    &&& p.inputs@ == old(self).live()
                    &&& p.name@ == manifest::run_name(old(self).seq())
                    &&& p.run_id == old(self).next_run()
                    &&& final(self).seq() == old(self).seq().wrapping_add(1)
                    &&& final(self).next_run() == old(self).next_run() + 1
                },
            },
    {
        if self.compacting {
            return None;
        }
        if self.runs.len() < 2 {
            return None;
        }
        self.compacting = true;
        let inputs = clone_runs(&self.runs);
        let name = manifest::run_filename(self.next_seq);
        self.next_seq = self.next_seq.wrapping_add(1);
        let run_id: u64 = self.next_id;
        self.next_id = self.next_id + 1;
        Some(CompactionPlan { inputs, name, run_id })
    }

    /// Swaps the output of a compaction in: the runs that were merged leave, runs flushed
    /// meanwhile stay, and the output becomes the oldest run. The manifest is replaced
    /// first; if that fails nothing changes. Only then `retire` is handed the identities of
    /// the runs that were merged, whose files nothing names any more.
    pub fn install_compaction<M, D>(
        &mut self,
        inputs: &Vec<Arc<SsTable>>,
        output: SsTable,
        store: M,
        retire: D,
    ) -> (done: Result<()>) where M: FnOnce(String) -> Result<()>, D: FnOnce(Vec<u64>)
        requires
            old(self).wf(),
            output.wf(),
            output.id() < old(self).next_run(),
            !has_id(old(self).live(), output.id()),
            install_callable(*old(self), inputs@, output.label(), store, retire),
        ensures
            final(self).wf(),
            final(self).mem() == old(self).mem(),
            final(self).seq() == old(self).seq(),
            final(self).next_run() == old(self).next_run(),
            final(self).busy() == old(self).busy(),
            final(self).settings() == old(self).settings(),
            stored_list(
                store,
                old(self).seq(),
                labels(survivors(old(self).live(), inputs@)).push(output.label()),
                done,
            ),
            match done {
                Ok(_) => {
                    &&& final(self).live().len() == survivors(old(self).live(), inputs@).len() + 1
                    &&& final(self).live().drop_last() == survivors(old(self).live(), inputs@)
                    &&& *final(self).live().last() == output
                    &&& exists|ids: Vec<u64>| #[trigger]
                        call_ensures(retire, (ids,), ()) && ids@ == run_ids(inputs@)
                },
                Err(_) => final(self).live() == old(self).live(),
            },
    {
        let ghost was = *self;
        let ghost out = output;
        let mut new_runs: Vec<Arc<SsTable>> = Vec::new();
        let mut i: usize = 0;
        assert(self.runs@.take(0) =~= seq![]);
        while i < self.runs.len()
            invariant
                i <= self.runs@.len(),
                new_runs@ == survivors(self.runs@.take(i as int), inputs@),
            decreases self.runs@.len() - i,
        {
            proof {
                assert(self.runs@.take(i + 1).drop_last() =~= self.runs@.take(i as int));
                assert(self.runs@.take(i + 1).last() == self.runs@[i as int]);
            }
            if !is_among(inputs, self.runs[i].run_id()) {
                new_runs.push(Arc::clone(&self.runs[i]));
            }
            i += 1;
        }
        let ghost kept = new_runs@;
        proof {
            assert(self.runs@.take(i as int) =~= self.runs@);
            lemma_survivors(was.live(), inputs@);
        }
        new_runs.push(Arc::new(output));
        proof {
            assert(labels(new_runs@) =~= labels(kept).push(out.label()));
        }
        let content = Manifest::store(self.next_seq, &names_of(&new_runs));
        match store(content) {
            Ok(stored) => {
                assert(call_ensures(store, (content,), Ok::<(), Error>(stored)));
            },
            Err(e) => {
                assert(call_ensures(store, (content,), Err::<(), Error>(e)));
                return Err(e);
            },
        }
        self.runs = new_runs;
        proof {
            let now = self.runs@;
            assert(now.drop_last() =~= kept);
            assert forall|i: int| 0 <= i < now.len() implies (#[trigger] now[i]).wf() && now[i].id()
                < self.next_id by {
                if i < kept.len() {
                    assert(now[i] == kept[i]);
                    let k = choose|k: int| 0 <= k < was.live().len() && was.live()[k] == kept[i];
                    assert(was.live()[k].wf());
                }
            }
            assert forall|i: int, j: int| #![trigger now[i], now[j]]
                0 <= i < j < now.len() implies now[i].id() != now[j].id() by {
                assert(now[i] == kept[i]);
                if j < kept.len() {
                    assert(now[j] == kept[j]);
                } else {
                    let k = choose|k: int| 0 <= k < was.live().len() && was.live()[k] == kept[i];
                    assert(was.live()[k].id() != out.id());
                }
            }
        }
        let ids = ids_of(inputs);
        retire(ids);
        assert(call_ensures(retire, (ids,), ()));
        Ok(())
    }

    /// Ends a compaction, however it went.
    pub fn end_compaction(&mut self)
        requires
            old(self).wf(),
        ensures
            final(self).wf(),
            !final(self).busy(),
            final(self).mem() == old(self).mem(),
            final(self).live() == old(self).live(),
            final(self).seq() == old(self).seq(),
            final(self).next_run() == old(self).next_run(),
            final(self).settings() == old(self).settings(),
    {
        self.compacting = false;
    }
}

impl Lsm {
    /// Puts an engine together from its parts.
    pub(crate) fn assemble(
        config: LsmConfig,
        memtable: MemTable,
        runs: Vec<Arc<SsTable>>,
        next_seq: u64,
        next_id: u64,
    ) -> (lsm: Lsm)
        requires
            memtable.wf(),
            runs_ok(runs@),
            distinct_ids(runs@),
            forall|i: int| 0 <= i < runs@.len() ==> (#[trigger] runs@[i]).id() < next_id,
        ensures
            lsm.wf(),
            lsm.settings() == config@,
            lsm.mem() == memtable@,
            lsm.live() == runs@,
            lsm.seq() == next_seq,
            lsm.next_run() == next_id,
            !lsm.busy(),
    {
        Lsm { config, memtable, runs, next_seq, next_id, compacting: false }
    }
}

} // verus!
