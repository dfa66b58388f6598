//! Merging every run into one.
//!
//! A compaction merges the runs that were live when it began. Because it merges all of
//! them there is nothing older left to mask, so deletions are resolved away. The output is
//! handed out piece by piece, so that it can be streamed to a file.
use std::sync::Arc;
use vstd::prelude::*;
use crate::block;
use crate::bloom;
use crate::bloom::{RunFilter, RunFilterBuilder};
use crate::codec;
use crate::db;
use crate::error::{Error, Result};
use crate::flush;
use crate::keys;
use crate::layout;
use crate::merge;
use crate::merge::Merge;
use crate::model;
use crate::model::Pair;
use crate::record;
use crate::record::{Entry, Item, Record};
use crate::sstable;
use crate::sstable::{SsTable, Table};
use crate::writer;
use crate::writer::SsTableWriter;

verus! {

/// The number of entries that some runs record, in all.
pub open spec fn total_count(runs: Seq<Arc<SsTable>>) -> nat
    decreases runs.len(),
{
    if runs.len() == 0 {
        0
    } else {
        total_count(runs.drop_last()) + runs.last()@.entry_count as nat
    }
}

/// The number of entries that some runs record, as far as a `usize` can say.
pub open spec fn capacity_for(runs: Seq<Arc<SsTable>>) -> nat {
    if total_count(runs) > usize::MAX {
        usize::MAX as nat
    } else {
        total_count(runs)
    }
}

/// The number of entries that some runs record, as far as a `usize` can say. It bounds the
/// number of keys in their merge.
pub fn merged_capacity(runs: &Vec<Arc<SsTable>>) -> (capacity: usize)
    ensures
        capacity == capacity_for(runs@),
{
    let mut capacity: usize = 0;
    let mut i: usize = 0;
    assert(runs@.take(0) =~= seq![]);
    while i < runs.len()
        invariant
            i <= runs@.len(),
            capacity == capacity_for(runs@.take(i as int)),
        decreases runs@.len() - i,
    {
        proof {
            assert(runs@.take(i + 1).drop_last() =~= runs@.take(i as int));
            assert(runs@.take(i + 1).last() == runs@[i as int]);
        }
        let count: u64 = runs[i].entry_count();
        let n: usize = if count > usize::MAX as u64 {
            usize::MAX
        } else {
            count as usize
        };
        capacity = capacity.saturating_add(n);
        i += 1;
    }
    assert(runs@.take(i as int) =~= runs@);
    capacity
}

/// What a compaction is to do: which runs to merge, and what to name the result.
#[derive(Debug)]
pub struct CompactionPlan {
    /// The runs to merge, newest first.
    pub inputs: Vec<Arc<SsTable>>,
    /// The file name of the output.
    pub name: String,
    /// The identity of the output.
    pub run_id: u64,
}

/// The sources a compaction merges.
pub open spec fn inputs_of(inputs: Seq<Arc<SsTable>>, disk: Map<u64, Seq<u8>>) -> Seq<Seq<Entry>> {
    db::sources_of(seq![], inputs, disk)
}

/// Every block of every input reads without fault.
pub open spec fn inputs_intact(inputs: Seq<Arc<SsTable>>, disk: Map<u64, Seq<u8>>) -> bool {
    forall|i: int|
        0 <= i < inputs.len() ==> sstable::intact((#[trigger] inputs[i])@, disk[inputs[i].id()])
}

/// Every key is kept.
pub open spec fn every_key() -> spec_fn(Seq<u8>) -> bool {
    |k: Seq<u8>| true
}

/// The run written from these pairs was still below the limit before each of the pairs from
/// `from` on but the first, less the `skipped` bytes that do not count.
pub open spec fn stayed_below(pairs: Seq<Pair>, from: int, skipped: int, limit: usize) -> bool {
    forall|k: int|
        from < k < pairs.len() ==> layout::written(
            model::pair_entries(#[trigger] pairs.take(k)),
        ).len() - skipped < limit
}

/// A compaction under way.
pub struct Compaction {
    inputs: Vec<Arc<SsTable>>,
    merge: Merge,
    writer: SsTableWriter,
    filter: RunFilterBuilder,
    pairs: Ghost<Seq<Pair>>,
    bound: Ghost<Option<Seq<u8>>>,
}

impl Compaction {
    /// The runs that are merged.
    pub closed spec fn sources(&self) -> Seq<Arc<SsTable>> {
        self.inputs@
    }

    /// The pairs merged so far.
    pub closed spec fn merged(&self) -> Seq<Pair> {
        self.pairs@
    }

    /// Whether a filter is being built.
    pub closed spec fn filtering(&self) -> bool {
        self.filter.active()
    }

    /// The bits of the filter that is being built, and its probes per key.
    pub closed spec fn sizes(&self) -> (u64, u32) {
        self.filter.dimensions()
    }

    /// The bytes handed out so far.
    pub open spec fn emitted(&self) -> Seq<u8> {
        layout::written(model::pair_entries(self.merged()))
    }

    /// The output holds the pairs merged so far, the filter admits their keys, and every
    /// key to come is above them.
    pub closed spec fn wf(&self) -> bool {
        &&& db::runs_ok(self.inputs@)
        &&& self.merge.wf()
        &&& forall|e: Error| !#[trigger] self.merge.stopped(e)
        &&& self.merge.tables() == seq![None::<SsTable>] + self.inputs@.map_values(
            |r: Arc<SsTable>| Some(*r),
        )
        &&& self.writer.wf()
        &&& self.writer@ == model::pair_entries(self.pairs@)
        &&& self.filter.wf()
        &&& self.filter.active() ==> forall|i: int|
            0 <= i < self.pairs@.len() ==> self.filter.admitted().contains(
                (#[trigger] self.pairs@[i]).0,
            )
        &&& self.filter.active() ==> flush::marks_of(self.filter, self.pairs@.len())
        &&& self.pairs@.len() > 0 ==> self.merge.beyond(self.pairs@.last().0)
    }

    /// If the run files are as `disk` has them, the pairs merged so far are the live ones
    /// up to where the merge stands, and no damaged block was passed over.
    pub closed spec fn on_track(&self, disk: Map<u64, Seq<u8>>) -> bool {
        &&& self.merge.clean(disk)
        &&& merge::collected(
            inputs_of(self.inputs@, disk),
            self.merge.rests(disk),
            self.bound@,
            self.pairs@,
            every_key(),
        )
    }

    /// Starts a compaction: hands out the header of the output file.
    pub fn start(
        inputs: &Vec<Arc<SsTable>>,
        dimensions: Option<(u64, u32)>,
        out: &mut Vec<u8>,
    ) -> (job: Compaction)
        requires
            db::runs_ok(inputs@),
        ensures
            job.wf(),
            job.sources() == inputs@,
            job.merged() == Seq::<Pair>::empty(),
            job.filtering() == (capacity_for(inputs@) > 0 && bloom::sizeable(dimensions)),
            job.filtering() ==> dimensions == Some(job.sizes()),
            final(out)@ == old(out)@ + job.emitted(),
            forall|disk: Map<u64, Seq<u8>>| #[trigger] job.on_track(disk),
    {
        let writer = SsTableWriter::create(out);
        let filter = bloom::builder(merged_capacity(inputs), dimensions);
        let nothing: Vec<Item> = Vec::new();
        assert(record::entries(nothing@) =~= seq![]);
        let merge = Merge::new(nothing, inputs);
        let job = Compaction {
            inputs: db::clone_runs(inputs),
            merge,
            writer,
            filter,
            pairs: Ghost(Seq::<Pair>::empty()),
            bound: Ghost(None),
        };
        proof {
            assert(model::pair_entries(Seq::<Pair>::empty()) =~= seq![]);
            if job.filter.active() {
                flush::lemma_marks_start(job.filter);
            }
            assert forall|disk: Map<u64, Seq<u8>>| #[trigger] job.on_track(disk) by {
                merge::lemma_collect_start(inputs_of(inputs@, disk), every_key());
            }
        }
        job
    }

    /// Merges on until `out` holds at least `limit` bytes or the merge is at its end.
    /// Returns whether there is more to merge. A damaged block in an input is an error: a
    /// merge that comes to its end has read every block of every input without fault.
    pub fn advance<R>(&mut self, read: &R, limit: usize, out: &mut Vec<u8>) -> (more: Result<
        bool,
    >) where R: Fn(u64, u64, usize) -> std::result::Result<Vec<u8>, std::io::Error>
        requires
            old(self).wf(),
            sstable::total(*read),
        ensures
            final(self).sources() == old(self).sources(),
            final(self).filtering() == old(self).filtering(),
            old(self).filtering() ==> final(self).sizes() == old(self).sizes(),
            more is Ok ==> {
                let chunk = final(out)@.skip(old(out)@.len() as int);
                &&& final(self).wf()
                &&& final(out)@ == old(out)@ + chunk
                &&& final(self).emitted() == old(self).emitted() + chunk
            },
            more is Ok ==> old(self).merged().is_prefix_of(final(self).merged()),
            more == Ok::<bool, Error>(true) ==> final(out)@.len() >= limit
                && final(self).merged().len() > old(self).merged().len(),
            more is Ok ==> stayed_below(
                final(self).merged(),
                old(self).merged().len() as int,
                old(self).emitted().len() - old(out)@.len(),
                limit,
            ),
            forall|disk: Map<u64, Seq<u8>>| #[trigger]
                merge::reads_disk(*read, disk) && old(self).on_track(disk) ==> match more {
                    Ok(true) => final(self).on_track(disk),
                    Ok(false) => {
                        &&& model::lists(
                            final(self).merged(),
                            inputs_of(final(self).sources(), disk),
                            every_key(),
                        )
                        &&& inputs_intact(final(self).sources(), disk)
                    },
                    Err(e) => db::some_fault(*read, disk, old(self).sources(), e) || (e
                        == writer::oversize() && exists|k: int|
                        0 <= k <= final(self).merged().len() && writer::overfull(
                            model::pair_entries(#[trigger] final(self).merged().take(k)),
                        )),
                },
    {
        let ghost start = *self;
        let ghost was = out@;
        proof {
            assert(was =~= old(out)@ + Seq::<u8>::empty());
            assert(start.emitted() + Seq::<u8>::empty() =~= start.emitted());
        }
        loop
            invariant
                start == *old(self),
                was == old(out)@,
                sstable::total(*read),
                self.wf(),
                self.sources() == start.sources(),
                self.filtering() == start.filtering(),
                start.filtering() ==> self.sizes() == start.sizes(),
                start.merged().is_prefix_of(self.merged()),
                out@.len() >= was.len(),
                out@.take(was.len() as int) == was,
                self.emitted() == start.emitted() + out@.skip(was.len() as int),
                self.merged().len() > start.merged().len() ==> out@.len() < limit,
                stayed_below(
                    self.merged(),
                    start.merged().len() as int,
                    start.emitted().len() - was.len(),
                    limit,
                ),
                forall|disk: Map<u64, Seq<u8>>| #[trigger]
                    merge::reads_disk(*read, disk) && start.on_track(disk) ==> self.on_track(disk),
            decreases self.merge.blocks_left(), self.merge.items_left(),
        {
            let ghost before = *self;
            let ghost so_far = out@;
            match self.merge.next(read) {
                None => {
                    proof {
                        assert(out@ =~= was + out@.skip(was.len() as int));
                        assert forall|disk: Map<u64, Seq<u8>>| #[trigger]
                            merge::reads_disk(*read, disk) && start.on_track(disk) implies {
                            &&& model::lists(
                                self.merged(),
                                inputs_of(self.sources(), disk),
                                every_key(),
                            )
                            &&& inputs_intact(self.sources(), disk)
                        } by {
                            assert(before.on_track(disk));
                            assert(before.merge.all_intact(disk));
                            assert forall|i: int| 0 <= i < start.inputs@.len() implies sstable::intact(
                                (#[trigger] start.inputs@[i])@,
                                disk[start.inputs@[i].id()],
                            ) by {
                                assert(before.merge.tables()[i + 1] == Some(*start.inputs@[i]));
                            }
                            lemma_inputs_ascending(start.inputs@, disk);
                            merge::lemma_collect_end(
                                inputs_of(start.inputs@, disk),
                                before.merge.rests(disk),
                                self.merge.rests(disk),
                                before.bound@,
                                before.pairs@,
                                every_key(),
                            );
                        }
                    }
                    return Ok(false);
                },
                Some(Err(e)) => {
                    proof {
                        assert forall|disk: Map<u64, Seq<u8>>| #[trigger]
                            merge::reads_disk(*read, disk) implies db::some_fault(
                            *read,
                            disk,
                            start.sources(),
                            e,
                        ) by {
                            db::lemma_merge_fault(before.merge, start.inputs@, *read, disk, e);
                        }
                    }
                    return Err(e);
                },
                Some(Ok((key, value))) => {
                    let ghost p = (key@, value@);
                    let ghost entries = model::pair_entries(before.pairs@);
                    let record = Record::Value(value);
                    proof {
                        let n = before.pairs@.len();
                        if n > 0 {
                            assert(entries.last().0 == before.pairs@.last().0);
                            assert(keys::key_lt(before.pairs@.last().0, key@));
                        }
                        assert(model::pair_entries(before.pairs@.push(p)) =~= entries.push(
                            (key@, Some(value@)),
                        ));
                        layout::lemma_written_push(entries, (key@, Some(value@)));
                    }
                    match self.writer.push(key.as_slice(), &record, out) {
                        Ok(_) => {},
                        Err(e) => {
                            proof {
                                let n = before.pairs@.len() as int;
                                assert(before.pairs@.take(n) =~= before.pairs@);
                                assert(self.merged().take(n) =~= before.pairs@);
                                assert forall|disk: Map<u64, Seq<u8>>| #[trigger]
                                    merge::reads_disk(*read, disk) && start.on_track(disk) implies e
                                    == writer::oversize() && writer::overfull(
                                    model::pair_entries(self.merged().take(n)),
                                ) by {
                                    assert(before.on_track(disk));
                                    lemma_inputs_ascending(start.inputs@, disk);
                                    lemma_merged_fits(
                                        start.inputs@,
                                        disk,
                                        before.merge.rests(disk),
                                        self.merge.rests(disk),
                                        before.bound@,
                                        key@,
                                        value@,
                                    );
                                }
                            }
                            return Err(e);
                        },
                    }
                    let ghost probed = self.filter;
                    let ghost admitted = self.filter.admitted();
                    self.filter.add(key.as_slice());
                    self.pairs = Ghost(before.pairs@.push(p));
                    self.bound = Ghost(Some(key@));
                    proof {
                        if self.filter.active() {
                            let now = self.filter.admitted();
                            flush::lemma_marks_step(probed, self.filter, before.pairs@.len());
                            assert forall|i: int| 0 <= i < self.pairs@.len() implies now.contains(
                                (#[trigger] self.pairs@[i]).0,
                            ) by {
                                if i < before.pairs@.len() {
                                    assert(self.pairs@[i] == before.pairs@[i]);
                                }
                                assert(admitted.insert(key@).contains(self.pairs@[i].0));
                            }
                        }
                        let chunk = layout::flushed(entries, (key@, Some(value@)));
                        assert(out@ == so_far + chunk);
                        assert(out@.take(was.len() as int) =~= so_far.take(was.len() as int));
                        assert(out@.skip(was.len() as int) =~= so_far.skip(was.len() as int)
                            + chunk);
                        assert(start.emitted() + out@.skip(was.len() as int) =~= before.emitted()
                            + chunk);
                        let n = before.pairs@.len() as int;
                        assert forall|k: int| start.merged().len() < k < self.merged().len() implies layout::written(
                            model::pair_entries(#[trigger] self.merged().take(k)),
                        ).len() - (start.emitted().len() - was.len()) < limit by {
                            if k < n {
                                assert(self.merged().take(k) =~= before.merged().take(k));
                            } else {
                                assert(self.merged().take(k) =~= before.merged());
                            }
                        }
                        assert forall|disk: Map<u64, Seq<u8>>| #[trigger]
                            merge::reads_disk(*read, disk) && start.on_track(disk) implies self.on_track(
                            disk,
                        ) by {
                            assert(before.on_track(disk));
                            lemma_inputs_ascending(start.inputs@, disk);
                            merge::lemma_collect_step(
                                inputs_of(start.inputs@, disk),
                                before.merge.rests(disk),
                                self.merge.rests(disk),
                                before.bound@,
                                before.pairs@,
                                every_key(),
                                key@,
                                value@,
                            );
                        }
                    }
                },
            }
            if out.len() >= limit {
                assert(out@ =~= was + out@.skip(was.len() as int));
                return Ok(true);
            }
        }
    }

    /// Ends the output: hands out the last block, the index and the footer, and returns the
    /// filter.
    pub fn finish(self, out: &mut Vec<u8>) -> (built: Result<Option<RunFilter>>)
        requires
            self.wf(),
        ensures
            match built {
                Ok(filter) => {
                    let es = model::pair_entries(self.merged());
                    &&& model::ascending(es)
                    &&& block::all_fit(es)
                    &&& final(out)@ == old(out)@ + layout::tail(es)
                    &&& self.emitted() + layout::tail(es) == layout::run_bytes(es)
                    &&& filter is Some <==> self.filtering()
                    &&& flush::sized(filter, Some(self.sizes()))
                    &&& flush::admits_all(filter, es)
                    &&& flush::marked_by(filter, es.len())
                },
                Err(e) => {
                    &&& e == writer::oversize()
                    &&& writer::overfull(model::pair_entries(self.merged()))
                    &&& final(out)@ == old(out)@
                },
            },
    {
        let ghost es = model::pair_entries(self.merged());
        proof {
            self.writer.lemma_accepted();
            layout::lemma_written_tail(es);
        }
        match self.writer.finish(out) {
            Ok(_) => {},
            Err(e) => {
                return Err(e);
            },
        }
        let filter = self.filter.finish();
        proof {
            if filter is Some {
                assert forall|i: int| 0 <= i < es.len() implies (filter->0).admitted().contains(
                    (#[trigger] es[i]).0,
                ) by {
                    assert(es[i].0 == self.pairs@[i].0);
                }
            }
        }
        Ok(filter)
    }
}

/// The output file of a compaction, with what it holds in place: the run, and its sidecar
/// next to it. `install` gives the run its name, and `attach` writes the sidecar of a run
/// that has its name. Once both are done the run is opened, to be swapped in.
pub fn seal<I, A, R>(
    plan: &CompactionPlan,
    file_len: u64,
    filter: Option<RunFilter>,
    install: I,
    attach: A,
    read: &R,
) -> (output: Result<SsTable>) where
    I: FnOnce() -> Result<()>,
    A: FnOnce(String, Vec<u8>) -> Result<()>,
    R: Fn(u64, u64, usize) -> std::result::Result<Vec<u8>, std::io::Error>,

    requires
        filter matches Some(f) ==> f.wf(),
        seal_callable(plan.name@, filter, install, attach),
        sstable::total(*read),
    ensures
        match output {
            Ok(t) => {
                &&& call_ensures(install, (), Ok::<(), Error>(()))
                &&& filter matches Some(f) ==> sidecar_written(attach, plan.name@, f, Ok(()))
                &&& t.wf()
                &&& t.id() == plan.run_id
                &&& t.label() == plan.name@
                &&& t.filtered() == filter
                &&& sstable::opens_to(*read, plan.run_id, file_len, Ok(t@))
            },
            Err(e) => {
                ||| call_ensures(install, (), Err::<(), Error>(e))
                ||| call_ensures(install, (), Ok::<(), Error>(())) && (filter matches Some(f)
                    && sidecar_written(attach, plan.name@, f, Err(e)))
                ||| call_ensures(install, (), Ok::<(), Error>(())) && (filter matches Some(f)
                    ==> sidecar_written(attach, plan.name@, f, Ok(()))) && sstable::opens_to(
                    *read,
                    plan.run_id,
                    file_len,
                    Err(e),
                )
            },
        },
        forall|es: Seq<Entry>|
            #![trigger layout::run_bytes(es)]
            sstable::reads_image(*read, plan.run_id, layout::run_bytes(es)) && layout::run_bytes(
                es,
            ).len() == file_len && model::ascending(es) && block::all_fit(es) && layout::run_bytes(
                es,
            ).len() <= usize::MAX ==> match output {
                Ok(t) => {
                    &&& sstable::opened(layout::run_bytes(es)) == Ok::<Table, Error>(t@)
                    &&& sstable::intact(t@, layout::run_bytes(es))
                    &&& sstable::contents(t@, layout::run_bytes(es)) == es
                    &&& flush::admits_all(filter, es) ==> t.covered(layout::run_bytes(es))
                },
                Err(e) => {
                    ||| call_ensures(install, (), Err::<(), Error>(e))
                    ||| filter matches Some(f) && sidecar_written(attach, plan.name@, f, Err(e))
                    ||| flush::open_fault(*read, plan.run_id, e)
                },
            },
{
    match install() {
        Ok(done) => {
            assert(call_ensures(install, (), Ok::<(), Error>(done)));
        },
        Err(e) => {
            assert(call_ensures(install, (), Err::<(), Error>(e)));
            return Err(e);
        },
    }
    match &filter {
        Some(f) => {
            let bytes = match f.sidecar() {
                Ok(b) => b,
                Err(e) => {
                    return Err(e);
                },
            };
            let file = bloom::sidecar_of(plan.name.as_str());
            match attach(file, bytes) {
                Ok(done) => {
                    assert(call_ensures(attach, (file, bytes), Ok::<(), Error>(done)));
                },
                Err(e) => {
                    assert(call_ensures(attach, (file, bytes), Err::<(), Error>(e)));
                    return Err(e);
                },
            }
        },
        None => {},
    }
    proof {
        assert forall|es: Seq<Entry>|
            #![trigger layout::run_bytes(es)]
            model::ascending(es) && block::all_fit(es) && layout::run_bytes(es).len()
                <= usize::MAX implies sstable::opened(layout::run_bytes(es)) == Ok::<Table, Error>(
            layout::table_for(es),
        ) by {
            layout::lemma_index_within(es);
            layout::lemma_run_roundtrip(es);
        }
    }
    flush::open_built(plan.name.clone(), plan.run_id, file_len, filter, read)
}

/// The functions through which an output file is sealed can be called just as they have to
/// be: `attach` on the filter's sidecar, under the name that goes with the run's, and only
/// once the run has its name.
pub open spec fn seal_callable<I, A>(
    name: Seq<char>,
    filter: Option<RunFilter>,
    install: I,
    attach: A,
) -> bool where I: FnOnce() -> Result<()>, A: FnOnce(String, Vec<u8>) -> Result<()> {
    &&& call_requires(install, ())
    &&& forall|file: String, bytes: Vec<u8>|
        filter is Some && file@ == bloom::sidecar_name(name) && db::sidecar_bytes(
            filter->0,
            bytes@,
        ) && call_ensures(install, (), Ok::<(), Error>(())) ==> #[trigger] call_requires(
            attach,
            (file, bytes),
        )
}

/// `done` is a result of writing the filter's sidecar next to the run.
pub open spec fn sidecar_written<A>(
    attach: A,
    name: Seq<char>,
    filter: RunFilter,
    done: Result<()>,
) -> bool where A: FnOnce(String, Vec<u8>) -> Result<()> {
    exists|file: String, bytes: Vec<u8>|
        file@ == bloom::sidecar_name(name) && db::sidecar_bytes(filter, bytes@)
            && #[trigger] call_ensures(attach, (file, bytes), done)
}

/// What is merged from runs is within the length cap.
proof fn lemma_merged_fits(
    inputs: Seq<Arc<SsTable>>,
    disk: Map<u64, Seq<u8>>,
    mid: Seq<Seq<Entry>>,
    now: Seq<Seq<Entry>>,
    bound: Option<Seq<u8>>,
    key: Seq<u8>,
    value: Seq<u8>,
)
    requires
        db::runs_ok(inputs),
        merge::left_above(inputs_of(inputs, disk), mid, bound),
        merge::all_ascending(inputs_of(inputs, disk)),
        merge::advanced(mid, now, Some((key, value))),
    ensures
        codec::entry_fits((key, Some(value))),
{
    let start = inputs_of(inputs, disk);
    assert(merge::all_ascending(mid)) by {
        assert forall|i: int| 0 <= i < mid.len() implies model::ascending(#[trigger] mid[i]) by {
            if bound is Some {
                assert(model::trimmed(mid[i], start[i], bound->0));
            }
        }
    }
    let i = model::lemma_newest_witness(mid, key);
    if bound is Some {
        assert(model::trimmed(mid[i], start[i], bound->0));
    }
    assert(model::find(start[i], key) == Some(Some(value)));
    let j = model::lemma_find_witness(start[i], key);
    if i > 0 {
        let run = inputs[i - 1];
        assert(run.wf());
        sstable::lemma_entries_ascending(run@, disk[run.id()], 0);
        assert(start[i] == sstable::contents(run@, disk[run.id()]));
        assert(codec::entry_fits(start[i][j]));
    }
}

/// The sources of a compaction are ascending.
proof fn lemma_inputs_ascending(inputs: Seq<Arc<SsTable>>, disk: Map<u64, Seq<u8>>)
    requires
        db::runs_ok(inputs),
    ensures
        merge::all_ascending(inputs_of(inputs, disk)),
{
    db::lemma_sources_ascending(seq![], inputs, disk);
}

} // verus!
