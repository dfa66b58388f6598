//! What a store goes through: writes, flushes, compactions and reopenings, one after the
//! other.
//!
//! A state is an engine together with what its directory holds. Every step is stated by
//! what the functions that take it ensure, on a directory that does what it is told. The
//! laws at the end say that, whatever the steps, a reader sees what the writes left.
use std::sync::Arc;
use vstd::prelude::*;
use crate::bloom;
use crate::bloom::RunFilter;
use crate::compact;
use crate::config::Settings;
use crate::db;
use crate::db::Lsm;
use crate::durability;
use crate::error::{Error, Result};
use crate::laws;
use crate::layout;
use crate::manifest;
use crate::manifest::RunList;
use crate::memtable;
use crate::merge;
use crate::model;
use crate::model::Pair;
use crate::range::KeyRange;
use crate::record::Entry;
use crate::recovery;
use crate::recovery::{Recovery, Verdict};
use crate::sstable;
use crate::sstable::{SsTable, Table};

verus! {

/// What a store's directory holds: the text of its manifest, its files by name, and the
/// records of its log.
pub struct Store {
    /// The text of the manifest, if there is one.
    pub manifest: Option<Seq<char>>,
    /// The run files and sidecars, by name.
    pub files: Map<Seq<char>, Seq<u8>>,
    /// The records of the log, oldest first.
    pub log: Seq<Seq<u8>>,
}

impl Store {
    /// The runs and the sequence number that the manifest names.
    pub open spec fn listed(&self) -> RunList {
        match self.manifest {
            None => RunList { next_seq: 0, runs: seq![] },
            Some(text) => manifest::manifest_of(text)->Ok_0,
        }
    }

    /// The manifest, if there is one, can be read.
    pub open spec fn readable(&self) -> bool {
        self.manifest matches Some(text) ==> manifest::manifest_of(text) is Ok
    }
}

/// An engine, the run files as it reads them, and what its directory holds.
pub struct State {
    /// The engine.
    pub lsm: Lsm,
    /// The run files, by the identities that the engine reads them under.
    pub disk: Map<u64, Seq<u8>>,
    /// What the directory holds.
    pub store: Store,
}

/// The run has one of the names given out before `next_seq`.
pub open spec fn named_before(name: Seq<char>, next_seq: u64) -> bool {
    manifest::seq_in(name) matches Some(seq) && seq < next_seq && name == manifest::run_name(seq)
}

/// A filter loaded from the sidecar admits every key that the run holds.
pub open spec fn sidecar_covers(sidecar: Seq<u8>, run: Table, image: Seq<u8>) -> bool {
    !recovery::unusable(sidecar) ==> exists|f: RunFilter|
        #![trigger f.admitted()]
        f.parts() == bloom::loaded(bloom::payload_of(sidecar)->0)->0 && forall|key: Seq<u8>|
            #[trigger]
            model::mentions(sstable::contents(run, image), key) ==> f.admitted().contains(key)
}

/// The run's file is in the directory under its name, undamaged, and its filter and its
/// sidecar admit every key in it.
pub open spec fn run_stands(
    run: SsTable,
    image: Seq<u8>,
    files: Map<Seq<char>, Seq<u8>>,
    next_seq: u64,
) -> bool {
    &&& named_before(run.label(), next_seq)
    &&& recovery::held(files, run.label()) == Some(image)
    &&& sstable::opened(image) == Ok::<Table, Error>(run@)
    &&& sstable::intact(run@, image)
    &&& run.covered(image)
    &&& recovery::held(files, bloom::sidecar_name(run.label())) matches Some(sidecar)
        ==> sidecar_covers(sidecar, run@, image)
}

impl State {
    /// The value a reader sees under `key`.
    pub open spec fn sees(&self, key: Seq<u8>) -> Option<Seq<u8>> {
        self.lsm.visible(self.disk, key)
    }

    /// The directory holds what the engine stands for: the manifest lists the live runs,
    /// their files are there and undamaged, and the log's records leave what is buffered.
    pub open spec fn stands(&self) -> bool {
        &&& self.runs_stand()
        &&& durability::replayed(self.lsm.mem(), seq![], self.store.log)
    }

    /// The manifest lists the live runs, and their files are there and undamaged.
    pub open spec fn runs_stand(&self) -> bool {
        let list = self.store.listed();
        &&& self.lsm.wf()
        &&& self.store.readable()
        &&& list.runs == db::labels(self.lsm.live())
        &&& list.next_seq <= self.lsm.seq()
        &&& forall|i: int|
            0 <= i < self.lsm.live().len() ==> run_stands(
                *#[trigger] self.lsm.live()[i],
                self.disk[self.lsm.live()[i].id()],
                self.store.files,
                list.next_seq,
            )
    }

    /// A store that was never written to.
    pub open spec fn fresh(&self) -> bool {
        &&& self.lsm.wf()
        &&& self.lsm.mem() == Seq::<Entry>::empty()
        &&& self.lsm.live() == Seq::<Arc<SsTable>>::empty()
        &&& self.store.manifest is None
        &&& self.store.log == Seq::<Seq<u8>>::empty()
    }
}

/// The two directories hold the same under every name but that of one run and its sidecar.
pub open spec fn same_but_run(
    was: Map<Seq<char>, Seq<u8>>,
    now: Map<Seq<char>, Seq<u8>>,
    run: Seq<char>,
) -> bool {
    forall|name: Seq<char>|
        name != run && name != bloom::sidecar_name(run) ==> #[trigger] recovery::held(now, name)
            == recovery::held(was, name)
}

/// The directory holds the run that was written from `es`, and its sidecar if it has one.
pub open spec fn holds_run(files: Map<Seq<char>, Seq<u8>>, name: Seq<char>, es: Seq<Entry>) -> bool {
    &&& recovery::held(files, name) == Some(layout::run_bytes(es))
    &&& recovery::held(files, bloom::sidecar_name(name)) matches Some(sidecar)
        ==> db::is_sidecar_of(sidecar, es)
}

/// The run was written from `es`, and is read as that.
pub open spec fn written_from(run: SsTable, es: Seq<Entry>) -> bool {
    let image = layout::run_bytes(es);
    &&& sstable::opened(image) == Ok::<Table, Error>(run@)
    &&& sstable::intact(run@, image)
    &&& sstable::contents(run@, image) == es
    &&& run.covered(image)
}

/// A group of writes: it is in the log, and in the buffer.
pub open spec fn writes(before: State, after: State, ops: Seq<Entry>) -> bool {
    &&& after.lsm.wf()
    &&& after.lsm.same_but_mem(before.lsm)
    &&& memtable::applied_all(after.lsm.mem(), before.lsm.mem(), ops)
    &&& after.disk == before.disk
    &&& after.store.manifest == before.store.manifest
    &&& after.store.files == before.store.files
    &&& after.store.log == before.store.log.push(durability::encode_log(ops))
    &&& laws::logged_as(durability::encode_log(ops), ops)
}

/// A flush: the buffer is the newest run, the manifest lists it, and the log is empty.
pub open spec fn flushes(before: State, after: State) -> bool {
    let es = before.lsm.mem();
    let id = before.lsm.next_run();
    let name = manifest::run_name(before.lsm.seq());
    let live = after.lsm.live();
    &&& after.lsm.wf()
    &&& before.lsm.seq() < u64::MAX
    &&& after.lsm.mem() == Seq::<Entry>::empty()
    &&& after.lsm.seq() == before.lsm.seq() + 1
    &&& live.len() > 0
    &&& live.skip(1) == before.lsm.live()
    &&& live[0].id() == id
    &&& live[0].label() == name
    &&& written_from(*live[0], es)
    &&& after.disk == before.disk.insert(id, layout::run_bytes(es))
    &&& same_but_run(before.store.files, after.store.files, name)
    &&& holds_run(after.store.files, name, es)
    &&& after.store.manifest == Some(
        manifest::manifest_text(RunList { next_seq: after.lsm.seq(), runs: db::labels(live) }),
    )
    &&& after.store.log == Seq::<Seq<u8>>::empty()
}

/// A compaction is begun: a name and an identity are given out.
pub open spec fn begins(before: State, after: State) -> bool {
    &&& after.lsm.wf()
    &&& after.lsm.mem() == before.lsm.mem()
    &&& after.lsm.live() == before.lsm.live()
    &&& before.lsm.seq() <= after.lsm.seq()
    &&& after.disk == before.disk
    &&& after.store == before.store
}

/// A compaction is installed: what the runs `inputs` were merged to takes their place behind
/// the runs `newer` that were flushed meanwhile, and the manifest lists it. The files of the
/// runs that were merged may be gone.
pub open spec fn compacts(
    before: State,
    after: State,
    newer: Seq<Arc<SsTable>>,
    inputs: Seq<Arc<SsTable>>,
    pairs: Seq<Pair>,
) -> bool {
    let es = model::pair_entries(pairs);
    let live = after.lsm.live();
    let name = live.last().label();
    &&& after.lsm.wf()
    &&& after.lsm.mem() == before.lsm.mem()
    &&& after.lsm.seq() == before.lsm.seq()
    &&& before.lsm.live() == newer + inputs
    &&& live.len() == newer.len() + 1
    &&& live.drop_last() == newer
    &&& model::lists(pairs, compact::inputs_of(inputs, before.disk), compact::every_key())
    &&& named_before(name, before.lsm.seq())
    &&& !db::labels(newer).contains(name)
    &&& !db::has_id(before.lsm.live(), live.last().id())
    &&& written_from(*live.last(), es)
    &&& after.disk == before.disk.insert(live.last().id(), layout::run_bytes(es))
    &&& holds_run(after.store.files, name, es)
    &&& forall|i: int|
        0 <= i < newer.len() ==> same_run(
            before.store.files,
            after.store.files,
            (#[trigger] newer[i]).label(),
        )
    &&& after.store.manifest == Some(
        manifest::manifest_text(RunList { next_seq: after.lsm.seq(), runs: db::labels(live) }),
    )
    &&& after.store.log == before.store.log
}

/// The two directories hold the same run and sidecar under a name.
pub open spec fn same_run(
    was: Map<Seq<char>, Seq<u8>>,
    now: Map<Seq<char>, Seq<u8>>,
    run: Seq<char>,
) -> bool {
    &&& recovery::held(now, run) == recovery::held(was, run)
    &&& recovery::held(now, bloom::sidecar_name(run)) == recovery::held(
        was,
        bloom::sidecar_name(run),
    )
}

/// An engine opened on a directory: it has the runs that the manifest lists, under their
/// positions as identities, and what the log's records leave is buffered.
pub open spec fn opened_on(lsm: Lsm, disk: Map<u64, Seq<u8>>, store: Store) -> bool {
    let list = store.listed();
    &&& lsm.wf()
    &&& store.readable()
    &&& db::labels(lsm.live()) == list.runs
    &&& lsm.seq() >= list.next_seq
    &&& forall|i: int|
        0 <= i < lsm.live().len() ==> {
            &&& (#[trigger] lsm.live()[i]).id() == i
            &&& recovery::run_in(store.files, lsm.live()[i].label(), *lsm.live()[i])
            &&& disk[i as u64] == store.files[lsm.live()[i].label()]
        }
    &&& durability::replayed(lsm.mem(), seq![], store.log)
}

/// The store is opened again: the manifest, the live runs and the log stay as they are, and
/// so do the sidecars of the live runs that can be used.
pub open spec fn reopens(before: State, after: State) -> bool {
    &&& opened_on(after.lsm, after.disk, before.store)
    &&& after.store.manifest == before.store.manifest
    &&& after.store.log == before.store.log
    &&& forall|i: int|
        0 <= i < after.lsm.live().len() ==> {
            let name = (#[trigger] after.lsm.live()[i]).label();
            let sidecar = recovery::held(after.store.files, bloom::sidecar_name(name));
            &&& recovery::held(after.store.files, name) == recovery::held(before.store.files, name)
            &&& sidecar is None || sidecar == recovery::held(
                before.store.files,
                bloom::sidecar_name(name),
            )
        }
}

/// What opening leaves of a directory: the manifest, the log and the files of the runs that
/// the manifest lists as they were, and their sidecars unless they were of no use.
pub open spec fn untouched(was: Store, now: Store) -> bool {
    &&& now.manifest == was.manifest
    &&& now.log == was.log
    &&& forall|i: int|
        0 <= i < was.listed().runs.len() ==> {
            let name = #[trigger] was.listed().runs[i];
            let sidecar = recovery::held(now.files, bloom::sidecar_name(name));
            &&& recovery::held(now.files, name) == recovery::held(was.files, name)
            &&& sidecar is None || sidecar == recovery::held(was.files, bloom::sidecar_name(name))
        }
}

/// An engine opened on a directory, and what opening leaves of it, are a reopening.
pub proof fn lemma_untouched(before: State, after: State)
    requires
        opened_on(after.lsm, after.disk, before.store),
        untouched(before.store, after.store),
    ensures
        reopens(before, after),
{
    assert forall|i: int| 0 <= i < after.lsm.live().len() implies {
        let name = (#[trigger] after.lsm.live()[i]).label();
        let sidecar = recovery::held(after.store.files, bloom::sidecar_name(name));
        &&& recovery::held(after.store.files, name) == recovery::held(before.store.files, name)
        &&& sidecar is None || sidecar == recovery::held(
            before.store.files,
            bloom::sidecar_name(name),
        )
    } by {
        assert(db::labels(after.lsm.live())[i] == before.store.listed().runs[i]);
    }
}

/// A flush is cut off once the manifest lists the new run, before the log is emptied, and
/// the store is opened again. `flushed` is what the flush would have come to.
pub open spec fn cuts_off(before: State, after: State, flushed: State) -> bool {
    &&& flushes(before, flushed)
    &&& reopens(with_log(flushed, before.store.log), after)
}

/// A state with these records in its log.
pub open spec fn with_log(state: State, log: Seq<Seq<u8>>) -> State {
    State {
        lsm: state.lsm,
        disk: state.disk,
        store: Store { manifest: state.store.manifest, files: state.store.files, log },
    }
}

/// One step of a store.
pub enum Step {
    /// A group of writes.
    Write(Seq<Entry>),
    /// A flush of a buffer that is not empty.
    Flush,
    /// The begin of a compaction.
    Begin,
    /// The end of a compaction: the runs flushed meanwhile, the runs that were merged, and
    /// what they were merged to.
    Compact(Seq<Arc<SsTable>>, Seq<Arc<SsTable>>, Seq<Pair>),
    /// A reopening, after a clean end or after a crash that left no more than files that
    /// the manifest does not list.
    Reopen,
    /// A crash between the two last parts of a flush, and a reopening.
    CutOff(State),
}

/// What a step does.
pub open spec fn steps_to(before: State, after: State, step: Step) -> bool {
    match step {
        Step::Write(ops) => writes(before, after, ops),
        Step::Flush => flushes(before, after),
        Step::Begin => begins(before, after),
        Step::Compact(newer, inputs, pairs) => compacts(before, after, newer, inputs, pairs),
        Step::Reopen => reopens(before, after),
        Step::CutOff(flushed) => cuts_off(before, after, flushed),
    }
}

/// The writes of a step.
pub open spec fn ops_of(step: Step) -> Seq<Entry> {
    match step {
        Step::Write(ops) => ops,
        _ => seq![],
    }
}

/// The writes of some steps, in order.
pub open spec fn all_ops(steps: Seq<Step>) -> Seq<Entry>
    decreases steps.len(),
{
    if steps.len() == 0 {
        seq![]
    } else {
        all_ops(steps.drop_last()) + ops_of(steps.last())
    }
}

/// The states that a store goes through by some steps, from a fresh one on.
pub open spec fn lived(states: Seq<State>, steps: Seq<Step>) -> bool {
    &&& states.len() == steps.len() + 1
    &&& states[0].fresh()
    &&& forall|i: int|
        0 <= i < steps.len() ==> steps_to(states[i], states[i + 1], #[trigger] steps[i])
}

/// What some writes, on an empty store, leave under `key`.
pub open spec fn left_by(ops: Seq<Entry>, key: Seq<u8>) -> Option<Seq<u8>> {
    model::live(memtable::last_write(ops, key))
}

/// Names given out for different sequence numbers differ, and no run is named like a
/// sidecar.
proof fn lemma_names_apart(a: u64, b: u64)
    ensures
        manifest::run_name(a) != bloom::sidecar_name(manifest::run_name(b)),
        a != b ==> manifest::run_name(a) != manifest::run_name(b) && bloom::sidecar_name(
            manifest::run_name(a),
        ) != bloom::sidecar_name(manifest::run_name(b)),
{
    reveal_strlit(".bloom");
    reveal_strlit(".sst");
    let (x, y) = (manifest::run_name(a), manifest::run_name(b));
    let (s, t) = (bloom::sidecar_name(x), bloom::sidecar_name(y));
    assert(x.last() == ".sst"@[3]);
    assert(t.last() == ".bloom"@[5]);
    if a != b {
        if x == y {
            manifest::lemma_run_name_injective(a, b);
        }
        if s == t {
            assert(s.take(s.len() - 6) =~= x);
            assert(t.take(t.len() - 6) =~= y);
            manifest::lemma_run_name_injective(a, b);
        }
    }
}

/// A run that stands still does when the directory changes elsewhere and the manifest moves
/// on.
proof fn lemma_run_still_stands(
    run: Arc<SsTable>,
    image: Seq<u8>,
    was: Map<Seq<char>, Seq<u8>>,
    now: Map<Seq<char>, Seq<u8>>,
    old_seq: u64,
    new_seq: u64,
)
    requires
        run_stands(*run, image, was, old_seq),
        old_seq <= new_seq,
        same_run(was, now, run.label()),
    ensures
        run_stands(*run, image, now, new_seq),
{
}

/// A run that was just written stands.
proof fn lemma_new_run_stands(
    run: Arc<SsTable>,
    es: Seq<Entry>,
    files: Map<Seq<char>, Seq<u8>>,
    next_seq: u64,
)
    requires
        written_from(*run, es),
        holds_run(files, run.label(), es),
        named_before(run.label(), next_seq),
    ensures
        run_stands(*run, layout::run_bytes(es), files, next_seq),
{
    let image = layout::run_bytes(es);
    match recovery::held(files, bloom::sidecar_name(run.label())) {
        None => {},
        Some(sidecar) => {
            let f = choose|f: RunFilter|
                db::sidecar_bytes(f, sidecar) && f.wf() && crate::flush::admits_all(Some(f), es);
            f.lemma_sidecar();
            assert forall|key: Seq<u8>| #[trigger]
                model::mentions(sstable::contents(run@, image), key) implies f.admitted().contains(
                key,
            ) by {
                let i = model::position(es, key);
                assert(es[i].0 == key);
            }
        },
    }
}

/// A manifest that lists runs given out before `next_seq` is read back.
proof fn lemma_list_reads_back(runs: Seq<Arc<SsTable>>, next_seq: u64)
    requires
        forall|i: int|
            0 <= i < runs.len() ==> named_before((#[trigger] runs[i]).label(), next_seq),
    ensures
        manifest::manifest_of(
            manifest::manifest_text(RunList { next_seq, runs: db::labels(runs) }),
        ) == Ok::<RunList, Error>(RunList { next_seq, runs: db::labels(runs) }),
{
    let list = RunList { next_seq, runs: db::labels(runs) };
    assert forall|i: int| 0 <= i < list.runs.len() implies manifest::line_safe(
        #[trigger] list.runs[i],
    ) by {
        assert(named_before(runs[i].label(), next_seq));
        manifest::lemma_run_name_safe(manifest::seq_in(runs[i].label())->0);
    }
    manifest::lemma_manifest_roundtrip(list);
}

/// What a group of writes does to a state that stands.
proof fn lemma_writes(before: State, after: State, ops: Seq<Entry>, key: Seq<u8>)
    requires
        before.stands(),
        writes(before, after, ops),
    ensures
        after.stands(),
        after.sees(key) == (match memtable::last_write(ops, key) {
            Some(record) => record,
            None => before.sees(key),
        }),
{
    let record = durability::encode_log(ops);
    durability::lemma_log_roundtrip(ops);
    durability::lemma_replayed_push(
        seq![],
        before.lsm.mem(),
        after.lsm.mem(),
        before.store.log,
        record,
    );
    assert(after.store.listed() == before.store.listed());
    laws::law_read_your_batch(
        after.lsm.mem(),
        before.lsm.mem(),
        before.lsm.live(),
        before.disk,
        ops,
        key,
    );
}

/// What a flush does to a state that stands.
proof fn lemma_flushes(before: State, after: State, key: Seq<u8>)
    requires
        before.stands(),
        flushes(before, after),
    ensures
        after.stands(),
        after.sees(key) == before.sees(key),
{
    let es = before.lsm.mem();
    let id = before.lsm.next_run();
    let seq = before.lsm.seq();
    let name = manifest::run_name(seq);
    let old = before.lsm.live();
    let live = after.lsm.live();
    let next = after.lsm.seq();
    before.lsm.lemma_wf();
    manifest::lemma_run_name_roundtrip(seq);
    lemma_new_run_stands(live[0], es, after.store.files, next);
    assert forall|i: int| 0 <= i < live.len() implies run_stands(
        *#[trigger] live[i],
        after.disk[live[i].id()],
        after.store.files,
        next,
    ) by {
        if i > 0 {
            assert(live.skip(1)[i - 1] == live[i]);
            let run = old[i - 1];
            assert(run.id() < id);
            assert(run_stands(
                *run,
                before.disk[run.id()],
                before.store.files,
                before.store.listed().next_seq,
            ));
            let s = manifest::seq_in(run.label())->0;
            lemma_names_apart(s, seq);
            lemma_names_apart(seq, s);
            lemma_run_still_stands(
                run,
                before.disk[run.id()],
                before.store.files,
                after.store.files,
                before.store.listed().next_seq,
                next,
            );
        }
    }
    lemma_list_reads_back(live, next);
    assert(durability::logged_ops(after.store.log) =~= seq![]);
    assert(durability::replayed(after.lsm.mem(), seq![], after.store.log));
    // What is read is what it was, one source further down.
    let now = merge::run_contents(live, after.disk);
    let was = merge::run_contents(old, before.disk);
    assert(now =~= seq![es] + was) by {
        assert forall|i: int| 0 <= i < now.len() implies now[i] == (seq![es] + was)[i] by {
            if i > 0 {
                assert(live.skip(1)[i - 1] == live[i]);
                assert(old[i - 1].id() < id);
            }
        }
        assert(live.skip(1).len() == live.len() - 1);
    }
    db::lemma_mem_first(after.lsm.mem(), live, after.disk, key);
    model::lemma_find_absent(after.lsm.mem(), key);
    db::lemma_mem_first(es, old, before.disk, key);
    model::lemma_newest_concat(seq![es], was, key);
    model::lemma_newest_single(es, key);
}

/// What a compaction does to a state that stands.
proof fn lemma_compacts(
    before: State,
    after: State,
    newer: Seq<Arc<SsTable>>,
    inputs: Seq<Arc<SsTable>>,
    pairs: Seq<Pair>,
    key: Seq<u8>,
)
    requires
        before.stands(),
        compacts(before, after, newer, inputs, pairs),
    ensures
        after.stands(),
        after.sees(key) == before.sees(key),
{
    let es = model::pair_entries(pairs);
    let old = before.lsm.live();
    let live = after.lsm.live();
    let out = live.last();
    let next = after.lsm.seq();
    lemma_new_run_stands(out, es, after.store.files, next);
    assert forall|i: int| 0 <= i < live.len() implies run_stands(
        *#[trigger] live[i],
        after.disk[live[i].id()],
        after.store.files,
        next,
    ) by {
        if i < newer.len() {
            assert(live.drop_last()[i] == newer[i]);
            assert(old[i] == newer[i]);
            assert(old[i].id() != out.id());
            lemma_run_still_stands(
                newer[i],
                before.disk[newer[i].id()],
                before.store.files,
                after.store.files,
                before.store.listed().next_seq,
                next,
            );
        } else {
            assert(live[i] == out);
        }
    }
    lemma_list_reads_back(live, next);
    // With the output in place, the runs are read as before.
    let disk = after.disk;
    assert forall|i: int| 0 <= i < old.len() implies disk[(#[trigger] old[i]).id()]
        == before.disk[old[i].id()] by {
        assert(old[i].id() != out.id());
    }
    assert(merge::run_contents(old, disk) =~= merge::run_contents(old, before.disk));
    assert(merge::run_contents(inputs, disk) =~= merge::run_contents(inputs, before.disk)) by {
        assert forall|i: int| 0 <= i < inputs.len() implies merge::run_contents(inputs, disk)[i]
            == merge::run_contents(inputs, before.disk)[i] by {
            assert(old[newer.len() + i] == inputs[i]);
        }
    }
    assert(live =~= newer + seq![out]);
    laws::lemma_merged_in_place(before.lsm.mem(), newer, inputs, seq![out], pairs, disk, key);
}

/// What a reopening does to runs that stand.
proof fn lemma_reopened_runs(before: State, after: State)
    requires
        before.runs_stand(),
        reopens(before, after),
    ensures
        after.runs_stand(),
        merge::run_contents(after.lsm.live(), after.disk) == merge::run_contents(
            before.lsm.live(),
            before.disk,
        ),
{
    let old = before.lsm.live();
    let live = after.lsm.live();
    let next = before.store.listed().next_seq;
    assert(after.store.listed() == before.store.listed());
    assert(db::labels(old).len() == db::labels(live).len());
    assert forall|i: int| 0 <= i < live.len() implies run_stands(
        *#[trigger] live[i],
        after.disk[live[i].id()],
        after.store.files,
        next,
    ) && after.disk[live[i].id()] == before.disk[old[i].id()] && live[i]@ == old[i]@ by {
        assert(db::labels(old)[i] == db::labels(live)[i]);
        let run = old[i];
        let image = before.disk[run.id()];
        assert(run_stands(*run, image, before.store.files, next));
        let sidecar = recovery::held(before.store.files, bloom::sidecar_name(run.label()));
        if live[i].filtered() is Some {
            let loaded = live[i].filtered()->0;
            assert(sidecar_covers(sidecar->0, run@, image));
            let f = choose|f: RunFilter|
                #![trigger f.admitted()]
                f.parts() == bloom::loaded(bloom::payload_of(sidecar->0)->0)->0 && forall|
                    key: Seq<u8>,
                | #[trigger]
                    model::mentions(sstable::contents(run@, image), key) ==> f.admitted().contains(
                        key,
                    );
            assert(f.admitted() == loaded.admitted());
        }
        assert(live[i].covered(image));
    }
    assert(merge::run_contents(live, after.disk) =~= merge::run_contents(old, before.disk));
}

/// What a reopening does to a state that stands.
proof fn lemma_reopens(before: State, after: State, key: Seq<u8>)
    requires
        before.stands(),
        reopens(before, after),
    ensures
        after.stands(),
        after.sees(key) == before.sees(key),
{
    lemma_reopened_runs(before, after);
    laws::law_replay_redoes(
        before.lsm.mem(),
        after.lsm.mem(),
        seq![],
        durability::logged_ops(before.store.log),
    );
}

/// What a flush that is cut off does to a state that stands: the log is replayed over the
/// run that holds the same.
proof fn lemma_cuts_off(before: State, after: State, flushed: State, key: Seq<u8>)
    requires
        before.stands(),
        cuts_off(before, after, flushed),
    ensures
        after.stands(),
        after.sees(key) == before.sees(key),
{
    let es = before.lsm.mem();
    let ops = durability::logged_ops(before.store.log);
    lemma_flushes(before, flushed, key);
    let found = with_log(flushed, before.store.log);
    assert(found.store.listed() == flushed.store.listed());
    lemma_reopened_runs(found, after);
    laws::law_replay_redoes(es, after.lsm.mem(), seq![], ops);
    db::lemma_mem_first(es, after.lsm.live(), after.disk, key);
    db::lemma_mem_first(es, before.lsm.live(), before.disk, key);
    db::lemma_mem_first(flushed.lsm.mem(), flushed.lsm.live(), flushed.disk, key);
    model::lemma_find_absent(flushed.lsm.mem(), key);
}

/// Every step keeps what the directory holds in line with the engine, and changes nothing
/// that a reader sees but what it writes. So a flush, a compaction with runs flushed
/// meanwhile and a reopening, whether the log was emptied before it or not, show what was
/// there.
pub proof fn law_steps_show_the_writes(before: State, after: State, step: Step, key: Seq<u8>)
    requires
        before.stands(),
        steps_to(before, after, step),
    ensures
        after.stands(),
        after.sees(key) == (match memtable::last_write(ops_of(step), key) {
            Some(record) => record,
            None => before.sees(key),
        }),
{
    match step {
        Step::Write(ops) => {
            lemma_writes(before, after, ops, key);
        },
        Step::Flush => {
            lemma_flushes(before, after, key);
        },
        Step::Begin => {},
        Step::Compact(newer, inputs, pairs) => {
            lemma_compacts(before, after, newer, inputs, pairs, key);
        },
        Step::Reopen => {
            lemma_reopens(before, after, key);
        },
        Step::CutOff(flushed) => {
            lemma_cuts_off(before, after, flushed, key);
        },
    }
}

/// Whatever a store went through, a reader sees under every key what the last write to it
/// left, and nothing under a key that was never written or was deleted last. The filters
/// admit every key that their runs hold, and no block of a live run is damaged, so that no
/// lookup is answered short.
pub proof fn law_reads_show_the_history(states: Seq<State>, steps: Seq<Step>, key: Seq<u8>)
    requires
        lived(states, steps),
    ensures
        states.last().stands(),
        states.last().sees(key) == left_by(all_ops(steps), key),
        db::all_covered(states.last().lsm.live(), states.last().disk),
        compact::inputs_intact(states.last().lsm.live(), states.last().disk),
    decreases steps.len(),
{
    let last = states.last();
    if steps.len() == 0 {
        assert(last == states[0]);
        assert(durability::logged_ops(last.store.log) =~= seq![]);
        assert(last.store.listed().runs =~= db::labels(last.lsm.live()));
        db::lemma_mem_first(last.lsm.mem(), last.lsm.live(), last.disk, key);
        model::lemma_find_absent(last.lsm.mem(), key);
        assert(merge::run_contents(last.lsm.live(), last.disk) =~= seq![]);
    } else {
        let n = steps.len() as int;
        let (earlier, done) = (states.drop_last(), steps.drop_last());
        assert forall|i: int| 0 <= i < done.len() implies steps_to(
            earlier[i],
            earlier[i + 1],
            #[trigger] done[i],
        ) by {
            assert(steps[i] == done[i]);
        }
        law_reads_show_the_history(earlier, done, key);
        assert(steps_to(states[n - 1], states[n], steps[n - 1]));
        assert(earlier.last() == states[n - 1]);
        law_steps_show_the_writes(states[n - 1], states[n], steps[n - 1], key);
        memtable::lemma_last_write_concat(all_ops(done), ops_of(steps[n - 1]), key);
    }
    assert forall|i: int| 0 <= i < last.lsm.live().len() implies (
    #[trigger] last.lsm.live()[i]).covered(last.disk[last.lsm.live()[i].id()]) && sstable::intact(
        last.lsm.live()[i]@,
        last.disk[last.lsm.live()[i].id()],
    ) by {
        assert(run_stands(
            *last.lsm.live()[i],
            last.disk[last.lsm.live()[i].id()],
            last.store.files,
            last.store.listed().next_seq,
        ));
    }
}

/// Whatever a store went through, a scan lists just the pairs of its range that the writes
/// left.
pub proof fn law_scans_show_the_history(
    states: Seq<State>,
    steps: Seq<Step>,
    range: KeyRange,
    pairs: Seq<Pair>,
    key: Seq<u8>,
    value: Seq<u8>,
)
    requires
        lived(states, steps),
        model::lists(
            pairs,
            states.last().lsm.sources(states.last().disk),
            |k: Seq<u8>| range.contains(k),
        ),
    ensures
        pairs.contains((key, value)) <==> range.contains(key) && left_by(all_ops(steps), key)
            == Some(value),
{
    law_reads_show_the_history(states, steps, key);
    laws::law_scan_agrees_with_get(
        pairs,
        states.last().lsm.sources(states.last().disk),
        range,
        key,
        value,
    );
}

/// What a reader sees under `key` once a group of writes is applied to what `before` shows.
pub open spec fn sees_with(before: State, ops: Seq<Entry>, key: Seq<u8>) -> Option<Seq<u8>> {
    match memtable::last_write(ops, key) {
        Some(record) => record,
        None => before.sees(key),
    }
}

/// A batch is seen whole or not at all: a scan works on a snapshot that was taken of one
/// state, either before the batch or after it, and lists what that state shows, whatever
/// happens to the engine meanwhile. If the snapshot is the earlier one, no operation of the
/// batch shows; if it is the later one, every one does, as if they were applied one by one.
pub proof fn law_a_scan_sees_a_batch_whole(
    before: State,
    after: State,
    ops: Seq<Entry>,
    seen: State,
    range: KeyRange,
    pairs: Seq<Pair>,
)
    requires
        memtable::applied_all(after.lsm.mem(), before.lsm.mem(), ops),
        after.lsm.live() == before.lsm.live(),
        after.disk == before.disk,
        seen == before || seen == after,
        model::lists(pairs, seen.lsm.sources(seen.disk), |k: Seq<u8>| range.contains(k)),
    ensures
        (forall|key: Seq<u8>, value: Seq<u8>| #[trigger]
            pairs.contains((key, value)) <==> range.contains(key) && before.sees(key) == Some(
                value,
            )) || (forall|key: Seq<u8>, value: Seq<u8>| #[trigger]
            pairs.contains((key, value)) <==> range.contains(key) && sees_with(before, ops, key)
                == Some(value)),
{
    assert forall|key: Seq<u8>, value: Seq<u8>| #[trigger]
        pairs.contains((key, value)) <==> range.contains(key) && seen.sees(key) == Some(value) by {
        laws::law_scan_agrees_with_get(
            pairs,
            seen.lsm.sources(seen.disk),
            range,
            key,
            value,
        );
    }
    assert forall|key: Seq<u8>| #[trigger] after.sees(key) == sees_with(before, ops, key) by {
        laws::law_read_your_batch(
            after.lsm.mem(),
            before.lsm.mem(),
            before.lsm.live(),
            before.disk,
            ops,
            key,
        );
    }
}

/// A flush that succeeds is the step of that name, if the directory did what it was told:
/// the run and its sidecar are in it, the manifest is the one it was handed, and the log is
/// empty.
pub proof fn law_flush_is_a_step<P, A, R, M, T>(
    before: State,
    after: State,
    dimensions: Option<(u64, u32)>,
    persist: P,
    attach: A,
    read: R,
    store: M,
    rotate: T,
    done: Result<bool>,
) where
    P: FnOnce(u64, String, Vec<u8>) -> Result<()>,
    A: FnOnce(String, Vec<u8>) -> Result<()>,
    R: Fn(u64, u64, usize) -> std::result::Result<Vec<u8>, std::io::Error>,
    M: FnOnce(String) -> Result<()>,
    T: FnOnce() -> Result<()>,

    requires
        after.lsm.wf(),
        before.lsm.mem().len() > 0,
        before.lsm.seq() < u64::MAX,
        db::flush_outcome(
            before.lsm,
            after.lsm,
            dimensions,
            persist,
            attach,
            read,
            store,
            rotate,
            done,
        ),
        done is Ok,
        merge::reads_disk(read, after.disk),
        after.disk == before.disk.insert(
            before.lsm.next_run(),
            layout::run_bytes(before.lsm.mem()),
        ),
        same_but_run(
            before.store.files,
            after.store.files,
            manifest::run_name(before.lsm.seq()),
        ),
        holds_run(
            after.store.files,
            manifest::run_name(before.lsm.seq()),
            before.lsm.mem(),
        ),
        after.store.manifest == Some(
            manifest::manifest_text(
                RunList { next_seq: after.lsm.seq(), runs: db::labels(after.lsm.live()) },
            ),
        ),
        after.store.log == Seq::<Seq<u8>>::empty(),
    ensures
        steps_to(before, after, Step::Flush),
{
    let (was, now) = (before.lsm, after.lsm);
    let es = was.mem();
    let id = was.next_run();
    let table = choose|table: SsTable| #[trigger]
        db::fronted(table, was.live(), now.live()) && table.wf() && table.id() == id
            && table.label() == manifest::run_name(was.seq()) && crate::flush::admits_all(
            table.filtered(),
            es,
        );
    assert(now.live() != was.live());
    assert(after.disk[id] == layout::run_bytes(es));
    let contents = merge::run_contents(now.live(), after.disk);
    assert(contents[0] == (seq![es] + merge::run_contents(was.live(), after.disk))[0]);
    assert(contents[0] == sstable::contents(now.live()[0]@, after.disk[id]));
}

/// Opening a store, from its manifest to the end, gives an engine opened on its directory,
/// if the functions told what the directory holds.
pub proof fn law_opening_is_opening_on<F, S, R, L, D, G>(
    store: Store,
    content: Option<&str>,
    settings: Settings,
    start: Recovery,
    lsm: Lsm,
    found: F,
    sidecar: S,
    read: R,
    listing: L,
    discard: D,
    log: G,
    disk: Map<u64, Seq<u8>>,
) where
    F: Fn(u64, String) -> Result<Option<u64>>,
    S: Fn(String) -> Result<Option<Vec<u8>>>,
    R: Fn(u64, u64, usize) -> std::result::Result<Vec<u8>, std::io::Error>,
    L: FnOnce() -> Result<Vec<String>>,
    D: Fn(String, Verdict) -> Result<()>,
    G: FnOnce() -> Result<Vec<Vec<u8>>>,

    requires
        store.manifest == (match content {
            Some(text) => Some(text@),
            None => None,
        }),
        recovery::opening(content, settings, Ok(start)),
        lsm.wf(),
        recovery::completed(start, lsm, listing, discard, log),
        recovery::faithful(found, sidecar, read, start.names(), store.files),
        forall|i: int|
            0 <= i < lsm.live().len() ==> recovery::run_in(
                store.files,
                start.names()[i],
                *#[trigger] lsm.live()[i],
            ),
        forall|records: Vec<Vec<u8>>| #[trigger]
            call_ensures(log, (), Ok::<Vec<Vec<u8>>, Error>(records)) ==> recovery::records_of(
                records@,
            ) == store.log,
        forall|i: int|
            0 <= i < start.names().len() ==> disk[i as u64]
                == store.files[#[trigger] start.names()[i]],
    ensures
        opened_on(lsm, disk, store),
{
    assert(store.listed() == RunList { next_seq: start.seq(), runs: start.names() });
    assert forall|i: int| 0 <= i < lsm.live().len() implies (#[trigger] lsm.live()[i]).label()
        == start.names()[i] by {
        assert(db::labels(lsm.live())[i] == start.names()[i]);
    }
}

/// Files that the manifest does not list make no difference to opening. So after a flush or a
/// compaction that failed, or was cut off, before the manifest was replaced, the store opens
/// as if it had not been begun.
pub proof fn law_stray_files_make_no_difference(
    lsm: Lsm,
    disk: Map<u64, Seq<u8>>,
    store: Store,
    cluttered: Store,
)
    requires
        cluttered.manifest == store.manifest,
        cluttered.log == store.log,
        forall|i: int|
            0 <= i < store.listed().runs.len() ==> store.files.contains_key(
                #[trigger] store.listed().runs[i],
            ) && same_run(store.files, cluttered.files, store.listed().runs[i]),
        opened_on(lsm, disk, cluttered),
    ensures
        opened_on(lsm, disk, store),
{
    assert forall|i: int| 0 <= i < lsm.live().len() implies {
        &&& (#[trigger] lsm.live()[i]).id() == i
        &&& recovery::run_in(store.files, lsm.live()[i].label(), *lsm.live()[i])
        &&& disk[i as u64] == store.files[lsm.live()[i].label()]
    } by {
        let name = store.listed().runs[i];
        assert(db::labels(lsm.live())[i] == name);
        assert(recovery::held(cluttered.files, name) == recovery::held(store.files, name));
    }
}

/// A directory that holds no manifest and no log opens as a fresh store.
pub proof fn law_an_empty_directory_opens_fresh(state: State)
    requires
        state.store.manifest is None,
        state.store.log == Seq::<Seq<u8>>::empty(),
        opened_on(state.lsm, state.disk, state.store),
    ensures
        state.fresh(),
{
    let mem = state.lsm.mem();
    assert(durability::logged_ops(state.store.log) =~= seq![]);
    assert forall|k: Seq<u8>| #![trigger model::find(mem, k)]
        model::find(mem, k) == model::find(seq![], k) by {}
    model::lemma_same_contents(mem, seq![]);
    assert(db::labels(state.lsm.live()).len() == 0);
    assert(state.lsm.live() =~= seq![]);
}

/// A group of writes that the log accepted is the step of that name: `put` and `delete` write
/// groups of one.
pub proof fn law_write_is_a_step(before: State, after: State, ops: Seq<Entry>)
    requires
        after.lsm.wf(),
        after.lsm.same_but_mem(before.lsm),
        memtable::applied_all(after.lsm.mem(), before.lsm.mem(), ops) || (ops.len() == 1
            && memtable::applied(after.lsm.mem(), before.lsm.mem(), ops[0].0, ops[0].1)),
        laws::logged_as(durability::encode_log(ops), ops),
        after.disk == before.disk,
        after.store == (Store {
            manifest: before.store.manifest,
            files: before.store.files,
            log: before.store.log.push(durability::encode_log(ops)),
        }),
    ensures
        steps_to(before, after, Step::Write(ops)),
{
    if ops.len() == 1 {
        assert(ops =~= seq![(ops[0].0, ops[0].1)]);
        laws::law_single_is_group(after.lsm.mem(), before.lsm.mem(), ops[0].0, ops[0].1);
    }
}

/// A compaction that is installed is the step of that name, if the directory did what it
/// was told: the output and its sidecar are in it, the files of the runs flushed meanwhile
/// are as they were, and the manifest is the one it was handed.
pub proof fn law_compaction_is_a_step(
    before: State,
    after: State,
    newer: Seq<Arc<SsTable>>,
    inputs: Seq<Arc<SsTable>>,
    output: SsTable,
    pairs: Seq<Pair>,
)
    requires
        before.lsm.wf(),
        after.lsm.wf(),
        before.lsm.live() == newer + inputs,
        after.lsm.mem() == before.lsm.mem(),
        after.lsm.seq() == before.lsm.seq(),
        after.lsm.live().len() == db::survivors(before.lsm.live(), inputs).len() + 1,
        after.lsm.live().drop_last() == db::survivors(before.lsm.live(), inputs),
        *after.lsm.live().last() == output,
        model::lists(pairs, compact::inputs_of(inputs, before.disk), compact::every_key()),
        named_before(output.label(), before.lsm.seq()),
        !db::labels(newer).contains(output.label()),
        !db::has_id(before.lsm.live(), output.id()),
        written_from(output, model::pair_entries(pairs)),
        after.disk == before.disk.insert(
            output.id(),
            layout::run_bytes(model::pair_entries(pairs)),
        ),
        holds_run(after.store.files, output.label(), model::pair_entries(pairs)),
        forall|i: int|
            0 <= i < newer.len() ==> same_run(
                before.store.files,
                after.store.files,
                (#[trigger] newer[i]).label(),
            ),
        after.store.manifest == Some(
            manifest::manifest_text(
                RunList {
                    next_seq: before.lsm.seq(),
                    runs: db::labels(db::survivors(before.lsm.live(), inputs)).push(
                        output.label(),
                    ),
                },
            ),
        ),
        after.store.log == before.store.log,
    ensures
        steps_to(before, after, Step::Compact(newer, inputs, pairs)),
{
    before.lsm.lemma_wf();
    assert(inputs.take(inputs.len() as int) =~= inputs);
    db::lemma_survivors_newer(newer, inputs, inputs.len() as int);
    let live = after.lsm.live();
    assert(db::labels(live) =~= db::labels(newer).push(output.label())) by {
        assert forall|i: int| 0 <= i < newer.len() implies db::labels(live)[i] == db::labels(
            newer,
        )[i] by {
            assert(live.drop_last()[i] == newer[i]);
        }
    }
}

} // verus!
