//! Opening a store.
//!
//! Opening is a sequence of steps around file operations. The manifest says which runs are
//! live; they are opened in order. Every file in the directory is then judged: temporary
//! files, and runs and sidecars that the manifest does not name, are left over from an
//! interrupted flush or compaction and have to go. Last, the log is replayed into a fresh
//! write buffer.
use std::sync::Arc;
use vstd::prelude::*;
use crate::bloom;
use crate::bloom::RunFilter;
use crate::config;
use crate::config::{LsmConfig, Settings};
use crate::db;
use crate::db::Lsm;
use crate::durability;
use crate::error::{Error, Result};
use crate::manifest;
use crate::manifest::{Manifest, RunList};
use crate::memtable;
use crate::memtable::MemTable;
use crate::model;
use crate::record::Entry;
use crate::sstable;
use crate::sstable::{SsTable, Table};
use crate::text;

verus! {

/// What is to become of a file found in the store's directory.
#[derive(Clone, Copy, Debug, PartialEq, Eq, Structural)]
pub enum Verdict {
    /// The file stays.
    Keep,
    /// A temporary file, to be removed.
    Temporary,
    /// A sidecar whose run is not live, to be removed.
    OrphanSidecar,
    /// A run that is not live, to be removed.
    OrphanRun,
}

/// What is to become of a file, given the names of the live runs.
pub open spec fn verdict_of(live: Seq<Seq<char>>, name: Seq<char>) -> Verdict {
    if text::ends_with(name, ".tmp"@) {
        Verdict::Temporary
    } else {
        match text::without_suffix(name, ".bloom"@) {
            Some(run) => if live.contains(run) {
                Verdict::Keep
            } else {
                Verdict::OrphanSidecar
            },
            None => if manifest::seq_in(name) is Some && !live.contains(name) {
                Verdict::OrphanRun
            } else {
                Verdict::Keep
            },
        }
    }
}

/// The sequence number that a file in the directory takes: that of a run file, live or
/// not.
pub open spec fn seq_taken(name: Seq<char>) -> Option<u64> {
    if text::ends_with(name, ".tmp"@) || text::ends_with(name, ".bloom"@) {
        None
    } else {
        manifest::seq_in(name)
    }
}

/// Whether the name is one of the list.
fn is_listed(names: &Vec<String>, name: &Vec<char>) -> (yes: bool)
    ensures
        yes == manifest::names(names@).contains(name@),
{
    let mut i: usize = 0;
    while i < names.len()
        invariant
            i <= names@.len(),
            forall|k: int| 0 <= k < i ==> (#[trigger] manifest::names(names@)[k]) != name@,
        decreases names@.len() - i,
    {
        assert(manifest::names(names@)[i as int] == names@[i as int]@);
        if text::is_text(name, names[i].as_str()) {
            return true;
        }
        i += 1;
    }
    proof {
        if manifest::names(names@).contains(name@) {
            let k = choose|k: int|
                0 <= k < manifest::names(names@).len() && manifest::names(names@)[k] == name@;
            assert(manifest::names(names@)[k] != name@);
        }
    }
    false
}

/// A store being opened.
#[derive(Debug)]
pub struct Recovery {
    config: LsmConfig,
    names: Vec<String>,
    runs: Vec<Arc<SsTable>>,
    next_seq: u64,
    memtable: MemTable,
}

/// The sidecar is damaged, or does not hold a filter that can be probed.
pub open spec fn unusable(sidecar: Seq<u8>) -> bool {
    bloom::payload_of(sidecar) is None || bloom::loaded(bloom::payload_of(sidecar)->0) is None
}

/// Which of a run's parts a sidecar was good for.
pub open spec fn filter_of(sidecar: Option<Seq<u8>>, filter: Option<RunFilter>) -> bool {
    match filter {
        Some(f) => {
            &&& f.wf()
            &&& sidecar is Some
            &&& bloom::payload_of(sidecar->0) matches Some(p) && bloom::loaded(p) == Some(f.parts())
            &&& forall|g: RunFilter|
                #![trigger g.admitted()]
                g.parts() == f.parts() ==> g.admitted() == f.admitted()
        },
        None => sidecar matches Some(bytes) ==> unusable(bytes),
    }
}

impl Lsm {
    /// Starts opening a store with the default configuration.
    pub fn open(content: Option<&str>) -> (recovery: Result<Recovery>)
        ensures
            opening(content, config::default_settings(), recovery),
    {
        Lsm::open_with(content, LsmConfig::new())
    }

    /// Starts opening a store. `content` is the text of its manifest; a store that has
    /// none yet is empty.
    pub fn open_with(content: Option<&str>, config: LsmConfig) -> (recovery: Result<Recovery>)
        ensures
            opening(content, config@, recovery),
    {
        let (names, next_seq) = match Manifest::load(content) {
            Ok(Some(m)) => (m.runs, m.next_seq),
            Ok(None) => (Vec::new(), 0),
            Err(e) => {
                return Err(e);
            },
        };
        proof {
            if content is None {
                assert(manifest::names(names@) =~= seq![]);
            }
        }
        Ok(Recovery { config, names, runs: Vec::new(), next_seq, memtable: MemTable::new() })
    }
}

/// What opening starts with: the runs and the sequence number that the manifest names, or
/// nothing; no run opened and nothing replayed yet.
pub open spec fn opening(
    content: Option<&str>,
    settings: Settings,
    recovery: Result<Recovery>,
) -> bool {
    match recovery {
        Ok(r) => {
            &&& r.wf()
            &&& r.settings() == settings
            &&& r.opened() == Seq::<Arc<SsTable>>::empty()
            &&& r.mem() == Seq::<Entry>::empty()
            &&& match content {
                None => r.names() == Seq::<Seq<char>>::empty() && r.seq() == 0,
                Some(t) => manifest::manifest_of(t@) == Ok::<RunList, Error>(
                    RunList { next_seq: r.seq(), runs: r.names() },
                ),
            }
        },
        Err(e) => content matches Some(t) && manifest::manifest_of(t@) == Err::<RunList, Error>(e),
    }
}

impl Recovery {
    /// The names of the live runs, newest first.
    pub closed spec fn names(&self) -> Seq<Seq<char>> {
        manifest::names(self.names@)
    }

    /// The runs opened so far, in order.
    pub closed spec fn opened(&self) -> Seq<Arc<SsTable>> {
        self.runs@
    }

    /// The next run sequence number, as far as it is known.
    pub closed spec fn seq(&self) -> u64 {
        self.next_seq
    }

    /// What the log has been replayed to so far.
    pub closed spec fn mem(&self) -> Seq<Entry> {
        self.memtable@
    }

    /// The engine's settings.
    pub closed spec fn settings(&self) -> Settings {
        self.config@
    }

    /// The runs opened so far are the first ones named, each under its position as its
    /// identity.
    pub closed spec fn wf(&self) -> bool {
        &&& self.memtable.wf()
        &&& self.runs@.len() <= self.names@.len()
        &&& forall|i: int|
            0 <= i < self.runs@.len() ==> {
                &&& (#[trigger] self.runs@[i]).wf()
                &&& self.runs@[i].id() == i
                &&& self.runs@[i].label() == self.names@[i]@
            }
    }

    /// What the parts of a well-formed recovery are.
    pub proof fn lemma_wf(&self)
        requires
            self.wf(),
        ensures
            model::ascending(self.mem()),
            self.opened().len() <= self.names().len() <= usize::MAX,
            db::runs_ok(self.opened()),
            forall|i: int|
                0 <= i < self.opened().len() ==> (#[trigger] self.opened()[i]).id() == i
                    && self.opened()[i].label() == self.names()[i],
    {
        self.memtable.lemma_wf();
        assert(self.names().len() == self.names.len());
    }

    /// The run is the next one to open: under its position as its identity.
    pub open spec fn next_is(&self, table: SsTable) -> bool {
        &&& self.opened().len() < self.names().len()
        &&& table.wf()
        &&& table.id() == self.opened().len()
        &&& table.label() == self.names()[self.opened().len() as int]
    }

    /// The name of the next run to open, if there is one.
    pub fn pending(&self) -> (name: Option<String>)
        requires
            self.wf(),
        ensures
            match name {
                Some(n) => self.opened().len() < self.names().len() && n@
                    == self.names()[self.opened().len() as int],
                None => self.opened().len() == self.names().len(),
            },
    {
        let i: usize = self.runs.len();
        if i < self.names.len() {
            assert(self.names()[i as int] == self.names@[i as int]@);
            Some(self.names[i].clone())
        } else {
            None
        }
    }

    /// The identity that the next run is read under.
    pub fn pending_id(&self) -> (id: u64)
        ensures
            id == self.opened().len(),
    {
        self.runs.len() as u64
    }

    /// Opens the file of the next run. `found` is the file's length, or `None` if there is no
    /// such file.
    pub fn open_table<R>(&self, found: Option<u64>, read: &R) -> (table: Result<SsTable>) where
        R: Fn(u64, u64, usize) -> std::result::Result<Vec<u8>, std::io::Error>,

        requires
            self.wf(),
            self.opened().len() < self.names().len(),
            found is Some ==> sstable::total(*read),
        ensures
            match found {
                None => table == Err::<SsTable, Error>(
                    Error::Corruption { reason: "manifest references a missing run" },
                ),
                Some(len) => match table {
                    Ok(t) => {
                        &&& self.next_is(t)
                        &&& t.filtered() is None
                        &&& sstable::opens_to(*read, self.opened().len() as u64, len, Ok(t@))
                    },
                    Err(e) => sstable::opens_to(*read, self.opened().len() as u64, len, Err(e)),
                },
            },
            forall|image: Seq<u8>| #[trigger]
                sstable::reads_image(*read, self.opened().len() as u64, image) && found == Some(
                    image.len() as u64,
                ) && image.len() <= u64::MAX ==> match table {
                    Ok(t) => sstable::opened(image) == Ok::<Table, Error>(t@),
                    Err(e) => sstable::opened(image) == Err::<Table, Error>(e)
                        || crate::flush::open_fault(*read, self.opened().len() as u64, e),
                },
    {
        let file_len: u64 = match found {
            Some(n) => n,
            None => {
                return Err(Error::corruption("manifest references a missing run"));
            },
        };
        let i: usize = self.runs.len();
        assert(self.names()[i as int] == self.names@[i as int]@);
        SsTable::open(self.names[i].clone(), i as u64, file_len, read)
    }

    /// Takes the next run, once its file is open. `sidecar` is what its sidecar holds, if
    /// there is one. Returns whether the sidecar can stay; one that cannot be used is not.
    pub fn add_run(&mut self, table: SsTable, sidecar: Option<&[u8]>) -> (stays: bool)
        requires
            old(self).wf(),
            old(self).next_is(table),
        ensures
            final(self).wf(),
            final(self).names() == old(self).names(),
            final(self).seq() == old(self).seq(),
            final(self).mem() == old(self).mem(),
            final(self).settings() == old(self).settings(),
            final(self).opened().len() == old(self).opened().len() + 1,
            final(self).opened().drop_last() == old(self).opened(),
            ({
                let run = final(self).opened().last();
                let bytes = match sidecar {
                    Some(b) => Some(b@),
                    None => None,
                };
                &&& run@ == table@
                &&& filter_of(bytes, run.filtered())
                &&& stays == !(bytes matches Some(b) && unusable(b))
            }),
    {
        let ghost was = self.runs@;
        let filter = match sidecar {
            Some(bytes) => RunFilter::decode(bytes),
            None => None,
        };
        let stays = sidecar.is_none() || filter.is_some();
        let mut run = table;
        run.attach_filter(filter);
        self.runs.push(Arc::new(run));
        proof {
            assert(self.runs@.drop_last() =~= was);
            assert(self.names()[was.len() as int] == self.names@[was.len() as int]@);
        }
        stays
    }

    /// Judges a file found in the store's directory, and moves the next sequence number
    /// past that of any run file.
    pub fn sweep(&mut self, name: &str) -> (verdict: Verdict)
        requires
            old(self).wf(),
            seq_taken(name@) != Some(u64::MAX),
        ensures
            final(self).wf(),
            final(self).names() == old(self).names(),
            final(self).opened() == old(self).opened(),
            final(self).mem() == old(self).mem(),
            final(self).settings() == old(self).settings(),
            verdict == verdict_of(old(self).names(), name@),
            final(self).seq() == (match seq_taken(name@) {
                Some(seq) => if seq + 1 > old(self).seq() {
                    (seq + 1) as u64
                } else {
                    old(self).seq()
                },
                None => old(self).seq(),
            }),
    {
        let chars = text::chars_of(name);
        if text::strip_suffix(&chars, ".tmp").is_some() {
            return Verdict::Temporary;
        }
        match text::strip_suffix(&chars, ".bloom") {
            Some(run) => {
                if is_listed(&self.names, &run) {
                    Verdict::Keep
                } else {
                    Verdict::OrphanSidecar
                }
            },
            None => match manifest::seq_of(name) {
                Some(seq) => {
                    if seq + 1 > self.next_seq {
                        self.next_seq = seq + 1;
                    }
                    if is_listed(&self.names, &chars) {
                        Verdict::Keep
                    } else {
                        Verdict::OrphanRun
                    }
                },
                None => Verdict::Keep,
            },
        }
    }

    /// The bytes replayed so far.
    pub fn replayed_bytes(&self) -> (size: usize)
        requires
            self.wf(),
        ensures
            size == memtable::total_size(self.mem()),
    {
        self.memtable.approx_size()
    }

    /// Replays the next record of the log. A record that does not decode changes nothing.
    pub fn replay(&mut self, record: &[u8]) -> (done: Result<()>)
        requires
            old(self).wf(),
            memtable::total_size(old(self).mem()) + record@.len() <= usize::MAX,
        ensures
            final(self).wf(),
            final(self).names() == old(self).names(),
            final(self).opened() == old(self).opened(),
            final(self).seq() == old(self).seq(),
            final(self).settings() == old(self).settings(),
            match done {
                Ok(_) => durability::decoded_log(record@) matches Ok(ops)
                    && memtable::applied_all(final(self).mem(), old(self).mem(), ops),
                Err(e) => durability::decoded_log(record@) == Err::<Seq<Entry>, Error>(e)
                    && final(self).mem() == old(self).mem(),
            },
            memtable::total_size(final(self).mem()) <= memtable::total_size(old(self).mem())
                + record@.len(),
    {
        durability::replay(record, &mut self.memtable)
    }

    /// The opened engine, once every run is open. Its buffer holds what was replayed, to
    /// be flushed next.
    pub fn finish(self) -> (lsm: Lsm)
        requires
            self.wf(),
            self.opened().len() == self.names().len(),
        ensures
            lsm.wf(),
            lsm.settings() == self.settings(),
            lsm.mem() == self.mem(),
            lsm.live() == self.opened(),
            db::labels(lsm.live()) == self.names(),
            lsm.seq() == self.seq(),
            lsm.next_run() == self.opened().len(),
            !lsm.busy(),
    {
        proof {
            self.lemma_wf();
            assert(db::labels(self.opened()) =~= self.names());
        }
        let next_id: u64 = self.runs.len() as u64;
        Lsm::assemble(self.config, self.memtable, self.runs, self.next_seq, next_id)
    }
}

/// What some bytes, if there are any, are.
pub open spec fn bytes_of(bytes: Option<Vec<u8>>) -> Option<Seq<u8>> {
    match bytes {
        Some(b) => Some(b@),
        None => None,
    }
}

/// What the directory holds under a name.
pub open spec fn held(files: Map<Seq<char>, Seq<u8>>, name: Seq<char>) -> Option<Seq<u8>> {
    if files.contains_key(name) {
        Some(files[name])
    } else {
        None
    }
}

/// The functions tell what the directory holds: `found` the length of a run's file, or that
/// there is none; `sidecar` what is in a sidecar, if there is one; and `read`, of the run
/// that a name stands for at its position, what is in the file.
pub open spec fn faithful<F, S, R>(
    found: F,
    sidecar: S,
    read: R,
    names: Seq<Seq<char>>,
    files: Map<Seq<char>, Seq<u8>>,
) -> bool where
    F: Fn(u64, String) -> Result<Option<u64>>,
    S: Fn(String) -> Result<Option<Vec<u8>>>,
    R: Fn(u64, u64, usize) -> std::result::Result<Vec<u8>, std::io::Error>,
 {
    &&& forall|id: u64, name: String, len: Option<u64>|
        id < names.len() && name@ == names[id as int] && #[trigger] call_ensures(
            found,
            (id, name),
            Ok::<Option<u64>, Error>(len),
        ) ==> match len {
            Some(n) => files.contains_key(name@) && files[name@].len() == n,
            None => !files.contains_key(name@),
        }
    &&& forall|name: String, bytes: Option<Vec<u8>>| #[trigger]
        call_ensures(sidecar, (name,), Ok::<Option<Vec<u8>>, Error>(bytes)) ==> bytes_of(bytes)
            == held(files, name@)
    &&& forall|i: int|
        0 <= i < names.len() ==> sstable::reads_image(read, i as u64, files[#[trigger] names[i]])
}

/// `sidecar` told that the sidecar of this name cannot be used.
pub open spec fn found_unusable<S>(sidecar: S, name: Seq<char>) -> bool where
    S: Fn(String) -> Result<Option<Vec<u8>>>,
 {
    exists|file: String, bytes: Vec<u8>|
        file@ == name && unusable(bytes@) && #[trigger] call_ensures(
            sidecar,
            (file,),
            Ok::<Option<Vec<u8>>, Error>(Some(bytes)),
        )
}

/// Run `i` was found, and opened by what `read` gives.
pub open spec fn run_opened<F, R>(names: Seq<Seq<char>>, found: F, read: R, i: int) -> bool where
    F: Fn(u64, String) -> Result<Option<u64>>,
    R: Fn(u64, u64, usize) -> std::result::Result<Vec<u8>, std::io::Error>,
 {
    exists|name: String, len: u64|
        name@ == names[i] && #[trigger] call_ensures(
            found,
            (i as u64, name),
            Ok::<Option<u64>, Error>(Some(len)),
        ) && sstable::opens(read, i as u64, len)
}

/// Every run was found, and opened.
pub open spec fn all_opened<F, R>(names: Seq<Seq<char>>, found: F, read: R) -> bool where
    F: Fn(u64, String) -> Result<Option<u64>>,
    R: Fn(u64, u64, usize) -> std::result::Result<Vec<u8>, std::io::Error>,
 {
    forall|i: int|
        0 <= i < names.len() ==> #[trigger] run_opened(names, found, read, i)
}

/// The functions that runs are opened through can be called just as they have to be: on the
/// runs that are named, in order, and on the sidecar of a run that is open; `shed`, which
/// removes a sidecar, only on one that cannot be used.
pub open spec fn runs_callable<F, S, B, R>(
    names: Seq<Seq<char>>,
    found: F,
    sidecar: S,
    shed: B,
    read: R,
) -> bool where
    F: Fn(u64, String) -> Result<Option<u64>>,
    S: Fn(String) -> Result<Option<Vec<u8>>>,
    B: Fn(String),
    R: Fn(u64, u64, usize) -> std::result::Result<Vec<u8>, std::io::Error>,
 {
    &&& forall|id: u64, name: String|
        id < names.len() && name@ == names[id as int] && (forall|k: int|
            0 <= k < id ==> #[trigger] run_opened(names, found, read, k)) ==> #[trigger] call_requires(
            found,
            (id, name),
        )
    &&& forall|i: int, file: String|
        0 <= i < names.len() && file@ == bloom::sidecar_name(#[trigger] names[i]) && run_opened(
            names,
            found,
            read,
            i,
        ) ==> #[trigger] call_requires(sidecar, (file,))
    &&& forall|file: String|
        found_unusable(sidecar, file@) ==> #[trigger] call_requires(shed, (file,))
}

/// The run is the one in the file of this name, with the filter of its sidecar.
pub open spec fn run_in(files: Map<Seq<char>, Seq<u8>>, name: Seq<char>, run: SsTable) -> bool {
    &&& files.contains_key(name)
    &&& sstable::opened(files[name]) == Ok::<Table, Error>(run@)
    &&& filter_of(held(files, bloom::sidecar_name(name)), run.filtered())
}

/// The sidecar of this name, if there is one that cannot be used, was removed.
pub open spec fn rid_of<B>(shed: B, files: Map<Seq<char>, Seq<u8>>, name: Seq<char>) -> bool where
    B: Fn(String),
 {
    held(files, name) matches Some(bytes) && unusable(bytes) ==> exists|file: String|
        file@ == name && #[trigger] call_ensures(shed, (file,), ())
}

/// Every sidecar of a live run that cannot be used was removed.
pub open spec fn all_rid_of<B>(
    shed: B,
    files: Map<Seq<char>, Seq<u8>>,
    names: Seq<Seq<char>>,
) -> bool where B: Fn(String) {
    forall|k: int|
        0 <= k < names.len() ==> rid_of(shed, files, bloom::sidecar_name(#[trigger] names[k]))
}

/// Why the runs could not all be opened: every run before some one is in its file, and that
/// one could not be found, or its file is not there or does not hold a run, or reading it
/// failed; or it is open, and its sidecar could not be read.
pub open spec fn run_refused<F, S, R>(
    found: F,
    sidecar: S,
    read: R,
    names: Seq<Seq<char>>,
    files: Map<Seq<char>, Seq<u8>>,
    error: Error,
) -> bool where
    F: Fn(u64, String) -> Result<Option<u64>>,
    S: Fn(String) -> Result<Option<Vec<u8>>>,
    R: Fn(u64, u64, usize) -> std::result::Result<Vec<u8>, std::io::Error>,
 {
    exists|i: int|
        0 <= i < names.len() && run_fault(found, sidecar, read, files, #[trigger] names[i], i, error)
            && forall|k: int| 0 <= k < i ==> holds_a_run(files, #[trigger] names[k])
}

/// There is a file of this name, and it holds a run.
pub open spec fn holds_a_run(files: Map<Seq<char>, Seq<u8>>, name: Seq<char>) -> bool {
    files.contains_key(name) && sstable::opened(files[name]) is Ok
}

/// What went wrong with run `i`: it could not be looked for; or there is no such file; or the
/// file does not hold a run, or could not be read; or it does, and its sidecar could not be
/// read.
pub open spec fn run_fault<F, S, R>(
    found: F,
    sidecar: S,
    read: R,
    files: Map<Seq<char>, Seq<u8>>,
    name: Seq<char>,
    i: int,
    error: Error,
) -> bool where
    F: Fn(u64, String) -> Result<Option<u64>>,
    S: Fn(String) -> Result<Option<Vec<u8>>>,
    R: Fn(u64, u64, usize) -> std::result::Result<Vec<u8>, std::io::Error>,
 {
    ||| exists|file: String|
        file@ == name && #[trigger] call_ensures(
            found,
            (i as u64, file),
            Err::<Option<u64>, Error>(error),
        )
    ||| if !files.contains_key(name) {
        error == (Error::Corruption { reason: "manifest references a missing run" })
    } else {
        ||| sstable::opened(files[name]) == Err::<Table, Error>(error)
        ||| crate::flush::open_fault(read, i as u64, error)
        ||| sstable::opened(files[name]) is Ok && exists|file: String|
            file@ == bloom::sidecar_name(name) && #[trigger] call_ensures(
                sidecar,
                (file,),
                Err::<Option<Vec<u8>>, Error>(error),
            )
    }
}

/// The next sequence number once the files of a directory are judged: past that of every
/// run file.
pub open spec fn seq_after(seq: u64, listing: Seq<String>) -> u64
    decreases listing.len(),
{
    if listing.len() == 0 {
        seq
    } else {
        let before = seq_after(seq, listing.drop_last());
        match seq_taken(listing.last()@) {
            Some(taken) => if taken + 1 > before {
                (taken + 1) as u64
            } else {
                before
            },
            None => before,
        }
    }
}

/// The next sequence number only moves up.
pub proof fn lemma_seq_after(seq: u64, listing: Seq<String>)
    requires
        forall|i: int| 0 <= i < listing.len() ==> seq_taken((#[trigger] listing[i])@) != Some(
            u64::MAX,
        ),
    ensures
        seq_after(seq, listing) >= seq,
    decreases listing.len(),
{
    if listing.len() > 0 {
        let last = listing[listing.len() - 1];
        assert(seq_taken(last@) != Some(u64::MAX));
        assert forall|i: int| 0 <= i < listing.drop_last().len() implies seq_taken(
            (#[trigger] listing.drop_last()[i])@,
        ) != Some(u64::MAX) by {
            assert(listing[i] == listing.drop_last()[i]);
        }
        lemma_seq_after(seq, listing.drop_last());
    }
}

/// Every file that has to go was handed to `discard`, which removed it.
pub open spec fn cleared<D>(discard: D, names: Seq<Seq<char>>, listing: Seq<String>) -> bool where
    D: Fn(String, Verdict) -> Result<()>,
 {
    forall|i: int|
        0 <= i < listing.len() && verdict_of(names, (#[trigger] listing[i])@) != Verdict::Keep
            ==> discarded(discard, names, listing[i]@, Ok(()))
}

/// `done` is a result of removing the file, for what it was judged to be.
pub open spec fn discarded<D>(
    discard: D,
    names: Seq<Seq<char>>,
    name: Seq<char>,
    done: Result<()>,
) -> bool where D: Fn(String, Verdict) -> Result<()> {
    exists|file: String|
        file@ == name && #[trigger] call_ensures(discard, (file, verdict_of(names, name)), done)
}

/// `discard` can be called on the files of the listing that have to go, and on no others.
pub open spec fn sweep_callable<D>(
    discard: D,
    names: Seq<Seq<char>>,
    listing: Seq<String>,
) -> bool where D: Fn(String, Verdict) -> Result<()> {
    forall|i: int, file: String|
        0 <= i < listing.len() && file@ == (#[trigger] listing[i])@ && verdict_of(names, file@)
            != Verdict::Keep ==> #[trigger] call_requires(
            discard,
            (file, verdict_of(names, file@)),
        )
}

/// The records that some bytes are.
pub open spec fn records_of(records: Seq<Vec<u8>>) -> Seq<Seq<u8>> {
    records.map_values(|r: Vec<u8>| r@)
}

impl Recovery {
    /// The runs opened so far are those in the files.
    pub open spec fn opened_from(&self, files: Map<Seq<char>, Seq<u8>>) -> bool {
        forall|i: int|
            0 <= i < self.opened().len() ==> run_in(
                files,
                self.names()[i],
                *#[trigger] self.opened()[i],
            )
    }

    /// Opens the runs, in order. Of each the file is opened first, and then its sidecar is
    /// read; a sidecar that cannot be used is removed.
    pub fn open_runs<F, S, B, R>(&mut self, found: &F, sidecar: &S, shed: &B, read: &R) -> (done:
        Result<()>) where
        F: Fn(u64, String) -> Result<Option<u64>>,
        S: Fn(String) -> Result<Option<Vec<u8>>>,
        B: Fn(String),
        R: Fn(u64, u64, usize) -> std::result::Result<Vec<u8>, std::io::Error>,

        requires
            old(self).wf(),
            old(self).opened().len() == 0,
            runs_callable(old(self).names(), *found, *sidecar, *shed, *read),
            sstable::total(*read),
        ensures
            final(self).wf(),
            final(self).names() == old(self).names(),
            final(self).seq() == old(self).seq(),
            final(self).mem() == old(self).mem(),
            final(self).settings() == old(self).settings(),
            done is Ok ==> final(self).opened().len() == final(self).names().len() && all_opened(
                final(self).names(),
                *found,
                *read,
            ),
            forall|files: Map<Seq<char>, Seq<u8>>| #[trigger]
                faithful(*found, *sidecar, *read, old(self).names(), files) ==> match done {
                    Ok(_) => {
                        &&& final(self).opened_from(files)
                        &&& all_rid_of(*shed, files, final(self).names())
                    },
                    Err(e) => {
                        &&& final(self).opened_from(files)
                        &&& run_refused(*found, *sidecar, *read, old(self).names(), files, e)
                    },
                },
    {
        let ghost start = *self;
        loop
            invariant
                start == *old(self),
                self.wf(),
                self.names() == start.names(),
                self.seq() == start.seq(),
                self.mem() == start.mem(),
                self.settings() == start.settings(),
                runs_callable(start.names(), *found, *sidecar, *shed, *read),
                sstable::total(*read),
                forall|k: int|
                    0 <= k < self.opened().len() ==> #[trigger] run_opened(
                        start.names(),
                        *found,
                        *read,
                        k,
                    ),
                forall|files: Map<Seq<char>, Seq<u8>>| #[trigger]
                    faithful(*found, *sidecar, *read, start.names(), files) ==> {
                        &&& self.opened_from(files)
                        &&& forall|k: int|
                            0 <= k < self.opened().len() ==> rid_of(
                                *shed,
                                files,
                                bloom::sidecar_name(#[trigger] start.names()[k]),
                            )
                    },
            decreases self.names().len() - self.opened().len(),
        {
            let ghost before = *self;
            proof {
                self.lemma_wf();
            }
            let name = match self.pending() {
                Some(n) => n,
                None => {
                    return Ok(());
                },
            };
            let id: u64 = self.pending_id();
            let file = bloom::sidecar_of(name.as_str());
            let ghost run = name@;
            proof {
                assert forall|files: Map<Seq<char>, Seq<u8>>| #[trigger]
                    faithful(*found, *sidecar, *read, start.names(), files) implies forall|k: int|
                    0 <= k < id ==> holds_a_run(files, #[trigger] start.names()[k]) by {
                    assert forall|k: int| 0 <= k < id implies holds_a_run(
                        files,
                        #[trigger] start.names()[k],
                    ) by {
                        assert(run_in(files, before.names()[k], *before.opened()[k]));
                    }
                }
            }
            let len = match found(id, name) {
                Ok(len) => {
                    assert(call_ensures(found, (id, name), Ok::<Option<u64>, Error>(len)));
                    len
                },
                Err(e) => {
                    assert(call_ensures(found, (id, name), Err::<Option<u64>, Error>(e)));
                    proof {
                        assert forall|files: Map<Seq<char>, Seq<u8>>| #[trigger]
                            faithful(*found, *sidecar, *read, start.names(), files) implies
                            run_fault(*found, *sidecar, *read, files, run, id as int, e) by {}
                        assert(start.names()[id as int] == run);
                    }
                    return Err(e);
                },
            };
            let opened = self.open_table(len, read);
            proof {
                assert forall|files: Map<Seq<char>, Seq<u8>>| #[trigger]
                    faithful(*found, *sidecar, *read, start.names(), files) implies match opened {
                    Ok(t) => files.contains_key(run) && sstable::opened(files[run]) == Ok::<
                        Table,
                        Error,
                    >(t@),
                    Err(e) => run_fault(*found, *sidecar, *read, files, run, id as int, e),
                } by {
                    assert(start.names()[id as int] == run);
                    if len is Some {
                        assert(sstable::reads_image(*read, id, files[run]));
                    }
                }
            }
            let table = match opened {
                Ok(t) => t,
                Err(e) => {
                    assert(start.names()[id as int] == run);
                    return Err(e);
                },
            };
            let ghost t = table;
            proof {
                assert(sstable::opens_to(*read, id, len->0, Ok(t@)));
                assert(sstable::opens(*read, id, len->0));
                assert(run_opened(start.names(), *found, *read, id as int));
            }
            let asked = file.clone();
            let bytes = match sidecar(asked) {
                Ok(b) => {
                    assert(call_ensures(sidecar, (asked,), Ok::<Option<Vec<u8>>, Error>(b)));
                    b
                },
                Err(e) => {
                    assert(call_ensures(sidecar, (asked,), Err::<Option<Vec<u8>>, Error>(e)));
                    proof {
                        assert forall|files: Map<Seq<char>, Seq<u8>>| #[trigger]
                            faithful(*found, *sidecar, *read, start.names(), files) implies
                            run_fault(*found, *sidecar, *read, files, run, id as int, e) by {}
                        assert(start.names()[id as int] == run);
                    }
                    return Err(e);
                },
            };
            let slice: Option<&[u8]> = match &bytes {
                Some(b) => Some(b.as_slice()),
                None => None,
            };
            let stays = self.add_run(table, slice);
            if !stays {
                assert(found_unusable(*sidecar, file@));
                shed(file);
                assert(call_ensures(shed, (file,), ()));
            }
            proof {
                assert forall|files: Map<Seq<char>, Seq<u8>>| #[trigger]
                    faithful(*found, *sidecar, *read, start.names(), files) implies {
                    &&& self.opened_from(files)
                    &&& forall|k: int|
                        0 <= k < self.opened().len() ==> rid_of(
                            *shed,
                            files,
                            bloom::sidecar_name(#[trigger] start.names()[k]),
                        )
                } by {
                    assert(bytes_of(bytes) == held(files, bloom::sidecar_name(run)));
                    assert forall|i: int| 0 <= i < self.opened().len() implies run_in(
                        files,
                        self.names()[i],
                        *#[trigger] self.opened()[i],
                    ) by {
                        if i < id {
                            assert(self.opened().drop_last()[i] == before.opened()[i]);
                        } else {
                            assert(self.opened()[i] == self.opened().last());
                        }
                    }
                    assert(before.opened_from(files));
                    assert(rid_of(*shed, files, bloom::sidecar_name(run)));
                }
            }
        }
    }

    /// Judges every file of the directory, and removes those that have to go.
    pub fn sweep_all<D>(&mut self, listing: &Vec<String>, discard: &D) -> (done: Result<()>) where
        D: Fn(String, Verdict) -> Result<()>,

        requires
            old(self).wf(),
            forall|i: int|
                0 <= i < listing@.len() ==> seq_taken((#[trigger] listing@[i])@) != Some(u64::MAX),
            sweep_callable(*discard, old(self).names(), listing@),
        ensures
            final(self).wf(),
            final(self).names() == old(self).names(),
            final(self).opened() == old(self).opened(),
            final(self).mem() == old(self).mem(),
            final(self).settings() == old(self).settings(),
            match done {
                Ok(_) => {
                    &&& final(self).seq() == seq_after(old(self).seq(), listing@)
                    &&& cleared(*discard, old(self).names(), listing@)
                },
                Err(e) => exists|i: int|
                    0 <= i < listing@.len() && discarded(
                        *discard,
                        old(self).names(),
                        (#[trigger] listing@[i])@,
                        Err(e),
                    ) && cleared(*discard, old(self).names(), listing@.take(i))
                        && final(self).seq() == seq_after(old(self).seq(), listing@.take(i + 1)),
            },
    {
        let ghost start = *self;
        let mut i: usize = 0;
        assert(listing@.take(0) =~= seq![]);
        while i < listing.len()
            invariant
                start == *old(self),
                i <= listing@.len(),
                self.wf(),
                self.names() == start.names(),
                self.opened() == start.opened(),
                self.mem() == start.mem(),
                self.settings() == start.settings(),
                self.seq() == seq_after(start.seq(), listing@.take(i as int)),
                forall|k: int|
                    0 <= k < listing@.len() ==> seq_taken((#[trigger] listing@[k])@) != Some(
                        u64::MAX,
                    ),
                sweep_callable(*discard, start.names(), listing@),
                forall|k: int|
                    0 <= k < i && verdict_of(start.names(), (#[trigger] listing@[k])@)
                        != Verdict::Keep ==> discarded(
                        *discard,
                        start.names(),
                        listing@[k]@,
                        Ok(()),
                    ),
            decreases listing@.len() - i,
        {
            proof {
                assert(listing@.take(i + 1).drop_last() =~= listing@.take(i as int));
                assert(listing@.take(i + 1).last() == listing@[i as int]);
            }
            let verdict = self.sweep(listing[i].as_str());
            if verdict != Verdict::Keep {
                let file = listing[i].clone();
                match discard(file, verdict) {
                    Ok(done) => {
                        assert(call_ensures(discard, (file, verdict), Ok::<(), Error>(done)));
                        assert(discarded(*discard, start.names(), listing@[i as int]@, Ok(())));
                    },
                    Err(e) => {
                        assert(call_ensures(discard, (file, verdict), Err::<(), Error>(e)));
                        assert(discarded(*discard, start.names(), listing@[i as int]@, Err(e)));
                        assert(cleared(*discard, start.names(), listing@.take(i as int)));
                        return Err(e);
                    },
                }
            }
            i += 1;
        }
        assert(listing@.take(i as int) =~= listing@);
        Ok(())
    }

    /// Replays the records of the log, in order.
    pub fn replay_all(&mut self, records: &Vec<Vec<u8>>) -> (done: Result<()>)
        requires
            old(self).wf(),
            memtable::total_size(old(self).mem()) + durability::log_size(records_of(records@))
                <= usize::MAX,
        ensures
            final(self).wf(),
            final(self).names() == old(self).names(),
            final(self).opened() == old(self).opened(),
            final(self).seq() == old(self).seq(),
            final(self).settings() == old(self).settings(),
            match done {
                Ok(_) => durability::replayed(
                    final(self).mem(),
                    old(self).mem(),
                    records_of(records@),
                ),
                Err(e) => exists|i: int|
                    0 <= i < records@.len() && durability::decoded_log((#[trigger] records@[i])@)
                        == Err::<Seq<Entry>, Error>(e) && all_decode(records@.take(i))
                        && durability::replayed(
                        final(self).mem(),
                        old(self).mem(),
                        records_of(records@.take(i)),
                    ),
            },
    {
        let ghost start = *self;
        let ghost all = records_of(records@);
        let mut i: usize = 0;
        proof {
            self.lemma_wf();
            assert(all.take(0) =~= seq![]);
        }
        while i < records.len()
            invariant
                start == *old(self),
                i <= records@.len(),
                all == records_of(records@),
                self.wf(),
                self.names() == start.names(),
                self.opened() == start.opened(),
                self.seq() == start.seq(),
                self.settings() == start.settings(),
                durability::replayed(self.mem(), start.mem(), all.take(i as int)),
                all_decode(records@.take(i as int)),
                memtable::total_size(start.mem()) + durability::log_size(all) <= usize::MAX,
                memtable::total_size(self.mem()) <= memtable::total_size(start.mem())
                    + durability::log_size(all.take(i as int)),
            decreases records@.len() - i,
        {
            let ghost before = self.mem();
            proof {
                assert(all.take(i + 1) =~= all.take(i as int).push(all[i as int]));
                assert(all.take(i + 1).drop_last() =~= all.take(i as int));
                durability::lemma_log_size_prefix(all, i + 1);
            }
            match self.replay(records[i].as_slice()) {
                Ok(_) => {
                    proof {
                        durability::lemma_replayed_push(
                            start.mem(),
                            before,
                            self.mem(),
                            all.take(i as int),
                            all[i as int],
                        );
                    }
                },
                Err(e) => {
                    assert(durability::decoded_log(records@[i as int]@) == Err::<Seq<Entry>, Error>(
                        e,
                    ));
                    assert(records_of(records@.take(i as int)) =~= all.take(i as int));
                    return Err(e);
                },
            }
            i += 1;
        }
        assert(all.take(i as int) =~= all);
        Ok(())
    }
}

/// The directory is listed and the log is read through functions that can be called just as
/// they have to be: `listing`, and `discard` on the files listed that have to go, once every
/// run is open; and `log` once those files are gone. Every file listed can be judged, and the
/// log fits the address space.
pub open spec fn rest_callable<F, R, L, D, G>(
    names: Seq<Seq<char>>,
    found: F,
    read: R,
    listing: L,
    discard: D,
    log: G,
) -> bool where
    F: Fn(u64, String) -> Result<Option<u64>>,
    R: Fn(u64, u64, usize) -> std::result::Result<Vec<u8>, std::io::Error>,
    L: FnOnce() -> Result<Vec<String>>,
    D: Fn(String, Verdict) -> Result<()>,
    G: FnOnce() -> Result<Vec<Vec<u8>>>,
 {
    &&& all_opened(names, found, read) ==> call_requires(listing, ())
    &&& forall|listed: Vec<String>| #[trigger]
        call_ensures(listing, (), Ok::<Vec<String>, Error>(listed)) ==> {
            &&& all_opened(names, found, read) ==> sweep_callable(discard, names, listed@)
            &&& all_opened(names, found, read) && cleared(discard, names, listed@)
                ==> call_requires(log, ())
            &&& forall|i: int|
                0 <= i < listed@.len() ==> seq_taken((#[trigger] listed@[i])@) != Some(u64::MAX)
        }
    &&& forall|records: Vec<Vec<u8>>| #[trigger]
        call_ensures(log, (), Ok::<Vec<Vec<u8>>, Error>(records)) ==> durability::log_size(
            records_of(records@),
        ) <= usize::MAX
}

/// What opening ends in, from what it started with: the runs that the manifest names, opened
/// in order; the next sequence number past that of every run file listed; the files that had
/// to go gone; and the buffer as the log's records leave it.
pub open spec fn completed<L, D, G>(
    start: Recovery,
    lsm: Lsm,
    listing: L,
    discard: D,
    log: G,
) -> bool where
    L: FnOnce() -> Result<Vec<String>>,
    D: Fn(String, Verdict) -> Result<()>,
    G: FnOnce() -> Result<Vec<Vec<u8>>>,
 {
    &&& lsm.settings() == start.settings()
    &&& !lsm.busy()
    &&& db::labels(lsm.live()) == start.names()
    &&& lsm.next_run() == lsm.live().len()
    &&& forall|i: int| 0 <= i < lsm.live().len() ==> (#[trigger] lsm.live()[i]).id() == i
    &&& exists|listed: Vec<String>| #[trigger]
        call_ensures(listing, (), Ok::<Vec<String>, Error>(listed)) && lsm.seq() == seq_after(
            start.seq(),
            listed@,
        ) && lsm.seq() >= start.seq() && cleared(discard, start.names(), listed@)
    &&& exists|records: Vec<Vec<u8>>| #[trigger]
        call_ensures(log, (), Ok::<Vec<Vec<u8>>, Error>(records)) && durability::replayed(
            lsm.mem(),
            seq![],
            records_of(records@),
        )
}

/// Every record decodes.
pub open spec fn all_decode(records: Seq<Vec<u8>>) -> bool {
    forall|i: int|
        0 <= i < records.len() ==> durability::decoded_log((#[trigger] records[i])@) is Ok
}

/// Why opening failed after the runs were opened: listing the directory failed; or removing
/// a file did, the first of those that had to go on which it did; or reading the log failed;
/// or a record does not decode, and all those before it do.
pub open spec fn rest_refused<L, D, G>(
    names: Seq<Seq<char>>,
    listing: L,
    discard: D,
    log: G,
    error: Error,
) -> bool where
    L: FnOnce() -> Result<Vec<String>>,
    D: Fn(String, Verdict) -> Result<()>,
    G: FnOnce() -> Result<Vec<Vec<u8>>>,
 {
    ||| call_ensures(listing, (), Err::<Vec<String>, Error>(error))
    ||| exists|listed: Vec<String>, i: int|
        #![trigger call_ensures(listing, (), Ok::<Vec<String>, Error>(listed)), listed@[i]]
        call_ensures(listing, (), Ok::<Vec<String>, Error>(listed)) && 0 <= i < listed@.len()
            && discarded(discard, names, listed@[i]@, Err(error)) && cleared(
            discard,
            names,
            listed@.take(i),
        )
    ||| call_ensures(log, (), Err::<Vec<Vec<u8>>, Error>(error))
    ||| exists|records: Vec<Vec<u8>>, i: int|
        #![trigger call_ensures(log, (), Ok::<Vec<Vec<u8>>, Error>(records)), records@[i]]
        call_ensures(log, (), Ok::<Vec<Vec<u8>>, Error>(records)) && 0 <= i < records@.len()
            && durability::decoded_log(records@[i]@) == Err::<Seq<Entry>, Error>(error)
            && all_decode(records@.take(i))
}

impl Recovery {
    /// Opens the store, from its manifest on: opens the runs, clears the directory of what
    /// an interrupted flush or compaction left there, and replays the log. Nothing is
    /// removed before the runs are open, and the log is read last.
    pub fn complete<F, S, B, R, L, D, G>(
        self,
        found: &F,
        sidecar: &S,
        shed: &B,
        read: &R,
        listing: L,
        discard: &D,
        log: G,
    ) -> (lsm: Result<Lsm>) where
        F: Fn(u64, String) -> Result<Option<u64>>,
        S: Fn(String) -> Result<Option<Vec<u8>>>,
        B: Fn(String),
        R: Fn(u64, u64, usize) -> std::result::Result<Vec<u8>, std::io::Error>,
        L: FnOnce() -> Result<Vec<String>>,
        D: Fn(String, Verdict) -> Result<()>,
        G: FnOnce() -> Result<Vec<Vec<u8>>>,

        requires
            self.wf(),
            self.opened().len() == 0,
            self.mem().len() == 0,
            runs_callable(self.names(), *found, *sidecar, *shed, *read),
            sstable::total(*read),
            rest_callable(self.names(), *found, *read, listing, *discard, log),
        ensures
            lsm matches Ok(l) ==> l.wf() && completed(self, l, listing, *discard, log),
            forall|files: Map<Seq<char>, Seq<u8>>| #[trigger]
                faithful(*found, *sidecar, *read, self.names(), files) ==> match lsm {
                    Ok(l) => {
                        &&& forall|i: int|
                            0 <= i < l.live().len() ==> run_in(
                                files,
                                self.names()[i],
                                *#[trigger] l.live()[i],
                            )
                        &&& all_rid_of(*shed, files, self.names())
                    },
                    Err(e) => run_refused(*found, *sidecar, *read, self.names(), files, e)
                        || rest_refused(self.names(), listing, *discard, log, e),
                },
    {
        let ghost start = self;
        let mut recovery = self;
        match recovery.open_runs(found, sidecar, shed, read) {
            Ok(_) => {},
            Err(e) => {
                return Err(e);
            },
        }
        let listed = match listing() {
            Ok(listed) => {
                assert(call_ensures(listing, (), Ok::<Vec<String>, Error>(listed)));
                listed
            },
            Err(e) => {
                assert(call_ensures(listing, (), Err::<Vec<String>, Error>(e)));
                return Err(e);
            },
        };
        match recovery.sweep_all(&listed, discard) {
            Ok(_) => {
                proof {
                    lemma_seq_after(start.seq(), listed@);
                }
            },
            Err(e) => {
                return Err(e);
            },
        }
        let records = match log() {
            Ok(records) => {
                assert(call_ensures(log, (), Ok::<Vec<Vec<u8>>, Error>(records)));
                records
            },
            Err(e) => {
                assert(call_ensures(log, (), Err::<Vec<Vec<u8>>, Error>(e)));
                return Err(e);
            },
        };
        match recovery.replay_all(&records) {
            Ok(_) => {},
            Err(e) => {
                return Err(e);
            },
        }
        proof {
            recovery.lemma_wf();
            assert(start.mem() =~= seq![]);
        }
        Ok(recovery.finish())
    }
}

} // verus!
