//! The engine over a directory kept in memory.

use bloom_lib::BloomFilter;
use lsm_db::batch::Batch;
use lsm_db::bloom::sidecar_of;
use lsm_db::cache::{BlockCache, BlockKey, DecodedBlock};
use lsm_db::compact::{merged_capacity, seal, Compaction, CompactionPlan};
use lsm_db::compactor::{CompactionState, Directive};
use lsm_db::config::LsmConfig;
use lsm_db::db::{search, Lsm, Probe};
use lsm_db::error::{Error, Result};
use lsm_db::range::{KeyBound, KeyRange};
use lsm_db::recovery::Verdict;
use lsm_db::sstable::SsTable;
use std::cell::{Cell, RefCell};
use std::collections::BTreeMap;
use std::rc::Rc;
use std::sync::Arc;

/// The files of a store, its write-ahead log, and whether the directory is gone.
#[derive(Default)]
struct Dir {
    files: RefCell<BTreeMap<String, Vec<u8>>>,
    log: RefCell<Vec<Vec<u8>>>,
    gone: Cell<bool>,
}

impl Dir {
    fn new() -> Rc<Dir> {
        Rc::new(Dir::default())
    }

    fn write(&self, context: &'static str, name: String, bytes: Vec<u8>) -> Result<()> {
        if self.gone.get() {
            return Err(Error::io(context, std::io::Error::from(std::io::ErrorKind::NotFound)));
        }
        let _ = self.files.borrow_mut().insert(name, bytes);
        Ok(())
    }

    fn has(&self, name: &str) -> bool {
        self.files.borrow().contains_key(name)
    }

    fn ending(&self, suffix: &str) -> Vec<String> {
        self.files.borrow().keys().filter(|n| n.ends_with(suffix)).cloned().collect()
    }
}

/// An open store: the engine, and the files that its runs are read from.
struct Db {
    dir: Rc<Dir>,
    runs: RefCell<BTreeMap<u64, String>>,
    lsm: RefCell<Lsm>,
    cache: RefCell<BlockCache>,
    reads: Cell<usize>,
    compactor: RefCell<CompactionState>,
}

fn dimensions(capacity: usize) -> Option<(u64, u32)> {
    BloomFilter::<[u8]>::new(capacity, 0.01).ok().map(|f| (f.num_bits(), f.num_hashes()))
}

fn read_from(
    dir: &Dir,
    runs: &RefCell<BTreeMap<u64, String>>,
    run: u64,
    offset: u64,
    len: usize,
) -> std::result::Result<Vec<u8>, std::io::Error> {
    let eof = || std::io::Error::from(std::io::ErrorKind::UnexpectedEof);
    let files = dir.files.borrow();
    let bytes = files.get(&runs.borrow()[&run]).ok_or_else(eof)?;
    let from = offset as usize;
    let to = from.checked_add(len).ok_or_else(eof)?;
    Ok(bytes.get(from..to).ok_or_else(eof)?.to_vec())
}

impl Db {
    fn open(dir: &Rc<Dir>) -> Result<Db> {
        Db::open_with(dir, LsmConfig::default())
    }

    fn open_with(dir: &Rc<Dir>, config: LsmConfig) -> Result<Db> {
        let manifest = dir
            .files
            .borrow()
            .get("MANIFEST")
            .map(|b| String::from_utf8_lossy(b).into_owned());
        let cache = BlockCache::new(config.block_cache_capacity_bytes());
        let recovery = Lsm::open_with(manifest.as_deref(), config)?;
        let runs = RefCell::new(BTreeMap::new());
        let lsm = recovery.complete(
            &|id: u64, name: String| {
                let found = dir.files.borrow().get(&name).map(|b| b.len() as u64);
                let _ = runs.borrow_mut().insert(id, name);
                Ok(found)
            },
            &|name: String| Ok(dir.files.borrow().get(&name).cloned()),
            &|name: String| {
                let _ = dir.files.borrow_mut().remove(&name);
            },
            &|r: u64, o: u64, n: usize| read_from(dir, &runs, r, o, n),
            || Ok(dir.files.borrow().keys().cloned().collect::<Vec<String>>()),
            &|name: String, verdict: Verdict| {
                assert_ne!(verdict, Verdict::Keep);
                let _ = dir.files.borrow_mut().remove(&name);
                Ok(())
            },
            || Ok(dir.log.borrow().clone()),
        )?;
        let db = Db {
            dir: Rc::clone(dir),
            runs,
            lsm: RefCell::new(lsm),
            cache: RefCell::new(cache),
            reads: Cell::new(0),
            compactor: RefCell::new(CompactionState::new()),
        };
        db.flush()?;
        Ok(db)
    }

    fn read(&self, run: u64, offset: u64, len: usize) -> std::result::Result<Vec<u8>, std::io::Error> {
        self.reads.set(self.reads.get() + 1);
        read_from(&self.dir, &self.runs, run, offset, len)
    }

    fn log(&self, record: Vec<u8>) -> Result<()> {
        self.dir.log.borrow_mut().push(record);
        Ok(())
    }

    fn put(&self, key: impl AsRef<[u8]>, value: impl AsRef<[u8]>) -> Result<()> {
        self.lsm.borrow_mut().put(key.as_ref(), value.as_ref(), |r| self.log(r))?;
        self.spill(false)
    }

    fn delete(&self, key: impl AsRef<[u8]>) -> Result<()> {
        self.lsm.borrow_mut().delete(key.as_ref(), |r| self.log(r))?;
        self.spill(false)
    }

    fn write(&self, batch: Batch) -> Result<()> {
        self.lsm.borrow_mut().write(batch, |r| self.log(r))?;
        self.spill(false)
    }

    fn get(&self, key: impl AsRef<[u8]>) -> Result<Option<Vec<u8>>> {
        self.lsm.borrow().get(
            key.as_ref(),
            &|r, o, n| self.read(r, o, n),
            &|k: BlockKey| self.cache.borrow_mut().get(k),
            &|k: BlockKey, b: Arc<DecodedBlock>| self.cache.borrow_mut().insert(k, b),
        )
    }

    fn scan(&self, range: KeyRange) -> Result<Vec<(Vec<u8>, Vec<u8>)>> {
        let mut scan = self.lsm.borrow().scan(&range, &|r, o, n| self.read(r, o, n))?;
        let mut out = Vec::new();
        while let Some(pair) = scan.next() {
            out.push(pair);
        }
        Ok(out)
    }

    fn scan_all(&self) -> Vec<(Vec<u8>, Vec<u8>)> {
        self.scan(KeyRange::all()).unwrap()
    }

    fn flush(&self) -> Result<()> {
        self.spill(true)
    }

    fn spill(&self, force: bool) -> Result<()> {
        let mut lsm = self.lsm.borrow_mut();
        let dims = dimensions(lsm.buffered_keys());
        let persist = |id: u64, name: String, bytes: Vec<u8>| {
            let _ = self.runs.borrow_mut().insert(id, name.clone());
            self.dir.write("create sorted run", name, bytes)
        };
        let attach = |name: String, bytes: Vec<u8>| self.dir.write("write bloom sidecar", name, bytes);
        let read = |r: u64, o: u64, n: usize| self.read(r, o, n);
        let store =
            |content: String| self.dir.write("create manifest", "MANIFEST".to_string(), content.into_bytes());
        let rotate = || {
            self.dir.log.borrow_mut().clear();
            Ok(())
        };
        let due = if force {
            lsm.flush(dims, persist, attach, &read, store, rotate)?
        } else {
            lsm.maybe_flush(dims, persist, attach, &read, store, rotate)?
        };
        drop(lsm);
        if due {
            self.compactor.borrow_mut().signal();
            while self.compactor.borrow_mut().next() == Directive::Run {
                let done = self.compact_now();
                self.compactor.borrow_mut().complete();
                done?;
            }
        }
        Ok(())
    }

    fn compact_now(&self) -> Result<()> {
        let plan = match self.lsm.borrow_mut().begin_compaction() {
            Some(plan) => plan,
            None => return Ok(()),
        };
        let done = self.compact(plan);
        self.lsm.borrow_mut().end_compaction();
        done
    }

    fn compact(&self, plan: CompactionPlan) -> Result<()> {
        let read = |r: u64, o: u64, n: usize| self.read(r, o, n);
        let mut bytes = Vec::new();
        let dims = dimensions(merged_capacity(&plan.inputs));
        let mut job = Compaction::start(&plan.inputs, dims, &mut bytes);
        while job.advance(&read, 64 * 1024, &mut bytes)? {}
        let filter = job.finish(&mut bytes)?;
        let len = bytes.len() as u64;
        let output = seal(
            &plan,
            len,
            filter,
            || {
                let _ = self.runs.borrow_mut().insert(plan.run_id, plan.name.clone());
                self.dir.write("create sorted run", plan.name.clone(), bytes)
            },
            |name: String, sidecar: Vec<u8>| self.dir.write("write bloom sidecar", name, sidecar),
            &read,
        )?;
        self.lsm.borrow_mut().install_compaction(
            &plan.inputs,
            output,
            |content: String| {
                self.dir.write("create manifest", "MANIFEST".to_string(), content.into_bytes())
            },
            |merged: Vec<u64>| {
                for id in merged {
                    let name = self.runs.borrow()[&id].clone();
                    let _ = self.dir.files.borrow_mut().remove(&sidecar_of(&name));
                    let _ = self.dir.files.borrow_mut().remove(&name);
                }
            },
        )
    }

    fn run_count(&self) -> usize {
        self.lsm.borrow().run_count()
    }
}

fn no_compact() -> LsmConfig {
    LsmConfig::new().compaction_trigger(usize::MAX)
}

fn between(lo: &[u8], hi: &[u8]) -> KeyRange {
    KeyRange { start: KeyBound::Included(lo.to_vec()), end: KeyBound::Excluded(hi.to_vec()) }
}

fn db() -> Db {
    Db::open(&Dir::new()).unwrap()
}

fn db_no_autocompact() -> Db {
    Db::open_with(&Dir::new(), no_compact()).unwrap()
}

#[test]
fn test_put_get_roundtrip() {
    let db = db();
    db.put(b"k", b"v").unwrap();
    assert_eq!(db.get(b"k").unwrap(), Some(b"v".to_vec()));
}

#[test]
fn test_get_absent_is_none() {
    let db = db();
    assert_eq!(db.get(b"absent").unwrap(), None);
}

#[test]
fn test_overwrite_across_runs() {
    let db = db_no_autocompact();
    db.put(b"k", b"old").unwrap();
    db.flush().unwrap();
    db.put(b"k", b"new").unwrap();
    db.flush().unwrap();
    assert_eq!(db.run_count(), 2);
    assert_eq!(db.get(b"k").unwrap(), Some(b"new".to_vec()));
}

#[test]
fn test_delete_masks_value_across_runs() {
    let db = db_no_autocompact();
    db.put(b"k", b"v").unwrap();
    db.flush().unwrap();
    db.delete(b"k").unwrap();
    db.flush().unwrap();
    assert_eq!(db.get(b"k").unwrap(), None);
}

#[test]
fn test_compaction_merges_to_single_run() {
    let db = db_no_autocompact();
    for i in 0..5u32 {
        db.put(format!("k{i}").into_bytes(), format!("v{i}").into_bytes()).unwrap();
        db.flush().unwrap();
    }
    assert_eq!(db.run_count(), 5);
    db.compact_now().unwrap();
    assert_eq!(db.run_count(), 1);
    for i in 0..5u32 {
        assert_eq!(
            db.get(format!("k{i}").into_bytes()).unwrap(),
            Some(format!("v{i}").into_bytes())
        );
    }
}

#[test]
fn test_compaction_drops_tombstones_and_keeps_latest() {
    let db = db_no_autocompact();
    db.put(b"keep", b"1").unwrap();
    db.put(b"gone", b"x").unwrap();
    db.flush().unwrap();
    db.put(b"keep", b"2").unwrap();
    db.delete(b"gone").unwrap();
    db.flush().unwrap();
    db.compact_now().unwrap();

    assert_eq!(db.run_count(), 1);
    assert_eq!(db.get(b"keep").unwrap(), Some(b"2".to_vec()));
    assert_eq!(db.get(b"gone").unwrap(), None);
    assert_eq!(db.scan_all().len(), 1);
}

#[test]
fn test_reopen_reads_all_runs() {
    let dir = Dir::new();
    {
        let db = Db::open_with(&dir, no_compact()).unwrap();
        db.put(b"a", b"1").unwrap();
        db.flush().unwrap();
        db.put(b"b", b"2").unwrap();
        db.flush().unwrap();
        db.put(b"a", b"updated").unwrap();
        db.flush().unwrap();
    }
    let db = Db::open(&dir).unwrap();
    assert_eq!(db.get(b"a").unwrap(), Some(b"updated".to_vec()));
    assert_eq!(db.get(b"b").unwrap(), Some(b"2".to_vec()));
}

#[test]
fn test_reopen_after_compaction() {
    let dir = Dir::new();
    {
        let db = Db::open_with(&dir, no_compact()).unwrap();
        for i in 0..4u32 {
            db.put(format!("k{i}").into_bytes(), b"v").unwrap();
            db.flush().unwrap();
        }
        db.compact_now().unwrap();
        assert_eq!(db.run_count(), 1);
    }
    let db = Db::open(&dir).unwrap();
    assert_eq!(db.run_count(), 1);
    assert_eq!(db.scan_all().len(), 4);
}

#[test]
fn test_background_compaction_triggers() {
    let db = Db::open_with(&Dir::new(), LsmConfig::new().compaction_trigger(3)).unwrap();
    for i in 0..10u32 {
        db.put(format!("k{i:02}").into_bytes(), b"v").unwrap();
        db.flush().unwrap();
    }
    assert!(db.compactor.borrow().is_idle());
    assert!(db.run_count() <= 3, "run count was {}", db.run_count());
    for i in 0..10u32 {
        assert_eq!(db.get(format!("k{i:02}").into_bytes()).unwrap(), Some(b"v".to_vec()));
    }
}

#[test]
fn test_scan_merges_across_runs() {
    let db = db_no_autocompact();
    db.put(b"a", b"old-a").unwrap();
    db.put(b"c", b"3").unwrap();
    db.flush().unwrap();
    db.put(b"a", b"new-a").unwrap();
    db.put(b"b", b"2").unwrap();
    db.delete(b"c").unwrap();
    db.flush().unwrap();
    assert_eq!(
        db.scan_all(),
        vec![(b"a".to_vec(), b"new-a".to_vec()), (b"b".to_vec(), b"2".to_vec())]
    );
}

#[test]
fn test_scan_bounded_range() {
    let db = db();
    for (k, v) in [("a", "1"), ("b", "2"), ("c", "3"), ("d", "4")] {
        db.put(k.as_bytes(), v.as_bytes()).unwrap();
    }
    let got = db.scan(between(b"b", b"d")).unwrap();
    assert_eq!(
        got,
        vec![(b"b".to_vec(), b"2".to_vec()), (b"c".to_vec(), b"3".to_vec())]
    );
}

#[test]
fn test_empty_value_roundtrips_through_flush() {
    let db = db_no_autocompact();
    db.put(b"k", b"").unwrap();
    db.flush().unwrap();
    assert_eq!(db.get(b"k").unwrap(), Some(Vec::new()));
    db.compact_now().unwrap();
    assert_eq!(db.get(b"k").unwrap(), Some(Vec::new()));
}

#[test]
fn test_engine_is_send_and_sync() {
    fn assert_send_sync<T: Send + Sync>() {}
    assert_send_sync::<Lsm>();
}

#[test]
fn test_bloom_skips_blocks_on_negative_lookup() {
    let db = db_no_autocompact();
    for run in 0..6u32 {
        for i in 0..50u32 {
            let key = format!("k{:04}", i * 2);
            db.put(key.as_bytes(), format!("r{run}").as_bytes()).unwrap();
        }
        db.flush().unwrap();
    }
    assert_eq!(db.run_count(), 6);

    db.reads.set(0);
    assert_eq!(db.get(b"k0051").unwrap(), None);
    assert_eq!(db.reads.get(), 0);

    db.reads.set(0);
    assert!(db.get(b"k0010").unwrap().is_some());
    assert!(db.reads.get() >= 1);
}

#[test]
fn test_bloom_sidecars_track_runs_through_compaction() {
    let db = db_no_autocompact();
    for i in 0..5u32 {
        db.put(format!("k{i}").into_bytes(), b"v").unwrap();
        db.flush().unwrap();
    }
    assert_eq!(db.dir.ending(".sst.bloom").len(), 5);

    db.compact_now().unwrap();
    assert_eq!(db.run_count(), 1);
    assert_eq!(db.dir.ending(".sst").len(), 1);
    assert_eq!(db.dir.ending(".sst.bloom").len(), 1);
    for i in 0..5u32 {
        assert_eq!(db.get(format!("k{i}").into_bytes()).unwrap(), Some(b"v".to_vec()));
    }
}

#[test]
fn test_block_cache_serves_repeat_lookup() {
    let db = db();
    db.put(b"k", b"v").unwrap();
    db.flush().unwrap();

    db.reads.set(0);
    assert_eq!(db.get(b"k").unwrap(), Some(b"v".to_vec()));
    assert!(db.reads.get() >= 1);

    db.reads.set(0);
    assert_eq!(db.get(b"k").unwrap(), Some(b"v".to_vec()));
    assert_eq!(db.reads.get(), 0);
}

#[test]
fn test_block_cache_disabled_always_reads() {
    let db = Db::open_with(&Dir::new(), LsmConfig::new().block_cache_capacity(0)).unwrap();
    db.put(b"k", b"v").unwrap();
    db.flush().unwrap();

    for _ in 0..2 {
        db.reads.set(0);
        assert_eq!(db.get(b"k").unwrap(), Some(b"v".to_vec()));
        assert!(db.reads.get() >= 1);
    }
}

#[test]
fn flush_writes_a_bloom_sidecar_per_run() {
    let db = db_no_autocompact();
    for run in 0..3u32 {
        db.put(format!("k{run}").into_bytes(), b"v").unwrap();
        db.flush().unwrap();
    }
    assert_eq!(db.dir.ending(".sst").len(), 3);
    assert_eq!(db.dir.ending(".sst.bloom").len(), 3);
}

#[test]
fn results_correct_with_bloom_and_across_reopen() {
    let dir = Dir::new();
    {
        let db = Db::open_with(&dir, no_compact()).unwrap();
        for i in 0..500u32 {
            db.put(format!("key-{i:04}").into_bytes(), format!("v{i}").into_bytes()).unwrap();
            if i % 100 == 99 {
                db.flush().unwrap();
            }
        }
        assert_eq!(db.get(b"key-0000").unwrap(), Some(b"v0".to_vec()));
        assert_eq!(db.get(b"key-0499").unwrap(), Some(b"v499".to_vec()));
        assert_eq!(db.get(b"absent").unwrap(), None);
        assert_eq!(db.get(b"key-9999").unwrap(), None);
    }
    let db = Db::open_with(&dir, no_compact()).unwrap();
    assert_eq!(db.get(b"key-0250").unwrap(), Some(b"v250".to_vec()));
    assert_eq!(db.get(b"missing").unwrap(), None);
    assert_eq!(db.scan_all().len(), 500);
}

#[test]
fn missing_sidecar_degrades_gracefully() {
    let dir = Dir::new();
    {
        let db = Db::open_with(&dir, no_compact()).unwrap();
        db.put(b"a", b"1").unwrap();
        db.put(b"b", b"2").unwrap();
        db.flush().unwrap();
    }
    for bloom in dir.ending(".sst.bloom") {
        let _ = dir.files.borrow_mut().remove(&bloom);
    }
    let db = Db::open_with(&dir, no_compact()).unwrap();
    assert_eq!(db.get(b"a").unwrap(), Some(b"1".to_vec()));
    assert_eq!(db.get(b"b").unwrap(), Some(b"2".to_vec()));
    assert_eq!(db.get(b"absent").unwrap(), None);
}

#[test]
fn corrupt_sidecar_does_not_change_answers() {
    let dir = Dir::new();
    {
        let db = Db::open_with(&dir, no_compact()).unwrap();
        db.put(b"x", b"42").unwrap();
        db.flush().unwrap();
    }
    for bloom in dir.ending(".sst.bloom") {
        let _ = dir.files.borrow_mut().insert(bloom, b"garbage not a filter".to_vec());
    }
    let db = Db::open_with(&dir, no_compact()).unwrap();
    assert_eq!(db.get(b"x").unwrap(), Some(b"42".to_vec()));
    assert_eq!(db.get(b"y").unwrap(), None);
}

#[test]
fn test_load_missing_sidecar_is_none() {
    let dir = Dir::new();
    {
        let db = Db::open_with(&dir, no_compact()).unwrap();
        db.put(b"k", b"v").unwrap();
        db.flush().unwrap();
    }
    let sidecar = dir.ending(".sst.bloom").pop().unwrap();
    let _ = dir.files.borrow_mut().remove(&sidecar);
    let db = Db::open_with(&dir, no_compact()).unwrap();
    db.reads.set(0);
    assert_eq!(db.get(b"a").unwrap(), None);
    assert_eq!(db.reads.get(), 1);
}

#[test]
fn test_load_corrupt_sidecar_is_none_and_removed() {
    let dir = Dir::new();
    {
        let db = Db::open_with(&dir, no_compact()).unwrap();
        db.put(b"k", b"v").unwrap();
        db.flush().unwrap();
    }
    let sidecar = dir.ending(".sst.bloom").pop().unwrap();
    let _ = dir.files.borrow_mut().insert(sidecar.clone(), b"not a valid filter".to_vec());
    let db = Db::open_with(&dir, no_compact()).unwrap();
    db.reads.set(0);
    assert_eq!(db.get(b"a").unwrap(), None);
    assert_eq!(db.reads.get(), 1);
    assert!(!dir.has(&sidecar));
}

#[test]
fn orphan_sidecar_is_reclaimed_on_open() {
    let dir = Dir::new();
    {
        let db = Db::open_with(&dir, no_compact()).unwrap();
        db.put(b"k", b"v").unwrap();
        db.flush().unwrap();
    }
    let orphan = "run-0000009999.sst.bloom".to_string();
    let _ = dir.files.borrow_mut().insert(orphan.clone(), b"stale filter bytes".to_vec());

    let db = Db::open_with(&dir, no_compact()).unwrap();
    assert!(!dir.has(&orphan));
    assert_eq!(db.get(b"k").unwrap(), Some(b"v".to_vec()));
}

#[test]
fn correct_under_background_compaction() {
    let db = Db::open_with(&Dir::new(), LsmConfig::new().compaction_trigger(3)).unwrap();
    for i in 0..300u32 {
        db.put(format!("k{i:03}").into_bytes(), b"v").unwrap();
        if i % 20 == 19 {
            db.flush().unwrap();
        }
    }
    db.flush().unwrap();
    for i in 0..300u32 {
        assert_eq!(db.get(format!("k{i:03}").into_bytes()).unwrap(), Some(b"v".to_vec()));
    }
    assert_eq!(db.get(b"absent").unwrap(), None);
    assert_eq!(db.scan_all().len(), 300);
}

#[test]
fn unflushed_writes_are_recovered() {
    let dir = Dir::new();
    {
        let db = Db::open_with(&dir, no_compact()).unwrap();
        db.put(b"a", b"1").unwrap();
        db.put(b"b", b"2").unwrap();
    }
    let db = Db::open_with(&dir, no_compact()).unwrap();
    assert_eq!(db.get(b"a").unwrap(), Some(b"1".to_vec()));
    assert_eq!(db.get(b"b").unwrap(), Some(b"2".to_vec()));
}

#[test]
fn unflushed_overwrite_is_recovered() {
    let dir = Dir::new();
    {
        let db = Db::open_with(&dir, no_compact()).unwrap();
        db.put(b"k", b"first").unwrap();
        db.flush().unwrap();
        db.put(b"k", b"second").unwrap();
    }
    let db = Db::open_with(&dir, no_compact()).unwrap();
    assert_eq!(db.get(b"k").unwrap(), Some(b"second".to_vec()));
}

#[test]
fn unflushed_delete_is_recovered() {
    let dir = Dir::new();
    {
        let db = Db::open_with(&dir, no_compact()).unwrap();
        db.put(b"k", b"v").unwrap();
        db.flush().unwrap();
        db.delete(b"k").unwrap();
    }
    let db = Db::open_with(&dir, no_compact()).unwrap();
    assert_eq!(db.get(b"k").unwrap(), None);
}

#[test]
fn unflushed_batch_is_recovered_atomically() {
    let dir = Dir::new();
    {
        let db = Db::open_with(&dir, no_compact()).unwrap();
        let mut batch = Batch::new();
        for i in 0..200u32 {
            batch.put(format!("k{i:03}").as_bytes(), b"v");
        }
        db.write(batch).unwrap();
        assert_eq!(dir.log.borrow().len(), 1);
    }
    let db = Db::open_with(&dir, no_compact()).unwrap();
    assert_eq!(db.scan_all().len(), 200);
    assert_eq!(db.get(b"k000").unwrap(), Some(b"v".to_vec()));
    assert_eq!(db.get(b"k199").unwrap(), Some(b"v".to_vec()));
}

#[test]
fn mixed_flushed_and_unflushed_recover() {
    let dir = Dir::new();
    {
        let db = Db::open_with(&dir, no_compact()).unwrap();
        db.put(b"flushed", b"1").unwrap();
        db.flush().unwrap();
        db.put(b"buffered-a", b"2").unwrap();
        db.put(b"buffered-b", b"3").unwrap();
    }
    let db = Db::open_with(&dir, no_compact()).unwrap();
    assert_eq!(db.get(b"flushed").unwrap(), Some(b"1".to_vec()));
    assert_eq!(db.get(b"buffered-a").unwrap(), Some(b"2".to_vec()));
    assert_eq!(db.get(b"buffered-b").unwrap(), Some(b"3".to_vec()));
    assert_eq!(db.scan_all().len(), 3);
}

#[test]
fn reopen_twice_does_not_duplicate() {
    let dir = Dir::new();
    {
        let db = Db::open_with(&dir, no_compact()).unwrap();
        db.put(b"k", b"v").unwrap();
    }
    {
        let db = Db::open_with(&dir, no_compact()).unwrap();
        assert_eq!(db.get(b"k").unwrap(), Some(b"v".to_vec()));
        assert_eq!(db.scan_all().len(), 1);
    }
    let db = Db::open_with(&dir, no_compact()).unwrap();
    assert_eq!(db.get(b"k").unwrap(), Some(b"v".to_vec()));
    assert_eq!(db.scan_all().len(), 1);
}

#[test]
fn writes_continue_after_recovery() {
    let dir = Dir::new();
    {
        let db = Db::open_with(&dir, no_compact()).unwrap();
        db.put(b"before", b"1").unwrap();
    }
    let db = Db::open_with(&dir, no_compact()).unwrap();
    db.put(b"after", b"2").unwrap();
    assert_eq!(db.get(b"before").unwrap(), Some(b"1".to_vec()));
    assert_eq!(db.get(b"after").unwrap(), Some(b"2".to_vec()));

    drop(db);
    let db = Db::open_with(&dir, no_compact()).unwrap();
    assert_eq!(db.get(b"after").unwrap(), Some(b"2".to_vec()));
}

#[test]
fn many_unflushed_writes_recover() {
    let dir = Dir::new();
    {
        let db = Db::open_with(&dir, no_compact()).unwrap();
        for i in 0..1_000u32 {
            db.put(format!("key-{i:04}").into_bytes(), format!("val-{i}").into_bytes()).unwrap();
        }
        for i in 0..200u32 {
            db.delete(format!("key-{i:04}").into_bytes()).unwrap();
        }
    }
    let db = Db::open_with(&dir, no_compact()).unwrap();
    assert_eq!(db.scan_all().len(), 800);
    assert_eq!(db.get(b"key-0000").unwrap(), None);
    assert_eq!(db.get(b"key-0199").unwrap(), None);
    assert_eq!(db.get(b"key-0200").unwrap(), Some(b"val-200".to_vec()));
    assert_eq!(db.get(b"key-0999").unwrap(), Some(b"val-999".to_vec()));
}

#[test]
fn multi_megabyte_value_round_trips() {
    let dir = Dir::new();
    let big = vec![0x5Au8; 4 * 1024 * 1024];
    {
        let db = Db::open(&dir).unwrap();
        db.put(b"big", &big).unwrap();
        db.put(b"small", b"x").unwrap();
        db.flush().unwrap();
        assert_eq!(db.get(b"big").unwrap(), Some(big.clone()));
    }
    let db = Db::open(&dir).unwrap();
    assert_eq!(db.get(b"big").unwrap(), Some(big));
    assert_eq!(db.get(b"small").unwrap(), Some(b"x".to_vec()));
}

#[test]
fn many_runs_read_and_scan_correctly() {
    let db = db_no_autocompact();
    for run in 0..50u32 {
        db.put(format!("k{run:03}").into_bytes(), format!("v{run}").into_bytes()).unwrap();
        db.flush().unwrap();
    }
    for run in 0..50u32 {
        assert_eq!(
            db.get(format!("k{run:03}").into_bytes()).unwrap(),
            Some(format!("v{run}").into_bytes())
        );
    }
    assert_eq!(db.scan_all().len(), 50);
}

#[test]
fn empty_key_and_value_round_trip() {
    let db = db();
    db.put(b"", b"empty-key").unwrap();
    db.put(b"empty-value", b"").unwrap();
    db.flush().unwrap();
    assert_eq!(db.get(b"").unwrap(), Some(b"empty-key".to_vec()));
    assert_eq!(db.get(b"empty-value").unwrap(), Some(Vec::new()));
}

#[test]
fn very_long_key_round_trips() {
    let db = db();
    let long_key = vec![0xAB; 64 * 1024];
    db.put(&long_key, b"v").unwrap();
    db.flush().unwrap();
    assert_eq!(db.get(&long_key).unwrap(), Some(b"v".to_vec()));
}

#[test]
fn io_failure_on_flush_is_an_error_not_a_panic() {
    let dir = Dir::new();
    let db = Db::open(&dir).unwrap();
    db.put(b"k", b"v").unwrap();
    dir.gone.set(true);
    assert!(db.flush().is_err());
}

#[test]
fn many_writes_across_flushes_then_reopen() {
    let dir = Dir::new();
    let config = LsmConfig::new().memtable_capacity(512);
    {
        let db = Db::open_with(&dir, config.clone()).unwrap();
        for i in 0..2_000u32 {
            let key = format!("key-{i:05}");
            let val = format!("value-{i}");
            db.put(key.as_bytes(), val.as_bytes()).unwrap();
        }
        for i in 0..500u32 {
            let key = format!("key-{i:05}");
            db.put(key.as_bytes(), b"updated").unwrap();
        }
        for i in 1_500..2_000u32 {
            let key = format!("key-{i:05}");
            db.delete(key.as_bytes()).unwrap();
        }
        db.flush().unwrap();
    }

    let db = Db::open_with(&dir, config).unwrap();
    assert_eq!(db.get(b"key-00000").unwrap(), Some(b"updated".to_vec()));
    assert_eq!(db.get(b"key-00499").unwrap(), Some(b"updated".to_vec()));
    assert_eq!(db.get(b"key-00500").unwrap(), Some(b"value-500".to_vec()));
    assert_eq!(db.get(b"key-01499").unwrap(), Some(b"value-1499".to_vec()));
    assert_eq!(db.get(b"key-01500").unwrap(), None);
    assert_eq!(db.get(b"key-01999").unwrap(), None);
    assert_eq!(db.scan_all().len(), 1_500);
}

#[test]
fn scan_returns_keys_in_sorted_order() {
    let db = db();
    for key in ["delta", "alpha", "charlie", "bravo"] {
        db.put(key.as_bytes(), b"x").unwrap();
    }
    let keys: Vec<Vec<u8>> = db.scan_all().into_iter().map(|(k, _)| k).collect();
    assert_eq!(
        keys,
        vec![b"alpha".to_vec(), b"bravo".to_vec(), b"charlie".to_vec(), b"delta".to_vec()]
    );
}

#[test]
fn batch_is_visible_atomically_after_write() {
    let db = db();
    db.put(b"existing", b"old").unwrap();

    let mut batch = Batch::new();
    for i in 0..100u32 {
        batch.put(format!("b{i:03}").as_bytes(), b"v");
    }
    batch.delete(b"existing");
    db.write(batch).unwrap();

    assert_eq!(db.get(b"b000").unwrap(), Some(b"v".to_vec()));
    assert_eq!(db.get(b"b099").unwrap(), Some(b"v".to_vec()));
    assert_eq!(db.get(b"existing").unwrap(), None);
}

#[test]
fn ungraceful_exit_preserves_flushed_data() {
    let dir = Dir::new();
    {
        let db = Db::open_with(&dir, no_compact()).unwrap();
        db.put(b"a", b"1").unwrap();
        db.flush().unwrap();
        db.put(b"b", b"2").unwrap();
        db.flush().unwrap();
        std::mem::forget(db);
    }
    let db = Db::open(&dir).unwrap();
    assert_eq!(db.get(b"a").unwrap(), Some(b"1".to_vec()));
    assert_eq!(db.get(b"b").unwrap(), Some(b"2".to_vec()));
}

#[test]
fn stale_temp_file_is_removed_on_open() {
    let dir = Dir::new();
    {
        let db = Db::open_with(&dir, no_compact()).unwrap();
        db.put(b"k", b"v").unwrap();
        db.flush().unwrap();
    }
    let tmp = "run-0000009999.sst.tmp".to_string();
    let _ = dir.files.borrow_mut().insert(tmp.clone(), b"partial garbage".to_vec());

    let db = Db::open(&dir).unwrap();
    assert!(!dir.has(&tmp));
    assert_eq!(db.get(b"k").unwrap(), Some(b"v".to_vec()));
}

#[test]
fn orphan_run_is_removed_on_open() {
    let dir = Dir::new();
    {
        let db = Db::open_with(&dir, no_compact()).unwrap();
        db.put(b"k", b"v").unwrap();
        db.flush().unwrap();
    }
    let existing = dir.ending(".sst");
    assert_eq!(existing.len(), 1);
    let orphan = "run-0000008888.sst".to_string();
    let copy = dir.files.borrow()[&existing[0]].clone();
    let _ = dir.files.borrow_mut().insert(orphan.clone(), copy);

    let db = Db::open(&dir).unwrap();
    assert!(!dir.has(&orphan));
    assert_eq!(db.get(b"k").unwrap(), Some(b"v".to_vec()));
    assert_eq!(dir.ending(".sst").len(), 1);
}

#[test]
fn corrupted_run_is_detected() {
    let dir = Dir::new();
    {
        let db = Db::open_with(&dir, no_compact()).unwrap();
        db.put(b"alpha", b"first").unwrap();
        db.put(b"beta", b"second").unwrap();
        db.flush().unwrap();
    }
    let run = dir.ending(".sst").pop().unwrap();
    dir.files.borrow_mut().get_mut(&run).unwrap()[12] ^= 0xFF;

    let db = Db::open(&dir).unwrap();
    assert!(matches!(db.get(b"alpha"), Err(Error::Corruption { .. })));
}

#[test]
fn missing_run_named_by_manifest_is_corruption() {
    let dir = Dir::new();
    {
        let db = Db::open_with(&dir, no_compact()).unwrap();
        db.put(b"k", b"v").unwrap();
        db.flush().unwrap();
    }
    let run = dir.ending(".sst").pop().unwrap();
    let _ = dir.files.borrow_mut().remove(&run);

    assert!(matches!(
        Db::open(&dir),
        Err(Error::Corruption { reason: "manifest references a missing run", .. })
    ));
}

#[test]
fn many_flush_compact_cycles_reopen_clean() {
    let dir = Dir::new();
    {
        let config = LsmConfig::new().memtable_capacity(256).compaction_trigger(3);
        let db = Db::open_with(&dir, config).unwrap();
        for i in 0..2_000u32 {
            db.put(format!("key-{i:05}").into_bytes(), b"v").unwrap();
        }
        for i in 0..500u32 {
            db.delete(format!("key-{i:05}").into_bytes()).unwrap();
        }
        db.flush().unwrap();
    }
    let db = Db::open(&dir).unwrap();
    assert_eq!(db.scan_all().len(), 1_500);
    assert_eq!(db.get(b"key-00000").unwrap(), None);
    assert_eq!(db.get(b"key-00500").unwrap(), Some(b"v".to_vec()));
    assert_eq!(db.get(b"key-01999").unwrap(), Some(b"v".to_vec()));
}

struct Rng(u64);

impl Rng {
    fn next(&mut self) -> u64 {
        self.0 = self.0.wrapping_add(0x9E37_79B9_7F4A_7C15);
        let mut z = self.0;
        z = (z ^ (z >> 30)).wrapping_mul(0xBF58_476D_1CE4_E5B9);
        z = (z ^ (z >> 27)).wrapping_mul(0x94D0_49BB_1331_11EB);
        z ^ (z >> 31)
    }

    fn below(&mut self, n: u64) -> u64 {
        self.next() % n
    }
}

const KEY_SPACE: u64 = 4_000;
const OPS_PER_PHASE: u32 = 8_000;
const PHASES: u32 = 4;

fn churn() -> LsmConfig {
    LsmConfig::new().memtable_capacity(8 * 1024).compaction_trigger(3)
}

fn key(k: u64) -> Vec<u8> {
    format!("key-{k:06}").into_bytes()
}

fn apply_phase(db: &Db, model: &mut BTreeMap<Vec<u8>, Vec<u8>>, rng: &mut Rng, phase: u32) {
    for op in 0..OPS_PER_PHASE {
        let k = key(rng.below(KEY_SPACE));
        if rng.below(10) < 7 {
            let v = format!("p{phase}-op{op}").into_bytes();
            db.put(&k, &v).unwrap();
            let _ = model.insert(k, v);
        } else {
            db.delete(&k).unwrap();
            let _ = model.remove(&k);
        }
    }
}

fn verify(db: &Db, model: &BTreeMap<Vec<u8>, Vec<u8>>) {
    let scanned = db.scan_all();
    let expected: Vec<(Vec<u8>, Vec<u8>)> =
        model.iter().map(|(k, v)| (k.clone(), v.clone())).collect();
    assert_eq!(scanned.len(), expected.len());
    assert_eq!(scanned, expected);
    for k in 0..KEY_SPACE {
        let key = key(k);
        assert_eq!(db.get(&key).unwrap().as_deref(), model.get(&key).map(Vec::as_slice));
    }
}

#[test]
fn sustained_workload_survives_restarts() {
    let dir = Dir::new();
    let mut model: BTreeMap<Vec<u8>, Vec<u8>> = BTreeMap::new();
    let mut rng = Rng(0xC0FF_EE12_3456_789A);
    for phase in 0..PHASES {
        let db = Db::open_with(&dir, churn()).unwrap();
        apply_phase(&db, &mut model, &mut rng, phase);
        db.flush().unwrap();
        verify(&db, &model);
    }
    let db = Db::open(&dir).unwrap();
    verify(&db, &model);
}

#[test]
fn ranged_scans_track_the_model_under_churn() {
    let db = Db::open_with(&Dir::new(), churn()).unwrap();
    let mut model: BTreeMap<Vec<u8>, Vec<u8>> = BTreeMap::new();
    let mut rng = Rng(0x1234_5678_9ABC_DEF0);
    apply_phase(&db, &mut model, &mut rng, 0);
    db.flush().unwrap();
    for _ in 0..32 {
        let a = key(rng.below(KEY_SPACE));
        let b = key(rng.below(KEY_SPACE));
        let (lo, hi) = if a <= b { (a, b) } else { (b, a) };
        let got = db.scan(between(&lo, &hi)).unwrap();
        let expected: Vec<(Vec<u8>, Vec<u8>)> =
            model.range(lo..hi).map(|(k, v)| (k.clone(), v.clone())).collect();
        assert_eq!(got, expected);
    }
}

#[test]
fn workloads_match_a_map_for_every_buffer_size() {
    for (seed, capacity) in [(1u64, 0usize), (2, 64), (3, 4096)] {
        let mut rng = Rng(seed);
        let dir = Dir::new();
        let config = LsmConfig::new().memtable_capacity(capacity).compaction_trigger(3);
        let mut model: BTreeMap<Vec<u8>, Vec<u8>> = BTreeMap::new();
        {
            let db = Db::open_with(&dir, config.clone()).unwrap();
            for _ in 0..200 {
                let k: Vec<u8> = (0..1 + rng.below(3)).map(|_| rng.below(6) as u8).collect();
                if rng.below(2) == 0 {
                    let v: Vec<u8> = (0..rng.below(8)).map(|_| rng.below(256) as u8).collect();
                    db.put(&k, &v).unwrap();
                    let _ = model.insert(k, v);
                } else {
                    db.delete(&k).unwrap();
                    let _ = model.remove(&k);
                }
            }
            let expected: Vec<_> = model.iter().map(|(k, v)| (k.clone(), v.clone())).collect();
            assert_eq!(db.scan_all(), expected);
        }
        let db = Db::open_with(&dir, config).unwrap();
        let expected: Vec<_> = model.iter().map(|(k, v)| (k.clone(), v.clone())).collect();
        assert_eq!(db.scan_all(), expected);
        for (k, v) in &expected {
            assert_eq!(db.get(k).unwrap().as_ref(), Some(v));
        }
    }
}

#[test]
fn damaged_runs_give_results_not_panics() {
    let mut rng = Rng(7);
    let dir = Dir::new();
    {
        let db = Db::open_with(&dir, no_compact()).unwrap();
        for i in 0..300u32 {
            db.put(format!("k{i:03}").into_bytes(), vec![b'x'; 40]).unwrap();
        }
        db.flush().unwrap();
    }
    let run = dir.ending(".sst").pop().unwrap();
    let intact = dir.files.borrow()[&run].clone();
    for case in 0..120 {
        let mut bytes = intact.clone();
        if case % 2 == 0 {
            for _ in 0..1 + rng.below(8) {
                let i = rng.below(bytes.len() as u64) as usize;
                bytes[i] ^= 1 + rng.below(255) as u8;
            }
        } else {
            bytes.truncate(rng.below(bytes.len() as u64) as usize);
        }
        let _ = dir.files.borrow_mut().insert(run.clone(), bytes);
        match Db::open(&dir) {
            Ok(db) => {
                let mut wrong = 0;
                for i in 0..300u32 {
                    match db.get(format!("k{i:03}").into_bytes()) {
                        Ok(Some(v)) => assert_eq!(v, vec![b'x'; 40]),
                        Ok(None) => wrong += 1,
                        Err(Error::Corruption { .. }) => {}
                        Err(e) => panic!("unexpected error: {}", e.message()),
                    }
                }
                assert_eq!(wrong, 0);
            }
            Err(e) => assert!(matches!(e, Error::Corruption { .. })),
        }
        let _ = dir.files.borrow_mut().insert(run.clone(), intact.clone());
    }
}

#[test]
fn a_refused_log_record_changes_nothing() {
    let db = db();
    db.put(b"k", b"v").unwrap();
    let refuse =
        |_: Vec<u8>| Err(Error::io("append to log", std::io::Error::from(std::io::ErrorKind::Other)));
    assert!(db.lsm.borrow_mut().put(b"k", b"w", refuse).is_err());
    assert!(db.lsm.borrow_mut().delete(b"k", refuse).is_err());
    let mut batch = Batch::new();
    batch.put(b"x", b"y");
    assert!(db.lsm.borrow_mut().write(batch, refuse).is_err());
    assert_eq!(db.get(b"k").unwrap(), Some(b"v".to_vec()));
    assert_eq!(db.get(b"x").unwrap(), None);
}

#[test]
fn a_crash_before_the_log_is_emptied_recovers_the_same_view() {
    let dir = Dir::new();
    let log;
    {
        let db = Db::open_with(&dir, no_compact()).unwrap();
        db.put(b"a", b"1").unwrap();
        db.put(b"b", b"2").unwrap();
        db.delete(b"a").unwrap();
        log = dir.log.borrow().clone();
        db.flush().unwrap();
    }
    *dir.log.borrow_mut() = log;
    let db = Db::open_with(&dir, no_compact()).unwrap();
    assert_eq!(db.scan_all(), vec![(b"b".to_vec(), b"2".to_vec())]);
    assert_eq!(db.run_count(), 2);
}

#[test]
fn runs_flushed_during_a_compaction_stay_newer() {
    let db = db_no_autocompact();
    db.put(b"a", b"1").unwrap();
    db.flush().unwrap();
    db.put(b"b", b"2").unwrap();
    db.flush().unwrap();
    let plan = db.lsm.borrow_mut().begin_compaction().unwrap();
    assert!(db.lsm.borrow_mut().begin_compaction().is_none());
    db.put(b"a", b"new").unwrap();
    db.delete(b"b").unwrap();
    db.flush().unwrap();
    db.compact(plan).unwrap();
    db.lsm.borrow_mut().end_compaction();
    assert_eq!(db.run_count(), 2);
    assert_eq!(db.get(b"a").unwrap(), Some(b"new".to_vec()));
    assert_eq!(db.get(b"b").unwrap(), None);
    assert_eq!(db.scan_all(), vec![(b"a".to_vec(), b"new".to_vec())]);
}

#[test]
fn a_refused_manifest_keeps_the_old_runs() {
    let db = db_no_autocompact();
    db.put(b"a", b"1").unwrap();
    db.flush().unwrap();
    db.put(b"b", b"2").unwrap();
    db.flush().unwrap();
    let plan = db.lsm.borrow_mut().begin_compaction().unwrap();
    db.dir.gone.set(true);
    assert!(db.compact(plan).is_err());
    db.lsm.borrow_mut().end_compaction();
    db.dir.gone.set(false);
    assert_eq!(db.run_count(), 2);
    assert_eq!(db.scan_all().len(), 2);
    db.compact_now().unwrap();
    assert_eq!(db.run_count(), 1);
}

#[test]
fn compaction_needs_two_runs() {
    let db = db_no_autocompact();
    assert!(db.lsm.borrow_mut().begin_compaction().is_none());
    db.put(b"a", b"1").unwrap();
    db.flush().unwrap();
    assert!(db.lsm.borrow_mut().begin_compaction().is_none());
}

#[test]
fn sequence_numbers_stay_past_every_file() {
    let dir = Dir::new();
    {
        let db = Db::open(&dir).unwrap();
        db.put(b"k", b"v").unwrap();
        db.flush().unwrap();
    }
    let _ = dir.files.borrow_mut().insert("run-0000000041.sst".to_string(), Vec::new());
    let db = Db::open(&dir).unwrap();
    db.put(b"k", b"w").unwrap();
    db.flush().unwrap();
    assert!(dir.has("run-0000000042.sst"));
    assert!(!dir.has("run-0000000041.sst"));
    let manifest = String::from_utf8(dir.files.borrow()["MANIFEST"].clone()).unwrap();
    assert_eq!(
        manifest,
        "LSMDB-MANIFEST v1\nnext_seq=43\nrun-0000000042.sst\nrun-0000000000.sst\n"
    );
}

#[test]
fn damaged_sidecars_are_removed() {
    let dir = Dir::new();
    {
        let db = Db::open(&dir).unwrap();
        db.put(b"k", b"v").unwrap();
        db.flush().unwrap();
    }
    let sidecar = dir.ending(".sst.bloom").pop().unwrap();
    let last = dir.files.borrow()[&sidecar].len() - 1;
    dir.files.borrow_mut().get_mut(&sidecar).unwrap()[last] ^= 1;
    let db = Db::open(&dir).unwrap();
    assert!(!dir.has(&sidecar));
    assert_eq!(db.get(b"k").unwrap(), Some(b"v".to_vec()));
}

#[test]
fn empty_buffers_are_not_flushed() {
    let db = db();
    db.flush().unwrap();
    assert_eq!(db.run_count(), 0);
    assert!(db.dir.files.borrow().is_empty());
}

#[test]
fn bounded_ranges_of_every_kind() {
    let db = db_no_autocompact();
    for k in ["a", "b", "c", "d"] {
        db.put(k.as_bytes(), k.as_bytes()).unwrap();
    }
    db.flush().unwrap();
    let keys = |start: KeyBound, end: KeyBound| -> Vec<Vec<u8>> {
        db.scan(KeyRange { start, end }).unwrap().into_iter().map(|(k, _)| k).collect()
    };
    let at = |k: &str| k.as_bytes().to_vec();
    assert_eq!(
        keys(KeyBound::Excluded(at("a")), KeyBound::Included(at("c"))),
        vec![at("b"), at("c")]
    );
    assert_eq!(keys(KeyBound::Included(at("c")), KeyBound::Unbounded), vec![at("c"), at("d")]);
    assert_eq!(keys(KeyBound::Unbounded, KeyBound::Excluded(at("b"))), vec![at("a")]);
    assert!(keys(KeyBound::Included(at("c")), KeyBound::Excluded(at("b"))).is_empty());
}

fn two_blocks() -> Db {
    let db = db_no_autocompact();
    db.put(b"a", vec![1u8; 3000]).unwrap();
    db.put(b"b", vec![2u8; 3000]).unwrap();
    db.flush().unwrap();
    db
}

fn damage(db: &Db, at: usize) {
    let run = db.dir.ending(".sst").pop().unwrap();
    db.dir.files.borrow_mut().get_mut(&run).unwrap()[at] ^= 0xFF;
}

#[test]
fn a_scan_fails_on_damage_up_to_its_end_and_no_further() {
    let db = two_blocks();
    // In the second block, which holds `b` alone.
    damage(&db, 3500);
    let first = KeyRange {
        start: KeyBound::Unbounded,
        end: KeyBound::Excluded(b"a".to_vec()),
    };
    assert!(db.scan(first).unwrap().is_empty());
    // The next key after `a` may still be in the range, and is in the second block.
    assert!(db.scan(between(b"a", b"aa")).is_err());
    assert!(matches!(
        db.scan(KeyRange::all()),
        Err(Error::Corruption { reason: "data block checksum mismatch", .. })
    ));
    assert!(db.scan(between(b"b", b"c")).is_err());
    assert_eq!(db.get(b"a").unwrap(), Some(vec![1u8; 3000]));
    assert!(matches!(
        db.get(b"b"),
        Err(Error::Corruption { reason: "data block checksum mismatch", .. })
    ));
}

#[test]
fn a_compaction_of_a_damaged_run_changes_nothing() {
    let db = two_blocks();
    db.put(b"c", b"3").unwrap();
    db.flush().unwrap();
    let runs = db.dir.ending(".sst");
    let _ = db.dir.files.borrow_mut().get_mut(&runs[0]).map(|b| b[3500] ^= 0xFF);
    let before = db.dir.files.borrow().clone();
    assert!(matches!(db.compact_now(), Err(Error::Corruption { .. })));
    assert_eq!(*db.dir.files.borrow(), before);
    assert_eq!(db.run_count(), 2);
    assert_eq!(db.get(b"c").unwrap(), Some(b"3".to_vec()));
    assert_eq!(db.get(b"a").unwrap(), Some(vec![1u8; 3000]));
}

#[test]
fn an_output_is_sealed_in_order() {
    let db = two_blocks();
    db.put(b"a", b"new").unwrap();
    db.flush().unwrap();
    let read = |r: u64, o: u64, n: usize| db.read(r, o, n);
    let plan = db.lsm.borrow_mut().begin_compaction().unwrap();
    let mut bytes = Vec::new();
    let mut job = Compaction::start(&plan.inputs, dimensions(4), &mut bytes);
    while job.advance(&read, 1024, &mut bytes).unwrap() {}
    let filter = job.finish(&mut bytes).unwrap();
    let refused = || Error::Corruption { reason: "refused" };
    let attached = Cell::new(false);
    let failed = seal(
        &plan,
        bytes.len() as u64,
        filter,
        || Err(refused()),
        |_: String, _: Vec<u8>| {
            attached.set(true);
            Ok(())
        },
        &read,
    );
    assert!(matches!(failed, Err(Error::Corruption { reason: "refused", .. })));
    assert!(!attached.get());
    let retired = RefCell::new(Vec::new());
    let output = {
        let _ = db.runs.borrow_mut().insert(plan.run_id, plan.name.clone());
        db.dir.write("create sorted run", plan.name.clone(), bytes.clone()).unwrap();
        seal(
            &plan,
            bytes.len() as u64,
            None,
            || Ok(()),
            |_: String, _: Vec<u8>| Err(refused()),
            &read,
        )
        .unwrap()
    };
    let done = db.lsm.borrow_mut().install_compaction(
        &plan.inputs,
        output,
        |text: String| {
            assert_eq!(text, "LSMDB-MANIFEST v1\nnext_seq=3\nrun-0000000002.sst\n");
            Err(refused())
        },
        |ids: Vec<u64>| retired.borrow_mut().extend(ids),
    );
    assert!(done.is_err());
    assert!(retired.borrow().is_empty());
    assert_eq!(db.run_count(), 2);
    let again = seal(&plan, bytes.len() as u64, None, || Ok(()), |_: String, _: Vec<u8>| Ok(()), &read).unwrap();
    db.lsm
        .borrow_mut()
        .install_compaction(
            &plan.inputs,
            again,
            |_: String| {
                assert!(retired.borrow().is_empty());
                Ok(())
            },
            |ids: Vec<u64>| retired.borrow_mut().extend(ids),
        )
        .unwrap();
    assert_eq!(*retired.borrow(), vec![1, 0]);
    assert_eq!(db.run_count(), 1);
    assert_eq!(db.get(b"a").unwrap(), Some(b"new".to_vec()));
}

#[test]
fn opening_leaves_the_manifest_and_the_runs_alone() {
    let dir = Dir::new();
    {
        let db = Db::open(&dir).unwrap();
        db.put(b"k", b"v").unwrap();
        db.flush().unwrap();
    }
    let before = dir.files.borrow().clone();
    let db = Db::open(&dir).unwrap();
    assert_eq!(*dir.files.borrow(), before);
    assert_eq!(db.get(b"k").unwrap(), Some(b"v".to_vec()));
}

#[test]
fn a_damaged_run_is_reported_before_its_sidecar() {
    let dir = Dir::new();
    {
        let db = Db::open(&dir).unwrap();
        db.put(b"k", b"v").unwrap();
        db.flush().unwrap();
    }
    let run = dir.ending(".sst").pop().unwrap();
    let at = dir.files.borrow()[&run].len() - 1;
    dir.files.borrow_mut().get_mut(&run).unwrap()[at] ^= 0xFF;
    let text = String::from_utf8(dir.files.borrow()["MANIFEST"].clone()).unwrap();
    let runs = RefCell::new(BTreeMap::new());
    let opened = Lsm::open(Some(&text)).unwrap().complete(
        &|id: u64, name: String| {
            let found = dir.files.borrow().get(&name).map(|b| b.len() as u64);
            let _ = runs.borrow_mut().insert(id, name);
            Ok(found)
        },
        &|_: String| Err(Error::Corruption { reason: "unreadable sidecar" }),
        &|_: String| {},
        &|r: u64, o: u64, n: usize| read_from(&dir, &runs, r, o, n),
        || panic!("the run does not open"),
        &|_: String, _: Verdict| panic!("nothing is removed"),
        || panic!("the log is not read"),
    );
    assert!(matches!(
        opened,
        Err(Error::Corruption { reason: "bad magic; not an lsm-db sorted run", .. })
    ));
}

#[test]
fn a_flush_that_cannot_open_its_run_leaves_the_manifest() {
    let db = db_no_autocompact();
    db.put(b"old", b"1").unwrap();
    db.flush().unwrap();
    db.put(b"new", b"2").unwrap();
    let before = db.dir.files.borrow()["MANIFEST"].clone();
    let failed = db.lsm.borrow_mut().flush(
        None,
        |_: u64, _: String, _: Vec<u8>| Ok(()),
        |_: String, _: Vec<u8>| panic!("no filter can be sized"),
        &|_: u64, _: u64, _: usize| -> std::result::Result<Vec<u8>, std::io::Error> {
            Err(std::io::Error::from(std::io::ErrorKind::NotFound))
        },
        |_: String| panic!("the manifest stays"),
        || panic!("the log stays"),
    );
    assert!(matches!(failed, Err(Error::Io { context: "read run footer", .. })));
    assert_eq!(db.dir.files.borrow()["MANIFEST"], before);
    assert_eq!(db.run_count(), 1);
    assert_eq!(db.get(b"old").unwrap(), Some(b"1".to_vec()));
}

#[test]
fn deleted_keys_do_not_stop_a_scan() {
    let db = db_no_autocompact();
    db.put(b"a", vec![1u8; 3000]).unwrap();
    db.delete(b"c").unwrap();
    db.put(b"d", vec![2u8; 3000]).unwrap();
    db.flush().unwrap();
    // `d` is in a block of its own; the deletion of `c` is passed over before it.
    damage(&db, 3500);
    assert!(db.scan(between(b"a", b"b")).is_err());
    let live = two_blocks();
    live.put(b"aa", b"3").unwrap();
    live.flush().unwrap();
    // A live key behind the range stops the scan before the damaged block is needed.
    let runs = live.dir.ending(".sst");
    let _ = live.dir.files.borrow_mut().get_mut(&runs[0]).map(|b| b[3500] ^= 0xFF);
    let first = KeyRange {
        start: KeyBound::Unbounded,
        end: KeyBound::Excluded(b"a".to_vec()),
    };
    assert!(live.scan(first).unwrap().is_empty());
}

#[test]
fn opening_fails_with_what_its_parts_fail_with() {
    let dir = Dir::new();
    {
        let db = Db::open(&dir).unwrap();
        db.put(b"k", b"v").unwrap();
        db.flush().unwrap();
    }
    let text = String::from_utf8(dir.files.borrow()["MANIFEST"].clone()).unwrap();
    let runs = RefCell::new(BTreeMap::new());
    let refused = || Error::Corruption { reason: "refused" };
    // Which part fails: looking for the run, its sidecar, the listing, the removal, the log.
    for part in 0..6 {
        let opened = Lsm::open(Some(&text)).unwrap().complete(
            &|id: u64, name: String| {
                let found = dir.files.borrow().get(&name).map(|b| b.len() as u64);
                let _ = runs.borrow_mut().insert(id, name);
                if part == 0 { Err(refused()) } else { Ok(found) }
            },
            &|name: String| {
                if part == 1 { Err(refused()) } else { Ok(dir.files.borrow().get(&name).cloned()) }
            },
            &|_: String| panic!("the sidecar is intact"),
            &|r: u64, o: u64, n: usize| read_from(&dir, &runs, r, o, n),
            || if part == 2 { Err(refused()) } else { Ok(vec!["left.tmp".to_string()]) },
            &|name: String, verdict: Verdict| {
                assert_eq!((name.as_str(), verdict), ("left.tmp", Verdict::Temporary));
                if part == 3 { Err(refused()) } else { Ok(()) }
            },
            || if part == 4 { Err(refused()) } else { Ok(Vec::new()) },
        );
        match opened {
            Ok(lsm) => {
                assert_eq!(part, 5);
                assert_eq!(lsm.run_count(), 1);
            }
            Err(Error::Corruption { reason, .. }) => {
                assert!(part < 5);
                assert_eq!(reason, "refused");
            }
            Err(_) => panic!("expected the refusal"),
        }
    }
    dir.log.borrow_mut().push(b"damaged".to_vec());
    assert!(matches!(Db::open(&dir), Err(Error::Corruption { .. })));
}

/// Looks `key` up in the runs that a reader took, reading the files as they were then.
fn search_in(
    runs: &Vec<Arc<SsTable>>,
    names: &RefCell<BTreeMap<u64, String>>,
    files: &Dir,
    key: &[u8],
) -> Option<Vec<u8>> {
    let none = |_: BlockKey| -> Option<Arc<DecodedBlock>> { None };
    let skip = |_: BlockKey, _: Arc<DecodedBlock>| {};
    search(runs, key, &|r, o, n| read_from(files, names, r, o, n), &none, &skip).unwrap()
}

fn runs_for(db: &Db, key: &[u8]) -> Vec<Arc<SsTable>> {
    match db.lsm.borrow().probe(key) {
        Probe::Search(runs) => runs,
        Probe::Known(_) => panic!("the key is buffered"),
    }
}

fn frozen(dir: &Dir) -> Dir {
    let copy = Dir::default();
    *copy.files.borrow_mut() = dir.files.borrow().clone();
    copy
}

#[test]
fn reader_sees_newest_value_through_compaction() {
    let db = db_no_autocompact();
    db.put(b"k", b"1").unwrap();
    db.flush().unwrap();
    db.put(b"k", b"2").unwrap();
    db.flush().unwrap();

    let before = runs_for(&db, b"k");
    let files = frozen(&db.dir);
    db.compact_now().unwrap();
    let after = runs_for(&db, b"k");
    assert_eq!(search_in(&before, &db.runs, &files, b"k"), Some(b"2".to_vec()));
    assert_eq!(search_in(&after, &db.runs, &db.dir, b"k"), Some(b"2".to_vec()));
    assert_eq!(db.get(b"k").unwrap(), Some(b"2".to_vec()));
}

#[test]
fn reader_sees_deletion_through_compaction() {
    let db = db_no_autocompact();
    db.put(b"k", b"1").unwrap();
    db.flush().unwrap();
    db.delete(b"k").unwrap();
    db.flush().unwrap();

    let before = runs_for(&db, b"k");
    let files = frozen(&db.dir);
    db.compact_now().unwrap();
    let after = runs_for(&db, b"k");
    assert_eq!(search_in(&before, &db.runs, &files, b"k"), None);
    assert_eq!(search_in(&after, &db.runs, &db.dir, b"k"), None);
    assert_eq!(db.get(b"k").unwrap(), None);
    assert_eq!(after[0].entry_count(), 0);
}

#[test]
fn a_compaction_hands_out_chunks() {
    let db = db_no_autocompact();
    for run in 0..2u32 {
        for i in 0..60u32 {
            db.put(format!("k{i:03}").as_bytes(), &[b'0' + run as u8; 500]).unwrap();
        }
        db.flush().unwrap();
    }
    let read = |r: u64, o: u64, n: usize| db.read(r, o, n);
    let plan = db.lsm.borrow_mut().begin_compaction().unwrap();
    let mut out = Vec::new();
    let mut job = Compaction::start(&plan.inputs, dimensions(60), &mut out);
    let mut chunks = 0;
    let mut all = Vec::new();
    loop {
        let more = job.advance(&read, 2048, &mut out).unwrap();
        assert!(out.len() < 2048 + 8192, "{}", out.len());
        assert_eq!(more, out.len() >= 2048);
        all.append(&mut out);
        if !more {
            break;
        }
        chunks += 1;
    }
    assert!(chunks > 4);
    let _ = job.finish(&mut out).unwrap();
    all.append(&mut out);
    let mut whole = Vec::new();
    let mut job = Compaction::start(&plan.inputs, dimensions(60), &mut whole);
    assert!(!job.advance(&read, usize::MAX, &mut whole).unwrap());
    let _ = job.finish(&mut whole).unwrap();
    assert_eq!(all, whole);
}

#[test]
fn a_flush_whose_log_stays_has_its_run() {
    let db = db_no_autocompact();
    db.put(b"k", b"v").unwrap();
    let names = RefCell::new(Vec::new());
    let run = RefCell::new(Vec::new());
    let failed = db.lsm.borrow_mut().flush(
        dimensions(1),
        |_: u64, name: String, bytes: Vec<u8>| {
            names.borrow_mut().push(name);
            *run.borrow_mut() = bytes;
            Ok(())
        },
        |name: String, _: Vec<u8>| {
            names.borrow_mut().push(name);
            Ok(())
        },
        &|_: u64, offset: u64, len: usize| -> std::result::Result<Vec<u8>, std::io::Error> {
            let at = offset as usize;
            Ok(run.borrow()[at..at + len].to_vec())
        },
        |text: String| {
            assert_eq!(text, "LSMDB-MANIFEST v1\nnext_seq=1\nrun-0000000000.sst\n");
            Ok(())
        },
        || Err(Error::Corruption { reason: "refused" }),
    );
    assert!(matches!(failed, Err(Error::Corruption { reason: "refused", .. })));
    assert_eq!(*names.borrow(), vec!["run-0000000000.sst", "run-0000000000.sst.bloom"]);
    assert_eq!(db.run_count(), 1);
    assert_eq!(db.lsm.borrow().buffered_keys(), 0);
}

#[test]
fn a_batch_is_its_operations_one_by_one() {
    let (whole, single) = (db_no_autocompact(), db_no_autocompact());
    for db in [&whole, &single] {
        db.put(b"a", b"0").unwrap();
        db.put(b"d", b"0").unwrap();
        db.flush().unwrap();
    }
    let mut batch = Batch::new();
    batch.put(b"a", b"1");
    batch.put(b"b", b"1");
    batch.delete(b"a");
    batch.put(b"b", b"2");
    batch.delete(b"c");
    batch.put(b"c", b"3");
    whole.write(batch).unwrap();
    single.put(b"a", b"1").unwrap();
    single.put(b"b", b"1").unwrap();
    single.delete(b"a").unwrap();
    single.put(b"b", b"2").unwrap();
    single.delete(b"c").unwrap();
    single.put(b"c", b"3").unwrap();
    let expected = vec![
        (b"b".to_vec(), b"2".to_vec()),
        (b"c".to_vec(), b"3".to_vec()),
        (b"d".to_vec(), b"0".to_vec()),
    ];
    assert_eq!(whole.scan_all(), expected);
    assert_eq!(single.scan_all(), expected);
}
