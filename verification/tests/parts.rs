//! Scans, ranges, names, recovery and the compactor's state.

use lsm_db::compactor::{CompactionState, Directive};
use lsm_db::config::LsmConfig;
use lsm_db::db::Lsm;
use lsm_db::durability::encode_one;
use lsm_db::error::Error;
use lsm_db::keys::{compare_keys, key_before, same_key, KeyOrder};
use lsm_db::manifest::Manifest;
use lsm_db::range::{KeyBound, KeyRange, Pos};
use lsm_db::record::Record;
use lsm_db::recovery::Verdict;
use lsm_db::scan::Scan;

fn pair(k: &str) -> (Vec<u8>, Vec<u8>) {
    (k.as_bytes().to_vec(), k.to_uppercase().into_bytes())
}

fn no_reads(_: u64, _: u64, _: usize) -> std::result::Result<Vec<u8>, std::io::Error> {
    Err(std::io::Error::from(std::io::ErrorKind::NotFound))
}

#[test]
fn scans_are_taken_from_both_ends() {
    let mut scan = Scan::new(vec![pair("a"), pair("b"), pair("c"), pair("d")]);
    assert_eq!(scan.len(), 4);
    assert_eq!(scan.size_hint(), (4, Some(4)));
    assert_eq!(scan.next(), Some(pair("a")));
    assert_eq!(scan.next_back(), Some(pair("d")));
    assert_eq!(scan.next_back(), Some(pair("c")));
    assert_eq!(scan.size_hint(), (1, Some(1)));
    assert_eq!(scan.next(), Some(pair("b")));
    assert_eq!(scan.next(), None);
    assert_eq!(scan.next_back(), None);
    assert_eq!(scan.len(), 0);
}

#[test]
fn keys_are_ordered_byte_by_byte() {
    assert_eq!(compare_keys(b"a", b"b"), KeyOrder::Before);
    assert_eq!(compare_keys(b"a", b"aa"), KeyOrder::Before);
    assert_eq!(compare_keys(b"b", b"aa"), KeyOrder::After);
    assert_eq!(compare_keys(b"\xFF", b"\x7F"), KeyOrder::After);
    assert_eq!(compare_keys(b"", b""), KeyOrder::Same);
    assert!(key_before(b"", b"\0"));
    assert!(!key_before(b"x", b"x"));
    assert!(same_key(b"x", b"x"));
    assert!(!same_key(b"x", b"xx"));
}

#[test]
fn positions_in_a_range() {
    let range = KeyRange {
        start: KeyBound::Excluded(b"b".to_vec()),
        end: KeyBound::Included(b"d".to_vec()),
    };
    assert_eq!(range.position(b"a"), Pos::Below);
    assert_eq!(range.position(b"b"), Pos::Below);
    assert_eq!(range.position(b"ba"), Pos::In);
    assert_eq!(range.position(b"d"), Pos::In);
    assert_eq!(range.position(b"da"), Pos::Above);
    assert_eq!(KeyRange::all().position(b""), Pos::In);
    let half = KeyRange { start: KeyBound::Included(b"b".to_vec()), end: KeyBound::Excluded(b"d".to_vec()) };
    assert_eq!(half.position(b"b"), Pos::In);
    assert_eq!(half.position(b"d"), Pos::Above);
}

#[test]
fn the_compactor_runs_what_was_asked_for_and_stops_first() {
    let mut state = CompactionState::new();
    assert_eq!(state.next(), Directive::Wait);
    state.signal();
    assert!(!state.is_idle());
    state.signal();
    assert_eq!(state.next(), Directive::Run);
    assert!(!state.is_idle());
    assert_eq!(state.next(), Directive::Wait);
    state.complete();
    assert!(state.is_idle());
    assert_eq!(state.generation, 1);
    state.signal();
    state.shut_down();
    assert_eq!(state.next(), Directive::Exit);
}

#[test]
fn sweeping_keeps_live_files_and_drops_orphans() {
    let manifest = Manifest::store(5, &vec!["run-0000000003.sst".to_string()]);
    let mut recovery = Lsm::open_with(Some(&manifest), LsmConfig::new()).unwrap();
    assert_eq!(recovery.sweep("MANIFEST"), Verdict::Keep);
    assert_eq!(recovery.sweep("wal.log"), Verdict::Keep);
    assert_eq!(recovery.sweep("run-0000000003.sst"), Verdict::Keep);
    assert_eq!(recovery.sweep("run-0000000003.sst.bloom"), Verdict::Keep);
    assert_eq!(recovery.sweep("run-0000000003.sst.tmp"), Verdict::Temporary);
    assert_eq!(recovery.sweep("MANIFEST.tmp"), Verdict::Temporary);
    assert_eq!(recovery.sweep("run-0000000004.sst"), Verdict::OrphanRun);
    assert_eq!(recovery.sweep("run-0000000004.sst.bloom"), Verdict::OrphanSidecar);
    assert_eq!(recovery.sweep("notes.bloom"), Verdict::OrphanSidecar);
    assert_eq!(recovery.sweep("notes.sst"), Verdict::Keep);
}

#[test]
fn opening_needs_every_live_run() {
    let manifest = Manifest::store(1, &vec!["run-0000000000.sst".to_string()]);
    let recovery = Lsm::open(Some(&manifest)).unwrap();
    assert_eq!(recovery.pending(), Some("run-0000000000.sst".to_string()));
    assert_eq!(recovery.pending_id(), 0);
    match recovery.open_table(None, &no_reads) {
        Err(Error::Corruption { reason }) => {
            assert_eq!(reason, "manifest references a missing run")
        }
        _ => panic!("expected corruption"),
    }
    assert!(matches!(recovery.open_table(Some(100), &no_reads), Err(Error::Io { .. })));
    assert!(matches!(
        recovery.open_table(Some(10), &no_reads),
        Err(Error::Corruption { reason: "file shorter than header and footer", .. })
    ));
}

#[test]
fn opening_an_empty_store_starts_empty() {
    let recovery = Lsm::open(None).unwrap();
    assert_eq!(recovery.pending(), None);
    let lsm = recovery.finish();
    assert_eq!(lsm.run_count(), 0);
    assert_eq!(lsm.buffered_bytes(), 0);
    assert_eq!(lsm.buffered_keys(), 0);
    assert!(!lsm.should_flush());
    assert!(Lsm::open(Some("not a manifest")).is_err());
}

#[test]
fn replay_rebuilds_the_buffer() {
    let mut recovery = Lsm::open_with(None, LsmConfig::new().memtable_capacity(4)).unwrap();
    recovery.replay(&encode_one(b"a", &Record::Value(b"123".to_vec()))).unwrap();
    recovery.replay(&encode_one(b"b", &Record::Tombstone)).unwrap();
    assert!(recovery.replay(b"damaged").is_err());
    assert_eq!(recovery.replayed_bytes(), 5);
    let lsm = recovery.finish();
    assert_eq!(lsm.buffered_keys(), 2);
    assert_eq!(lsm.buffered_bytes(), 5);
    assert!(lsm.should_flush());
}

#[test]
fn replay_stops_at_the_first_damaged_record() {
    let mut recovery = Lsm::open(None).unwrap();
    let mut cut = encode_one(b"b", &Record::Value(b"2".to_vec()));
    let _ = cut.pop();
    let mut long = encode_one(b"c", &Record::Value(b"3".to_vec()));
    long.push(0);
    let records = vec![
        encode_one(b"a", &Record::Value(b"1".to_vec())),
        long,
        cut,
        encode_one(b"d", &Record::Value(b"4".to_vec())),
    ];
    let first = recovery.replay(&records[1].clone()).unwrap_err().message();
    let second = recovery.replay(&records[2].clone()).unwrap_err().message();
    assert_ne!(first, second);
    let done = recovery.replay_all(&records);
    assert_eq!(done.unwrap_err().message(), first);
    assert_eq!(recovery.replayed_bytes(), 2);
}

#[test]
fn a_sweep_stops_at_the_first_file_that_stays() {
    let manifest = Manifest::store(5, &vec!["run-0000000003.sst".to_string()]);
    let mut recovery = Lsm::open(Some(&manifest)).unwrap();
    let listing: Vec<String> = [
        "run-0000000006.sst",
        "run-0000000003.sst",
        "a.tmp",
        "b.tmp",
        "run-0000000009.sst",
    ]
    .iter()
    .map(|n| n.to_string())
    .collect();
    let asked = std::cell::RefCell::new(Vec::new());
    let done = recovery.sweep_all(&listing, &|name: String, verdict: Verdict| {
        asked.borrow_mut().push((name.clone(), verdict));
        if name == "a.tmp" {
            Err(Error::Corruption { reason: "refused" })
        } else {
            Ok(())
        }
    });
    assert!(matches!(done, Err(Error::Corruption { reason: "refused", .. })));
    assert_eq!(
        *asked.borrow(),
        vec![
            ("run-0000000006.sst".to_string(), Verdict::OrphanRun),
            ("a.tmp".to_string(), Verdict::Temporary),
        ]
    );
}
