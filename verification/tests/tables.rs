//! Sorted runs, the merge over them, and their filters.

use bloom_lib::BloomFilter;
use lsm_db::bloom::{builder, sidecar_of, RunFilter};
use lsm_db::cache::{BlockKey, DecodedBlock};
use lsm_db::cursor::RunCursor;
use lsm_db::error::Error;
use lsm_db::merge::Merge;
use lsm_db::record::Record;
use lsm_db::sstable::SsTable;
use lsm_db::writer::SsTableWriter;
use std::sync::Arc;

type Read<'a> = Box<dyn Fn(u64, u64, usize) -> std::result::Result<Vec<u8>, std::io::Error> + 'a>;

fn write_run(entries: &[(&[u8], Record)]) -> Vec<u8> {
    let mut bytes = Vec::new();
    let mut w = SsTableWriter::create(&mut bytes);
    for (k, r) in entries {
        w.push(k, r, &mut bytes).unwrap();
    }
    w.finish(&mut bytes).unwrap();
    bytes
}

/// Reads the runs in `files` by their position.
fn reader(files: &[Vec<u8>]) -> Read<'_> {
    Box::new(move |run, offset, len| {
        let bytes = &files[run as usize];
        let from = offset as usize;
        match bytes.get(from..from + len) {
            Some(part) => Ok(part.to_vec()),
            None => Err(std::io::Error::from(std::io::ErrorKind::UnexpectedEof)),
        }
    })
}

fn open_at(files: &[Vec<u8>], run: usize) -> lsm_db::error::Result<SsTable> {
    SsTable::open("run.sst".to_string(), run as u64, files[run].len() as u64, &reader(files))
}

fn lookup(t: &SsTable, files: &[Vec<u8>], key: &[u8]) -> lsm_db::error::Result<Option<Record>> {
    let none = |_: BlockKey| -> Option<Arc<DecodedBlock>> { None };
    let skip = |_: BlockKey, _: Arc<DecodedBlock>| {};
    t.lookup(key, &reader(files), &none, &skip)
}

fn val(v: &[u8]) -> Record {
    Record::Value(v.to_vec())
}

fn entries_of(t: SsTable, files: &[Vec<u8>]) -> (Vec<(Vec<u8>, Record)>, Option<Error>) {
    let read = reader(files);
    let mut cur = RunCursor::new(Arc::new(t));
    let mut out = Vec::new();
    while let Some(item) = cur.next_entry(&read) {
        out.push(item);
    }
    (out, cur.take_error())
}

#[test]
fn test_roundtrip_value() {
    let files = [write_run(&[(b"key", val(b"value"))])];
    let t = open_at(&files, 0).unwrap();
    assert_eq!(lookup(&t, &files, b"key").unwrap(), Some(val(b"value")));
    assert_eq!(entries_of(t, &files).0.len(), 1);
}

#[test]
fn test_roundtrip_tombstone() {
    let files = [write_run(&[(b"gone", Record::Tombstone)])];
    let t = open_at(&files, 0).unwrap();
    assert_eq!(lookup(&t, &files, b"gone").unwrap(), Some(Record::Tombstone));
}

#[test]
fn test_lookup_missing() {
    let files = [write_run(&[(b"a", val(b"1")), (b"c", val(b"3"))])];
    let t = open_at(&files, 0).unwrap();
    assert_eq!(lookup(&t, &files, b"b").unwrap(), None);
    assert_eq!(lookup(&t, &files, b"z").unwrap(), None);
    assert_eq!(lookup(&t, &files, b"").unwrap(), None);
}

#[test]
fn test_empty_run() {
    let files = [write_run(&[])];
    let t = open_at(&files, 0).unwrap();
    assert_eq!(lookup(&t, &files, b"anything").unwrap(), None);
    let mut cur = RunCursor::new(Arc::new(t));
    assert!(cur.peek_key(&reader(&files)).is_none());
    assert!(cur.next_entry(&reader(&files)).is_none());
}

#[test]
fn a_fresh_cursor_gives_the_first_entry() {
    let files = [write_run(&[(b"a", val(b"1")), (b"b", Record::Tombstone)])];
    let read = reader(&files);
    let mut cur = RunCursor::new(Arc::new(open_at(&files, 0).unwrap()));
    assert_eq!(cur.peek_key(&read), Some(&b"a".to_vec()));
    assert_eq!(cur.peek_key(&read), Some(&b"a".to_vec()));
    assert_eq!(cur.next_entry(&read), Some((b"a".to_vec(), val(b"1"))));
    assert_eq!(cur.next_entry(&read), Some((b"b".to_vec(), Record::Tombstone)));
    assert_eq!(cur.next_entry(&read), None);
    assert_eq!(cur.peek_key(&read), None);
    assert!(cur.error().is_none());
    let mut fresh = RunCursor::new(Arc::new(open_at(&files, 0).unwrap()));
    assert_eq!(fresh.next_entry(&read), Some((b"a".to_vec(), val(b"1"))));
}

#[test]
fn test_multi_block_roundtrip_and_cursor() {
    let mut entries = Vec::new();
    for i in 0..5_000u32 {
        entries.push((format!("key{i:06}").into_bytes(), val(&[b'x'; 200])));
    }
    let refs: Vec<(&[u8], Record)> =
        entries.iter().map(|(k, r)| (k.as_slice(), r.clone())).collect();
    let files = [write_run(&refs)];

    let t = open_at(&files, 0).unwrap();
    assert!(t.block_count() > 1, "expected multiple blocks");
    assert_eq!(t.entry_count(), 5_000);

    assert_eq!(lookup(&t, &files, b"key000000").unwrap(), Some(val(&[b'x'; 200])));
    assert_eq!(lookup(&t, &files, b"key004999").unwrap(), Some(val(&[b'x'; 200])));
    assert_eq!(lookup(&t, &files, b"key005000").unwrap(), None);

    let (got, error) = entries_of(t, &files);
    for pair in got.windows(2) {
        assert!(pair[0].0 < pair[1].0);
    }
    assert!(error.is_none());
    assert_eq!(got.len(), 5_000);
    assert_eq!(got, entries);
}

#[test]
fn test_large_value_single_block() {
    let big = vec![0xABu8; 100_000];
    let files = [write_run(&[(b"k", val(&big))])];
    let t = open_at(&files, 0).unwrap();
    assert_eq!(lookup(&t, &files, b"k").unwrap(), Some(val(&big)));
}

#[test]
fn test_bad_magic_is_corruption() {
    let files = [vec![0u8; 64]];
    assert!(open_at(&files, 0).is_err());
}

#[test]
fn test_corrupted_block_detected() {
    let mut files = [write_run(&[(b"a", val(b"hello")), (b"b", val(b"world"))])];
    files[0][10] ^= 0xFF;
    let t = open_at(&files, 0).unwrap();
    assert!(matches!(lookup(&t, &files, b"a"), Err(Error::Corruption { .. })));
}

#[test]
fn one_entry_run_bytes_are_exact() {
    let bytes = write_run(&[(b"k", val(b"v"))]);
    let mut block = Vec::new();
    block.extend_from_slice(&1u32.to_le_bytes());
    block.extend_from_slice(b"k");
    block.push(0);
    block.extend_from_slice(&1u32.to_le_bytes());
    block.extend_from_slice(b"v");
    let mut index = Vec::new();
    index.extend_from_slice(&1u32.to_le_bytes());
    index.extend_from_slice(b"k");
    index.extend_from_slice(&8u64.to_le_bytes());
    index.extend_from_slice(&(block.len() as u32).to_le_bytes());
    index.extend_from_slice(&crc32c::crc32c(&block).to_le_bytes());
    let mut expected = b"LSMTBL01".to_vec();
    expected.extend_from_slice(&block);
    let index_offset = expected.len() as u64;
    expected.extend_from_slice(&index);
    expected.extend_from_slice(&1u64.to_le_bytes());
    expected.extend_from_slice(&index_offset.to_le_bytes());
    expected.extend_from_slice(&(index.len() as u64).to_le_bytes());
    expected.extend_from_slice(&crc32c::crc32c(&index).to_le_bytes());
    expected.extend_from_slice(b"LSMTBL01");
    assert_eq!(bytes, expected);
}

#[test]
fn tombstone_entries_are_exact() {
    let bytes = write_run(&[(b"k", Record::Tombstone)]);
    assert_eq!(&bytes[8..18], &[1, 0, 0, 0, b'k', 1, 0, 0, 0, 0]);
}

#[test]
fn blocks_close_before_they_would_pass_the_target() {
    let keys: Vec<Vec<u8>> = (0..3u8).map(|i| vec![i]).collect();
    let exact = 4096 / 2 - 10;
    let run = |sizes: [usize; 3]| {
        let entries: Vec<(&[u8], Record)> = keys
            .iter()
            .zip(sizes)
            .map(|(k, n)| (k.as_slice(), val(&vec![b'x'; n])))
            .collect();
        let files = [write_run(&entries)];
        open_at(&files, 0).unwrap().block_count()
    };
    assert_eq!(run([exact, exact, 0]), 2);
    assert_eq!(run([exact, exact + 1, 0]), 2);
    assert_eq!(run([exact, exact - 10, 0]), 1);
    assert_eq!(run([5000, 0, 0]), 2);
}

#[test]
fn truncated_runs_are_refused() {
    let whole = write_run(&[(b"a", val(b"hello")), (b"b", val(b"world"))]);
    for n in 0..whole.len() {
        let files = [whole[..n].to_vec()];
        assert!(matches!(open_at(&files, 0), Err(Error::Corruption { .. })));
    }
}

#[test]
fn cursors_stop_at_a_damaged_block() {
    let mut entries = Vec::new();
    for i in 0..100u32 {
        entries.push((format!("key{i:06}").into_bytes(), val(&[b'x'; 200])));
    }
    let refs: Vec<(&[u8], Record)> =
        entries.iter().map(|(k, r)| (k.as_slice(), r.clone())).collect();
    let mut files = [write_run(&refs)];
    let t = open_at(&files, 0).unwrap();
    assert!(t.block_count() > 2);
    files[0][8 + 4096 + 100] ^= 1;
    let (got, error) = entries_of(t, &files);
    assert!(!got.is_empty());
    assert!(got.len() < 100);
    assert_eq!(got, entries[..got.len()].to_vec());
    assert!(matches!(error, Some(Error::Corruption { .. })));
}

#[test]
fn read_errors_are_reported() {
    let files = [write_run(&[(b"k", val(b"v"))])];
    let t = open_at(&files, 0).unwrap();
    let fail = |_: u64, _: u64, _: usize| -> std::result::Result<Vec<u8>, std::io::Error> {
        Err(std::io::Error::from(std::io::ErrorKind::PermissionDenied))
    };
    let none = |_: BlockKey| -> Option<Arc<DecodedBlock>> { None };
    let skip = |_: BlockKey, _: Arc<DecodedBlock>| {};
    assert!(matches!(t.lookup(b"k", &fail, &none, &skip), Err(Error::Io { .. })));
    assert!(matches!(
        SsTable::open("run.sst".to_string(), 0, files[0].len() as u64, &fail),
        Err(Error::Io { .. })
    ));
}

fn make_run(files: &mut Vec<Vec<u8>>, entries: &[(&[u8], Record)]) -> Arc<SsTable> {
    files.push(write_run(entries));
    Arc::new(open_at(files, files.len() - 1).unwrap())
}

fn collect(
    mem: Vec<(Vec<u8>, Record)>,
    runs: Vec<Arc<SsTable>>,
    files: &[Vec<u8>],
) -> Vec<(Vec<u8>, Vec<u8>)> {
    let read = reader(files);
    let mut merge = Merge::new(mem, &runs);
    let mut out = Vec::new();
    while let Some(item) = merge.next(&read) {
        out.push(item.unwrap());
    }
    out
}

#[test]
fn test_mem_only() {
    let mem = vec![(b"a".to_vec(), val(b"1")), (b"b".to_vec(), val(b"2"))];
    assert_eq!(
        collect(mem, vec![], &[]),
        vec![(b"a".to_vec(), b"1".to_vec()), (b"b".to_vec(), b"2".to_vec())]
    );
}

#[test]
fn test_newest_source_wins() {
    let mut files = Vec::new();
    let old = make_run(&mut files, &[(b"k", val(b"old")), (b"x", val(b"keep"))]);
    let new = make_run(&mut files, &[(b"k", val(b"new"))]);
    let got = collect(vec![], vec![new, old], &files);
    assert_eq!(
        got,
        vec![(b"k".to_vec(), b"new".to_vec()), (b"x".to_vec(), b"keep".to_vec())]
    );
}

#[test]
fn test_memtable_shadows_runs() {
    let mut files = Vec::new();
    let run = make_run(&mut files, &[(b"k", val(b"disk"))]);
    let got = collect(vec![(b"k".to_vec(), val(b"mem"))], vec![run], &files);
    assert_eq!(got, vec![(b"k".to_vec(), b"mem".to_vec())]);
}

#[test]
fn test_tombstone_resolves_key_away() {
    let mut files = Vec::new();
    let run = make_run(&mut files, &[(b"k", val(b"disk"))]);
    let got = collect(vec![(b"k".to_vec(), Record::Tombstone)], vec![run], &files);
    assert!(got.is_empty());
}

#[test]
fn test_three_way_interleave() {
    let mut files = Vec::new();
    let r0 = make_run(&mut files, &[(b"a", val(b"a0")), (b"d", val(b"d0"))]);
    let r1 = make_run(&mut files, &[(b"b", val(b"b1")), (b"d", val(b"d1"))]);
    let mem = vec![(b"c".to_vec(), val(b"cm"))];
    let got = collect(mem, vec![r1, r0], &files);
    assert_eq!(
        got,
        vec![
            (b"a".to_vec(), b"a0".to_vec()),
            (b"b".to_vec(), b"b1".to_vec()),
            (b"c".to_vec(), b"cm".to_vec()),
            (b"d".to_vec(), b"d1".to_vec()),
        ]
    );
}

#[test]
fn a_merge_reports_damage_until_it_is_mended() {
    let mut files = Vec::new();
    let run = make_run(&mut files, &[(b"a", val(b"1"))]);
    let intact = files.clone();
    files[0][10] ^= 0xFF;
    let mut merge = Merge::new(vec![(b"b".to_vec(), val(b"2"))], &vec![run]);
    let damaged = reader(&files);
    assert!(matches!(merge.next(&damaged), Some(Err(Error::Corruption { .. }))));
    assert!(matches!(merge.next(&damaged), Some(Err(Error::Corruption { .. }))));
    let mended = reader(&intact);
    assert_eq!(merge.next(&mended).unwrap().unwrap(), (b"a".to_vec(), b"1".to_vec()));
    assert_eq!(merge.next(&mended).unwrap().unwrap(), (b"b".to_vec(), b"2".to_vec()));
    assert!(merge.next(&mended).is_none());
}

fn dimensions(capacity: usize) -> Option<(u64, u32)> {
    BloomFilter::<[u8]>::new(capacity, 0.01).ok().map(|f| (f.num_bits(), f.num_hashes()))
}

fn build(keys: &[&[u8]]) -> RunFilter {
    let mut b = builder(keys.len(), dimensions(keys.len()));
    for k in keys {
        b.add(k);
    }
    b.finish().expect("non-empty")
}

#[test]
fn test_no_false_negatives() {
    let f = build(&[b"alpha", b"beta", b"gamma"]);
    assert!(f.might_contain(b"alpha"));
    assert!(f.might_contain(b"beta"));
    assert!(f.might_contain(b"gamma"));
}

#[test]
fn test_rejects_absent_keys() {
    let present: Vec<Vec<u8>> = (0..1000).map(|i| format!("k{i}").into_bytes()).collect();
    let refs: Vec<&[u8]> = present.iter().map(Vec::as_slice).collect();
    let f = build(&refs);
    let false_positives =
        (0..1000).filter(|i| f.might_contain(format!("absent{i}").as_bytes())).count();
    assert!(false_positives < 50, "too many false positives: {false_positives}");
}

#[test]
fn test_empty_builder_yields_no_filter() {
    assert!(builder(0, dimensions(0)).finish().is_none());
}

#[test]
fn test_sidecar_roundtrip() {
    assert_eq!(sidecar_of("run-0000000001.sst"), "run-0000000001.sst.bloom");
    let f = build(&[b"one", b"two", b"three"]);
    let bytes = f.sidecar().unwrap();
    let loaded = RunFilter::decode(&bytes).expect("sidecar intact");
    assert!(loaded.might_contain(b"one"));
    assert!(loaded.might_contain(b"three"));
    for i in 0..1000u32 {
        let key = format!("key{i}");
        assert_eq!(loaded.might_contain(key.as_bytes()), f.might_contain(key.as_bytes()));
    }
}

#[test]
fn sidecar_bytes_are_exact() {
    let f = build(&[b"one", b"two", b"three"]);
    let bytes = f.sidecar().unwrap();
    assert_eq!(&bytes[..8], b"LSMBLM01");
    assert_eq!(&bytes[8..12], &crc32c::crc32c(&bytes[12..]).to_le_bytes());
    let plain: BloomFilter<[u8]> = postcard::from_bytes(&bytes[12..]).unwrap();
    assert_eq!(Some((plain.num_bits(), plain.num_hashes())), dimensions(3));
    assert!(plain.contains(b"two".as_slice()));
}

#[test]
fn damaged_sidecars_are_not_used() {
    let bytes = build(&[b"one", b"two", b"three"]).sidecar().unwrap();
    assert!(RunFilter::decode(b"not a valid filter").is_none());
    assert!(RunFilter::decode(b"").is_none());
    for i in 0..bytes.len() {
        let mut damaged = bytes.clone();
        damaged[i] ^= 1;
        assert!(RunFilter::decode(&damaged).is_none());
        assert!(RunFilter::decode(&bytes[..i]).is_none());
    }
}

#[test]
fn sidecars_of_unusable_filters_are_not_used() {
    let filter: BloomFilter<[u8]> = BloomFilter::with_dimensions(128, 3).unwrap();
    let mut payload = postcard::to_allocvec(&filter).unwrap();
    let words_at = 0;
    assert_eq!(payload[words_at], 2);
    let envelope = |payload: &[u8]| {
        let mut bytes = b"LSMBLM01".to_vec();
        bytes.extend_from_slice(&crc32c::crc32c(payload).to_le_bytes());
        bytes.extend_from_slice(payload);
        bytes
    };
    assert!(RunFilter::decode(&envelope(&payload)).is_some());
    let last = payload.len() - 1;
    payload[last] = 3;
    payload[words_at] = 1;
    let _ = payload.remove(words_at + 1);
    assert!(RunFilter::decode(&envelope(&payload)).is_none());
}

fn sealed(payload: &[u8]) -> Vec<u8> {
    let mut bytes = b"LSMBLM01".to_vec();
    bytes.extend_from_slice(&crc32c::crc32c(payload).to_le_bytes());
    bytes.extend_from_slice(payload);
    bytes
}

#[test]
fn sidecar_payloads_are_varints() {
    let filter = builder(1, Some((200, 7))).finish().unwrap();
    let payload = [4u8, 0, 0, 0, 0, 0xC8, 0x01, 7];
    assert_eq!(filter.sidecar().unwrap(), sealed(&payload));
    assert_eq!(&filter.sidecar().unwrap()[8..12], &0x1E4E_0524u32.to_le_bytes());
    let dense = RunFilter::decode(&sealed(&[1, 0xFF, 0x01, 64, 1])).unwrap();
    assert_eq!(&dense.sidecar().unwrap()[12..], &[1, 0xFF, 0x01, 64, 1]);
}

#[test]
fn sidecars_are_loaded_whatever_follows_the_filter() {
    let bytes = build(&[b"one", b"two"]).sidecar().unwrap();
    let mut payload = bytes[12..].to_vec();
    payload.extend_from_slice(b"and more");
    let loaded = RunFilter::decode(&sealed(&payload)).expect("filter intact");
    assert!(loaded.might_contain(b"one") && loaded.might_contain(b"two"));
    assert_eq!(loaded.sidecar().unwrap(), bytes);
}

#[test]
fn sidecars_are_loaded_with_long_varints_and_surplus_words() {
    // The number of probes in two bytes, where one would do.
    let long = RunFilter::decode(&sealed(&[1, 5, 64, 0x81, 0x00])).expect("filter intact");
    assert_eq!(&long.sidecar().unwrap()[12..], &[1, 5, 64, 1]);
    // Three words, where one holds the bits.
    let surplus = RunFilter::decode(&sealed(&[3, 5, 9, 9, 64, 1])).expect("filter intact");
    assert_eq!(&surplus.sidecar().unwrap()[12..], &[3, 5, 9, 9, 64, 1]);
    // A number of probes that does not fit its type, and one that is cut off.
    let wide = [1, 5, 64, 0xFF, 0xFF, 0xFF, 0xFF, 0x10];
    assert!(RunFilter::decode(&sealed(&wide)).is_none());
    assert!(RunFilter::decode(&sealed(&[1, 5, 64, 0x81])).is_none());
    assert!(RunFilter::decode(&sealed(&[1, 5, 64])).is_none());
    assert!(RunFilter::decode(&sealed(&[])).is_none());
}

#[test]
fn filters_that_probe_nothing_admit_everything() {
    for payload in [[1, 0, 64, 0].as_slice(), [0, 64, 0].as_slice(), [0, 0, 0].as_slice()] {
        let filter = RunFilter::decode(&sealed(payload)).expect("filter intact");
        assert!(filter.might_contain(b"anything") && filter.might_contain(b""));
    }
}

#[test]
fn filters_without_bits_probe_their_first_word() {
    let clear = RunFilter::decode(&sealed(&[1, 2, 0, 1])).expect("filter intact");
    assert!(!clear.might_contain(b"anything"));
    let set = RunFilter::decode(&sealed(&[1, 3, 0, 1])).expect("filter intact");
    assert!(set.might_contain(b"anything"));
    assert!(RunFilter::decode(&sealed(&[0, 0, 1])).is_none());
    assert!(RunFilter::decode(&sealed(&[1, 1, 65, 1])).is_none());
}

#[test]
fn filters_of_a_run_skip_it() {
    let files = [write_run(&[(b"k", val(b"v"))])];
    let mut t = open_at(&files, 0).unwrap();
    assert!(t.might_contain(b"absent"));
    t.attach_filter(Some(build(&[b"k"])));
    assert!(t.might_contain(b"k"));
    assert!(!t.might_contain(b"absent"));
    assert_eq!(t.file_name(), "run.sst");
    assert_eq!(t.run_id(), 0);
}

fn ones(f: &RunFilter) -> u64 {
    let bytes = f.sidecar().unwrap();
    let plain: BloomFilter<[u8]> = postcard::from_bytes(&bytes[12..]).unwrap();
    plain.count_ones()
}

#[test]
fn a_key_marks_no_more_bits_than_it_probes() {
    let (num_bits, num_hashes) = (4096, 5);
    let filter = |keys: &[&[u8]]| {
        let mut b = builder(4, Some((num_bits, num_hashes)));
        for k in keys {
            b.add(k);
        }
        b.finish().unwrap()
    };
    assert_eq!(ones(&filter(&[])), 0);
    let one = ones(&filter(&[b"k"]));
    assert!(one > 0 && one <= 5, "{one}");
    assert_eq!(ones(&filter(&[b"k", b"k"])), one);
    let two = ones(&filter(&[b"k", b"l"]));
    assert!(two >= one && two <= one + 5, "{two}");
    assert!(!filter(&[b"k"]).might_contain(b""));
}

#[test]
fn a_merge_goes_on_with_the_other_errors() {
    let mut files = Vec::new();
    let a = make_run(&mut files, &[(b"a", val(b"1"))]);
    let b = make_run(&mut files, &[(b"b", val(b"2"))]);
    let intact = files.clone();
    files[0][10] ^= 0xFF;
    files[1][10] ^= 0xFF;
    let mut merge = Merge::new(vec![], &vec![a, b]);
    let damaged = reader(&files);
    assert!(matches!(merge.next(&damaged), Some(Err(Error::Corruption { .. }))));
    let mended = reader(&intact);
    assert!(matches!(merge.next(&mended), Some(Err(Error::Corruption { .. }))));
    assert_eq!(merge.next(&mended).unwrap().unwrap(), (b"a".to_vec(), b"1".to_vec()));
    assert_eq!(merge.next(&mended).unwrap().unwrap(), (b"b".to_vec(), b"2".to_vec()));
    assert!(merge.next(&mended).is_none());
}

#[test]
fn a_cursor_walks_on_once_its_error_is_taken() {
    let entries: Vec<(Vec<u8>, Record)> =
        (0..40u32).map(|i| (format!("k{i:03}").into_bytes(), val(&[b'x'; 400]))).collect();
    let refs: Vec<(&[u8], Record)> =
        entries.iter().map(|(k, r)| (k.as_slice(), r.clone())).collect();
    let files = [write_run(&refs)];
    let t = open_at(&files, 0).unwrap();
    assert!(t.block_count() > 2);
    let mut cursor = RunCursor::new(Arc::new(t));
    let read = reader(&files);
    let failing = |_: u64, _: u64, _: usize| -> std::result::Result<Vec<u8>, std::io::Error> {
        Err(std::io::Error::from(std::io::ErrorKind::Other))
    };
    assert_eq!(cursor.next_entry(&read), Some(entries[0].clone()));
    let mut seen = 1;
    while let Some(item) = cursor.next_entry(&failing) {
        assert!(cursor.error().is_none());
        assert_eq!(item, entries[seen]);
        seen += 1;
    }
    assert!(seen < entries.len());
    assert!(matches!(cursor.take_error(), Some(Error::Io { context: "read data block", .. })));
    while let Some(item) = cursor.next_entry(&read) {
        assert!(cursor.error().is_none());
        assert_eq!(item, entries[seen]);
        seen += 1;
    }
    assert!(cursor.error().is_none());
    assert_eq!(seen, entries.len());
}
