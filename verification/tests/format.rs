//! Damaged and hostile run files: every fault has its own reason.

use lsm_db::block::decode_block;
use lsm_db::cache::{BlockKey, DecodedBlock};
use lsm_db::codec::{
    read_bytes, read_entry, read_u32, read_u64, read_u8, Origin, MAX_RECORD_LEN,
};
use lsm_db::error::Error;
use lsm_db::index::{parse_index, write_footer, write_index, BlockHandle, Footer};
use lsm_db::record::Record;
use lsm_db::sstable::SsTable;
use lsm_db::writer::SsTableWriter;
use std::sync::Arc;

fn reason<T>(result: lsm_db::error::Result<T>) -> &'static str {
    match result {
        Err(Error::Corruption { reason }) => reason,
        Err(e) => panic!("unexpected error: {}", e.message()),
        Ok(_) => panic!("expected corruption"),
    }
}

fn entry(key: &[u8], tag: u8, value_len: u32, value: &[u8]) -> Vec<u8> {
    let mut bytes = (key.len() as u32).to_le_bytes().to_vec();
    bytes.extend_from_slice(key);
    bytes.push(tag);
    bytes.extend_from_slice(&value_len.to_le_bytes());
    bytes.extend_from_slice(value);
    bytes
}

/// A run file with these blocks, each under the given index key.
fn run_of(blocks: &[(&[u8], Vec<u8>)]) -> Vec<u8> {
    let mut bytes = b"LSMTBL01".to_vec();
    let mut handles = Vec::new();
    for (last_key, block) in blocks {
        handles.push(BlockHandle {
            last_key: last_key.to_vec(),
            offset: bytes.len() as u64,
            len: block.len() as u32,
            crc: crc32c::crc32c(block),
        });
        bytes.extend_from_slice(block);
    }
    seal(bytes, &handles)
}

fn seal(mut bytes: Vec<u8>, handles: &Vec<BlockHandle>) -> Vec<u8> {
    let index = write_index(handles);
    let footer = Footer {
        entry_count: 0,
        index_offset: bytes.len() as u64,
        index_len: index.len() as u64,
        index_crc: crc32c::crc32c(&index),
    };
    bytes.extend_from_slice(&index);
    write_footer(&mut bytes, footer);
    bytes
}

fn open(image: &[u8]) -> lsm_db::error::Result<SsTable> {
    SsTable::open("run.sst".to_string(), 0, image.len() as u64, &|_: u64, offset: u64, len: usize| {
        let from = offset as usize;
        image
            .get(from..from + len)
            .map(<[u8]>::to_vec)
            .ok_or_else(|| std::io::Error::from(std::io::ErrorKind::UnexpectedEof))
    })
}

fn look_up(image: &[u8], key: &[u8]) -> lsm_db::error::Result<Option<Record>> {
    let none = |_: BlockKey| -> Option<Arc<DecodedBlock>> { None };
    let skip = |_: BlockKey, _: Arc<DecodedBlock>| {};
    open(image)?.lookup(
        key,
        &|_: u64, offset: u64, len: usize| {
            let from = offset as usize;
            Ok(image[from..from + len].to_vec())
        },
        &none,
        &skip,
    )
}

#[test]
fn a_hand_made_run_is_read() {
    let image = run_of(&[
        (b"b", [entry(b"a", 0, 1, b"1"), entry(b"b", 1, 0, b"")].concat()),
        (b"c", entry(b"c", 0, 0, b"")),
    ]);
    assert_eq!(look_up(&image, b"a").unwrap(), Some(Record::Value(b"1".to_vec())));
    assert_eq!(look_up(&image, b"b").unwrap(), Some(Record::Tombstone));
    assert_eq!(look_up(&image, b"c").unwrap(), Some(Record::Value(Vec::new())));
    assert_eq!(look_up(&image, b"bb").unwrap(), None);
    assert_eq!(look_up(&image, b"d").unwrap(), None);
}

#[test]
fn short_files_are_refused() {
    assert_eq!(reason(open(&[0; 43])), "file shorter than header and footer");
    assert_eq!(reason(open(&[0; 44])), "bad magic; not an lsm-db sorted run");
}

#[test]
fn index_extents_have_to_fit_the_file() {
    let image = run_of(&[(b"a", entry(b"a", 0, 1, b"1"))]);
    let at = image.len() - 36;
    for (offset, delta) in [(8, 1u8), (16, 1u8)] {
        let mut moved = image.clone();
        moved[at + offset] = moved[at + offset].wrapping_add(delta);
        assert_eq!(reason(open(&moved)), "index extent inconsistent with file size");
    }
    let mut huge = image.clone();
    for b in &mut huge[at + 8..at + 16] {
        *b = 0xFF;
    }
    assert_eq!(reason(open(&huge)), "index extent inconsistent with file size");
    let mut low = image;
    low[at + 8..at + 16].copy_from_slice(&7u64.to_le_bytes());
    assert_eq!(reason(open(&low)), "index extent inconsistent with file size");
}

#[test]
fn a_damaged_index_is_refused() {
    let mut image = run_of(&[(b"a", entry(b"a", 0, 1, b"1"))]);
    let at = image.len() - 37;
    image[at] ^= 1;
    assert_eq!(reason(open(&image)), "index checksum mismatch");
}

#[test]
fn index_keys_have_to_ascend() {
    let block = entry(b"a", 0, 1, b"1");
    let image = run_of(&[(b"a", block.clone()), (b"a", block)]);
    assert_eq!(reason(open(&image)), "index block keys not strictly increasing");
}

#[test]
fn index_keys_are_bounded() {
    let bytes = (MAX_RECORD_LEN + 1).to_le_bytes().to_vec();
    assert_eq!(reason(parse_index(&bytes)), "index key length exceeds maximum");
    assert_eq!(reason(parse_index(&[1, 0])), "record truncated");
    assert!(parse_index(&[]).unwrap().is_empty());
}

#[test]
fn block_extents_have_to_fit_the_data() {
    let block = entry(b"a", 0, 1, b"1");
    let handle = |offset: u64, len: u32| BlockHandle {
        last_key: b"a".to_vec(),
        offset,
        len,
        crc: crc32c::crc32c(&block),
    };
    let data = [b"LSMTBL01".to_vec(), block.clone()].concat();
    let n = block.len() as u32;
    for h in [handle(9, n), handle(u64::MAX, n), handle(7, n), handle(8, n + 1)] {
        let image = seal(data.clone(), &vec![h]);
        assert_eq!(reason(look_up(&image, b"a")), "data block extent out of range");
    }
    let image = seal(data, &vec![handle(8, n)]);
    assert_eq!(look_up(&image, b"a").unwrap(), Some(Record::Value(b"1".to_vec())));
}

#[test]
fn damaged_blocks_are_refused() {
    let mut image = run_of(&[(b"a", entry(b"a", 0, 1, b"1"))]);
    image[8] ^= 1;
    assert_eq!(reason(look_up(&image, b"a")), "data block checksum mismatch");
}

#[test]
fn blocks_may_end_below_their_index_key() {
    let image = run_of(&[
        (b"b", entry(b"a", 0, 1, b"1")),
        (b"d", Vec::new()),
        (b"f", entry(b"e", 0, 1, b"2")),
    ]);
    assert_eq!(look_up(&image, b"a").unwrap(), Some(Record::Value(b"1".to_vec())));
    assert_eq!(look_up(&image, b"b").unwrap(), None);
    assert_eq!(look_up(&image, b"c").unwrap(), None);
    assert_eq!(look_up(&image, b"e").unwrap(), Some(Record::Value(b"2".to_vec())));
    assert_eq!(look_up(&image, b"f").unwrap(), None);
}

#[test]
fn blocks_do_not_pass_their_index_key() {
    let image = run_of(&[(b"a", entry(b"b", 0, 1, b"1"))]);
    assert_eq!(reason(look_up(&image, b"a")), "data block key above its index key");
}

#[test]
fn fields_past_the_end_are_faults() {
    let bytes = [1u8, 2, 3];
    for start in [1usize, 3, 4, 9, usize::MAX - 2, usize::MAX] {
        let mut pos = start;
        let wide = start.checked_add(8).is_none();
        let word = start.checked_add(4).is_none();
        assert_eq!(
            reason(read_u64(&bytes, &mut pos, Origin::Run)),
            if wide { "record extent overflows" } else { "record truncated" }
        );
        assert_eq!(
            reason(read_u32(&bytes, &mut pos, Origin::Log)),
            if word { "log record overflow" } else { "log record truncated" }
        );
        assert!(read_entry(&bytes, &mut pos, Origin::Run).is_err());
        assert_eq!(pos, start);
        if start > 3 {
            assert_eq!(reason(read_u8(&bytes, &mut pos, Origin::Run)), "record truncated");
            assert_eq!(reason(read_bytes(&bytes, &mut pos, 0, Origin::Run)), "record truncated");
            assert_eq!(pos, start);
        }
    }
    let mut pos = 3;
    assert!(read_bytes(&bytes, &mut pos, 0, Origin::Run).unwrap().is_empty());
    assert_eq!(pos, 3);
    pos = 2;
    assert_eq!(read_u8(&bytes, &mut pos, Origin::Run).unwrap(), 3);
    assert_eq!(pos, 3);
}

#[test]
fn keys_have_to_ascend_within_and_across_blocks() {
    let within = [entry(b"b", 0, 1, b"1"), entry(b"a", 0, 1, b"1")].concat();
    assert_eq!(reason(decode_block(&within)), "data block keys not strictly increasing");
    let across = run_of(&[
        (b"b", entry(b"b", 0, 1, b"1")),
        (b"c", [entry(b"a", 0, 1, b"1"), entry(b"c", 0, 1, b"1")].concat()),
    ]);
    assert_eq!(reason(look_up(&across, b"c")), "data block keys not strictly increasing");
}

#[test]
fn entries_are_checked() {
    assert_eq!(reason(decode_block(&entry(b"a", 2, 0, b""))), "unknown record tag");
    assert_eq!(
        reason(decode_block(&entry(b"a", 1, 1, b"x"))),
        "tombstone with non-zero value length"
    );
    assert_eq!(reason(decode_block(&entry(b"a", 0, 2, b"x"))), "record truncated");
    assert_eq!(
        reason(decode_block(&entry(b"a", 0, MAX_RECORD_LEN + 1, b""))),
        "value length exceeds maximum"
    );
    assert_eq!(
        reason(decode_block(&(MAX_RECORD_LEN + 1).to_le_bytes())),
        "key length exceeds maximum"
    );
    assert_eq!(reason(decode_block(&[0, 0, 0])), "record truncated");
    assert!(decode_block(&[]).unwrap().is_empty());
    assert_eq!(
        decode_block(&entry(b"a", 0, 1, b"x")).unwrap(),
        vec![(b"a".to_vec(), Record::Value(b"x".to_vec()))]
    );
}

#[test]
fn oversized_entries_are_refused() {
    let mut bytes = Vec::new();
    let mut w = SsTableWriter::create(&mut bytes);
    let big = vec![0u8; MAX_RECORD_LEN as usize + 1];
    assert_eq!(
        reason(w.push(&big, &Record::Tombstone, &mut bytes)),
        "key length exceeds maximum"
    );
    assert_eq!(
        reason(w.push(b"k", &Record::Value(big), &mut bytes)),
        "value length exceeds maximum"
    );
    w.push(b"k", &Record::Tombstone, &mut bytes).unwrap();
    w.finish(&mut bytes).unwrap();
    assert_eq!(look_up(&bytes, b"k").unwrap(), Some(Record::Tombstone));
}
