use lsm_db::durability::{decode, encode, encode_one, replay};
use lsm_db::error::Error;
use lsm_db::memtable::MemTable;
use lsm_db::record::Record;

fn reason(e: Error) -> &'static str {
    match e {
        Error::Corruption { reason } => reason,
        _ => panic!("expected corruption"),
    }
}

#[test]
fn test_encode_decode_roundtrip() {
    let ops = vec![
        (b"a".to_vec(), Record::Value(b"1".to_vec())),
        (b"b".to_vec(), Record::Tombstone),
        (b"c".to_vec(), Record::Value(Vec::new())),
    ];
    let bytes = encode(&ops);
    assert_eq!(decode(&bytes).unwrap(), ops);
}

#[test]
fn test_decode_rejects_trailing_bytes() {
    let mut bytes = encode_one(b"k", &Record::Value(b"v".to_vec()));
    bytes.push(0xFF);
    assert!(decode(&bytes).is_err());
}

#[test]
fn test_decode_rejects_truncation() {
    let bytes = encode_one(b"k", &Record::Value(b"v".to_vec()));
    assert!(decode(&bytes[..bytes.len() - 1]).is_err());
}

#[test]
fn test_log_replay_roundtrip() {
    let log = vec![
        encode_one(b"a", &Record::Value(b"1".to_vec())),
        encode_one(b"a", &Record::Value(b"2".to_vec())),
        encode_one(b"b", &Record::Tombstone),
        encode(&vec![
            (b"c".to_vec(), Record::Value(b"3".to_vec())),
            (b"d".to_vec(), Record::Value(b"4".to_vec())),
        ]),
    ];
    let mut mem = MemTable::new();
    for record in &log {
        replay(record, &mut mem).unwrap();
    }
    assert_eq!(mem.get(b"a"), Some(&Record::Value(b"2".to_vec()))); // latest wins
    assert_eq!(mem.get(b"b"), Some(&Record::Tombstone));
    assert_eq!(mem.get(b"c"), Some(&Record::Value(b"3".to_vec())));
    assert_eq!(mem.get(b"d"), Some(&Record::Value(b"4".to_vec())));
}

#[test]
fn a_record_has_the_documented_bytes() {
    let bytes = encode(&vec![
        (b"ab".to_vec(), Record::Value(b"xyz".to_vec())),
        (b"c".to_vec(), Record::Tombstone),
    ]);
    assert_eq!(
        bytes,
        vec![
            2, 0, 0, 0, // count
            2, 0, 0, 0, b'a', b'b', 0, 3, 0, 0, 0, b'x', b'y', b'z', //
            1, 0, 0, 0, b'c', 1, 0, 0, 0, 0,
        ]
    );
}

#[test]
fn every_cut_of_a_record_is_rejected() {
    let bytes = encode(&vec![
        (b"key".to_vec(), Record::Value(b"value".to_vec())),
        (b"other".to_vec(), Record::Tombstone),
    ]);
    for n in 0..bytes.len() {
        assert_eq!(reason(decode(&bytes[..n]).unwrap_err()), "log record truncated");
    }
    let mut longer = bytes.clone();
    longer.push(0);
    assert_eq!(
        reason(decode(&longer).unwrap_err()),
        "trailing bytes in log record"
    );
}

#[test]
fn faults_of_a_record_are_told_apart() {
    // key length over the cap
    assert_eq!(
        reason(decode(&[1, 0, 0, 0, 1, 0, 0, 0x40]).unwrap_err()),
        "log key length exceeds maximum"
    );
    // value length over the cap
    assert_eq!(
        reason(decode(&[1, 0, 0, 0, 0, 0, 0, 0, 0, 1, 0, 0, 0x40]).unwrap_err()),
        "log value length exceeds maximum"
    );
    // unknown tag
    assert_eq!(
        reason(decode(&[1, 0, 0, 0, 0, 0, 0, 0, 7, 0, 0, 0, 0]).unwrap_err()),
        "unknown log record tag"
    );
    // deletion with a value
    assert_eq!(
        reason(decode(&[1, 0, 0, 0, 0, 0, 0, 0, 1, 1, 0, 0, 0, 9]).unwrap_err()),
        "log tombstone with non-zero value length"
    );
}

#[test]
fn a_damaged_record_leaves_the_buffer_alone() {
    let mut mem = MemTable::new();
    mem.apply(b"a".to_vec(), Record::Value(b"1".to_vec()));
    let mut bytes = encode(&vec![
        (b"a".to_vec(), Record::Value(b"2".to_vec())),
        (b"b".to_vec(), Record::Value(b"3".to_vec())),
    ]);
    bytes.pop();
    assert!(replay(&bytes, &mut mem).is_err());
    assert_eq!(mem.get(b"a"), Some(&Record::Value(b"1".to_vec())));
    assert_eq!(mem.get(b"b"), None);
}
