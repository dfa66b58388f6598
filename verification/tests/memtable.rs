use lsm_db::memtable::MemTable;
use lsm_db::record::Record;

fn put(m: &mut MemTable, key: &[u8], value: &[u8]) {
    m.apply(key.to_vec(), Record::Value(value.to_vec()));
}

fn delete(m: &mut MemTable, key: &[u8]) {
    m.apply(key.to_vec(), Record::Tombstone);
}

#[test]
fn test_put_then_get_returns_value() {
    let mut m = MemTable::new();
    put(&mut m, b"a", b"1");
    assert_eq!(m.get(b"a"), Some(&Record::Value(b"1".to_vec())));
}

#[test]
fn test_delete_records_tombstone() {
    let mut m = MemTable::new();
    put(&mut m, b"a", b"1");
    delete(&mut m, b"a");
    assert_eq!(m.get(b"a"), Some(&Record::Tombstone));
}

#[test]
fn test_missing_key_returns_none() {
    let m = MemTable::new();
    assert_eq!(m.get(b"absent"), None);
}

#[test]
fn test_approx_size_tracks_inserts() {
    let mut m = MemTable::new();
    assert_eq!(m.approx_size(), 0);
    put(&mut m, b"ab", b"xyz"); // 2 + 3
    assert_eq!(m.approx_size(), 5);
    put(&mut m, b"k", b"v"); // + 1 + 1
    assert_eq!(m.approx_size(), 7);
}

#[test]
fn test_approx_size_replaces_value_not_key() {
    let mut m = MemTable::new();
    put(&mut m, b"k", b"short"); // 1 + 5 = 6
    assert_eq!(m.approx_size(), 6);
    put(&mut m, b"k", b"longer!"); // key already counted: 1 + 7 = 8
    assert_eq!(m.approx_size(), 8);
    delete(&mut m, b"k"); // value drops to 0: 1 + 0 = 1
    assert_eq!(m.approx_size(), 1);
}

#[test]
fn test_iter_is_sorted() {
    let mut m = MemTable::new();
    put(&mut m, b"c", b"3");
    put(&mut m, b"a", b"1");
    put(&mut m, b"b", b"2");
    let keys: Vec<&[u8]> = m.iter().iter().map(|(k, _)| k.as_slice()).collect();
    assert_eq!(keys, vec![b"a".as_slice(), b"b", b"c"]);
}

#[test]
fn test_take_empties_and_resets_size() {
    let mut m = MemTable::new();
    put(&mut m, b"a", b"1");
    let taken = m.take();
    assert_eq!(taken.len(), 1);
    assert!(m.is_empty());
    assert_eq!(m.approx_size(), 0);
}

#[test]
fn keys_order_like_byte_strings() {
    let mut m = MemTable::new();
    let keys: [&[u8]; 6] = [b"b", b"", b"ab", b"a", &[0xFF], &[0]];
    for k in keys {
        put(&mut m, k, b"x");
    }
    let got: Vec<Vec<u8>> = m.iter().iter().map(|(k, _)| k.clone()).collect();
    let mut want: Vec<Vec<u8>> = keys.iter().map(|k| k.to_vec()).collect();
    want.sort();
    assert_eq!(got, want);
    assert_eq!(m.len(), 6);
}

#[test]
fn a_group_of_writes_applies_in_order() {
    let mut m = MemTable::new();
    m.apply_all(vec![
        (b"k".to_vec(), Record::Value(b"1".to_vec())),
        (b"j".to_vec(), Record::Value(b"2".to_vec())),
        (b"k".to_vec(), Record::Tombstone),
        (b"j".to_vec(), Record::Value(b"33".to_vec())),
    ]);
    assert_eq!(m.get(b"k"), Some(&Record::Tombstone));
    assert_eq!(m.get(b"j"), Some(&Record::Value(b"33".to_vec())));
    assert_eq!(m.approx_size(), 4);
}
