use lsm_db::error::Error;
use lsm_db::manifest::{run_filename, seq_of, Manifest};

fn reason(text: &str) -> &'static str {
    match Manifest::load(Some(text)) {
        Err(Error::Corruption { reason }) => reason,
        _ => panic!("expected corruption"),
    }
}

#[test]
fn test_filename_and_seq_roundtrip() {
    assert_eq!(run_filename(42), "run-0000000042.sst");
    assert_eq!(seq_of("run-0000000042.sst"), Some(42));
    assert_eq!(seq_of("MANIFEST"), None);
    assert_eq!(seq_of("run-bad.sst"), None);
}

#[test]
fn test_store_then_load() {
    let runs = vec![run_filename(5), run_filename(3), run_filename(1)];
    let text = Manifest::store(6, &runs);
    let loaded = Manifest::load(Some(&text)).unwrap().unwrap();
    assert_eq!(loaded.next_seq, 6);
    assert_eq!(loaded.runs, runs);
}

#[test]
fn test_load_absent_is_none() {
    assert!(Manifest::load(None).unwrap().is_none());
}

#[test]
fn test_load_empty_run_list() {
    let text = Manifest::store(1, &vec![]);
    let loaded = Manifest::load(Some(&text)).unwrap().unwrap();
    assert_eq!(loaded.next_seq, 1);
    assert!(loaded.runs.is_empty());
}

#[test]
fn test_bad_header_is_corruption() {
    assert!(Manifest::load(Some("garbage\n")).is_err());
}

#[test]
fn the_stored_text_is_line_oriented() {
    let text = Manifest::store(18446744073709551615, &vec![run_filename(7), run_filename(0)]);
    assert_eq!(
        text,
        "LSMDB-MANIFEST v1\nnext_seq=18446744073709551615\nrun-0000000007.sst\nrun-0000000000.sst\n"
    );
}

#[test]
fn faults_of_a_manifest_are_told_apart() {
    assert_eq!(reason(""), "manifest header missing or unrecognised");
    assert_eq!(
        reason("LSMDB-MANIFEST v2\nnext_seq=1\n"),
        "manifest header missing or unrecognised"
    );
    assert_eq!(reason("LSMDB-MANIFEST v1\n"), "manifest truncated");
    assert_eq!(reason("LSMDB-MANIFEST v1"), "manifest truncated");
    for line in [
        "",
        "next_seq",
        "next_seq=",
        "next_seq=x",
        "next_seq=+",
        "next_seq=-1",
        "next_seq=1 ",
        "next_seq=18446744073709551616",
        "seq=1",
    ] {
        let text = format!("LSMDB-MANIFEST v1\n{line}\nrun-0000000001.sst\n");
        assert_eq!(reason(&text), "manifest next_seq line malformed", "{line:?}");
    }
}

#[test]
fn blank_lines_and_carriage_returns_are_tolerated() {
    let text = "LSMDB-MANIFEST v1\r\nnext_seq=+12\r\n\r\nrun-a\r\n\n\nrun-b";
    let loaded = Manifest::load(Some(text)).unwrap().unwrap();
    assert_eq!(loaded.next_seq, 12);
    assert_eq!(loaded.runs, vec!["run-a".to_string(), "run-b".to_string()]);
}

#[test]
fn sequence_numbers_of_any_size_roundtrip() {
    for seq in [0, 1, 9, 10, 999_999_999, 9_999_999_999, 10_000_000_000, u64::MAX] {
        assert_eq!(run_filename(seq), format!("run-{seq:010}.sst"));
        assert_eq!(seq_of(&run_filename(seq)), Some(seq));
    }
    assert_eq!(seq_of("run-7.sst"), Some(7));
    assert_eq!(seq_of("run-.sst"), None);
    assert_eq!(seq_of("run-1.sst.bloom"), None);
    assert_eq!(seq_of("run-18446744073709551616.sst"), None);
}
