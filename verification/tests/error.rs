use lsm_db::error::Error;
use std::io;

#[test]
fn test_io_error_exposes_source() {
    let inner = io::Error::new(io::ErrorKind::PermissionDenied, "denied");
    let err = Error::io("open database directory", inner);
    let io_source = err.source().expect("io error has a source");
    assert_eq!(io_source.kind(), io::ErrorKind::PermissionDenied);
}

#[test]
fn test_corruption_has_no_source() {
    let err = Error::corruption("length prefix exceeds file size");
    assert!(err.source().is_none());
}

#[test]
fn test_corruption_is_fatal_io_is_not() {
    assert!(Error::corruption("truncated record").is_fatal());
    let io = Error::io("read run", io::Error::from(io::ErrorKind::UnexpectedEof));
    assert!(!io.is_fatal());
}

#[test]
fn test_kind_matches_variant() {
    assert_eq!(Error::corruption("x").kind(), "Corruption");
    let io = Error::io("x", io::Error::from(io::ErrorKind::Other));
    assert_eq!(io.kind(), "Io");
}

#[test]
fn test_display_is_actionable() {
    let err = Error::corruption("truncated value");
    assert_eq!(err.message(), "sorted-run corruption: truncated value");
}

#[test]
fn an_io_error_names_its_context_and_cause() {
    let err = Error::io("read run footer", io::Error::new(io::ErrorKind::Other, "boom"));
    assert_eq!(err.message(), "i/o error while read run footer: boom");
    assert_eq!(err.caption(), "lsm storage engine error");
}

#[test]
fn a_converted_io_error_has_the_general_context() {
    let err = Error::from(io::Error::new(io::ErrorKind::Other, "boom"));
    assert_eq!(
        err.message(),
        "i/o error while performing a storage i/o operation: boom"
    );
}
