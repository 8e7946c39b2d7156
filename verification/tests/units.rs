//! Tests for the pure value components: keys and prefixes, byte-range
//! translation, the error mapper, listing validation, and size
//! aggregation.

use zarrs_icechunk::aggregate::sum_size_results;
use zarrs_icechunk::byte_range::{translate, translate_back, BackendRange, ByteRange};
use zarrs_icechunk::error::{
    handle_err, handle_result, handle_result_notfound, BackendError, BackendErrorKind,
    StorageError,
};
use zarrs_icechunk::key::{Key, Prefix};
use zarrs_icechunk::listing::collect_keys;

#[test]
fn key_parse_round_trips_valid_strings() {
    for s in ["zarr.json", "a", "a/b/c", "array/c/0/0", "deep/ly/nested/key"] {
        let key = Key::parse(s.as_bytes().to_vec()).expect("valid key rejected");
        assert_eq!(key.as_bytes().as_slice(), s.as_bytes());
    }
}

#[test]
fn key_parse_rejects_invalid_strings() {
    for s in ["", "/a", "a/", "a//b", "/", "//"] {
        let rejected = Key::parse(s.as_bytes().to_vec());
        match rejected {
            Ok(_) => panic!("invalid key accepted: {s:?}"),
            Err(e) => assert_eq!(e.bytes.as_slice(), s.as_bytes()),
        }
    }
}

#[test]
fn prefix_parse_and_matches() {
    for s in ["", "a/", "a/b/"] {
        let prefix = Prefix::parse(s.as_bytes().to_vec()).expect("valid prefix rejected");
        assert_eq!(prefix.as_bytes().as_slice(), s.as_bytes());
    }
    for s in ["/", "a", "a/b", "/a/", "a//b/"] {
        assert!(Prefix::parse(s.as_bytes().to_vec()).is_err(), "invalid prefix accepted: {s:?}");
    }

    let root = Prefix::root();
    let a = Key::parse(b"a".to_vec()).unwrap();
    let bc = Key::parse(b"b/c".to_vec()).unwrap();
    assert!(root.matches(&a));
    assert!(root.matches(&bc));

    let b = Prefix::parse(b"b/".to_vec()).unwrap();
    assert!(b.matches(&bc));
    assert!(!b.matches(&a));
}

#[test]
fn translate_representable_shapes() {
    assert!(matches!(
        translate(&ByteRange::FromStart(0, None)),
        Ok(BackendRange::OffsetToEnd(0))
    ));
    assert!(matches!(
        translate(&ByteRange::FromStart(3, Some(4))),
        Ok(BackendRange::OffsetLength(3, 4))
    ));
    assert!(matches!(translate(&ByteRange::FromEnd(0, 2)), Ok(BackendRange::Suffix(2))));
}

#[test]
fn translate_round_trips() {
    for r in [
        ByteRange::FromStart(0, None),
        ByteRange::FromStart(7, None),
        ByteRange::FromStart(3, Some(4)),
        ByteRange::FromEnd(0, 2),
    ] {
        let backend = translate(&r).expect("representable shape rejected");
        assert_eq!(translate_back(&backend), r);
    }
    for b in [
        BackendRange::OffsetToEnd(5),
        BackendRange::OffsetLength(1, 2),
        BackendRange::Suffix(9),
    ] {
        let request = translate_back(&b);
        assert_eq!(translate(&request).expect("round trip rejected"), b);
    }
}

#[test]
fn translate_rejects_suffix_with_offset() {
    for (end_offset, length) in [(1, 2), (5, 0), (u64::MAX, 1)] {
        let r = translate(&ByteRange::FromEnd(end_offset, length));
        assert!(matches!(r, Err(StorageError::Unsupported(_))));
    }
}

#[test]
fn error_mapper_keeps_messages() {
    let e = handle_err(BackendError::other("boom".to_owned()));
    assert_eq!(e.message(), "boom");
    match e {
        StorageError::Other(m) => assert_eq!(m, "boom"),
        _ => panic!("wrong error kind"),
    }

    let r: Result<u8, StorageError> = handle_result(Err(BackendError::other("bang".to_owned())));
    match r {
        Err(StorageError::Other(m)) => assert_eq!(m, "bang"),
        _ => panic!("wrong outcome"),
    }

    let ok: Result<u8, StorageError> = handle_result(Ok(7));
    assert!(matches!(ok, Ok(7)));
}

#[test]
fn error_mapper_notfound_is_absence() {
    let absent: Result<Option<u8>, StorageError> =
        handle_result_notfound(Err(BackendError::not_found("gone".to_owned())));
    assert!(matches!(absent, Ok(None)));

    let present: Result<Option<u8>, StorageError> = handle_result_notfound(Ok(5));
    assert!(matches!(present, Ok(Some(5))));

    let failed: Result<Option<u8>, StorageError> =
        handle_result_notfound(Err(BackendError::other("broken".to_owned())));
    match failed {
        Err(StorageError::Other(m)) => assert_eq!(m, "broken"),
        _ => panic!("wrong outcome"),
    }

    // A not-found routed through the strict helper stays an error.
    let strict: Result<u8, StorageError> =
        handle_result(Err(BackendError::not_found("gone".to_owned())));
    assert!(matches!(strict, Err(StorageError::Other(_))));
}

#[test]
fn collect_keys_validates_backend_listings() {
    let good = vec![b"a".to_vec(), b"b/c".to_vec()];
    let keys = collect_keys(&good).expect("valid listing rejected");
    assert_eq!(keys.len(), 2);
    assert_eq!(keys[0].as_bytes().as_slice(), b"a".as_slice());
    assert_eq!(keys[1].as_bytes().as_slice(), b"b/c".as_slice());

    let bad = vec![b"a".to_vec(), b"/bad".to_vec()];
    assert!(matches!(collect_keys(&bad), Err(StorageError::InvalidAddress(_))));
}

#[test]
fn sum_size_results_sums_and_fails_fast() {
    let all_ok: Vec<Result<u64, BackendError>> = vec![Ok(3), Ok(0), Ok(9)];
    assert!(matches!(sum_size_results(&all_ok), Ok(12)));

    let empty: Vec<Result<u64, BackendError>> = vec![];
    assert!(matches!(sum_size_results(&empty), Ok(0)));

    let with_failure: Vec<Result<u64, BackendError>> =
        vec![Ok(3), Err(BackendError::other("query failed".to_owned())), Ok(9)];
    match sum_size_results(&with_failure) {
        Err(StorageError::Other(m)) => assert_eq!(m, "query failed"),
        _ => panic!("failure not propagated"),
    }

    let overflowing: Vec<Result<u64, BackendError>> = vec![Ok(u64::MAX), Ok(1)];
    assert!(matches!(sum_size_results(&overflowing), Err(StorageError::Other(_))));
}
