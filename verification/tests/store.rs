//! Tests for the storage adapter over the in-memory versioned backend:
//! reads, writes, capability gates, listings, sizes, and time travel
//! across snapshots.

use zarrs_icechunk::adapter::{unpack_partial, StorageAdapter};
use zarrs_icechunk::backend::MemoryBackend;
use zarrs_icechunk::byte_range::ByteRange;
use zarrs_icechunk::error::{BackendError, BackendErrorKind, StorageError};
use zarrs_icechunk::key::{Key, Prefix};

fn full_store() -> StorageAdapter {
    StorageAdapter::new(MemoryBackend::new(true, true, true))
}

fn key(s: &str) -> Key {
    Key::parse(s.as_bytes().to_vec()).expect("invalid test key")
}

fn prefix(s: &str) -> Prefix {
    Prefix::parse(s.as_bytes().to_vec()).expect("invalid test prefix")
}

#[test]
fn get_absent_is_none_not_an_error() {
    let store = full_store();
    assert!(matches!(store.get(&key("zarr.json")), Ok(None)));
}

#[test]
fn set_then_get_returns_the_value() {
    let mut store = full_store();
    let k = key("zarr.json");
    let payload = br#"{"zarr_format":3,"node_type":"group"}"#.to_vec();
    store.set(&k, payload.clone()).expect("set failed");
    assert_eq!(store.get(&k).expect("get failed"), Some(payload));
}

#[test]
fn overwrite_is_last_write_wins() {
    let mut store = full_store();
    let k = key("a");
    store.set(&k, vec![1]).unwrap();
    store.set(&k, vec![2, 3]).unwrap();
    assert_eq!(store.get(&k).unwrap(), Some(vec![2, 3]));
}

#[test]
fn erase_missing_is_a_noop_when_supported() {
    let mut store = full_store();
    let k = key("missing");
    assert!(matches!(store.erase(&k), Ok(())));

    // Independent of whether the key exists: erasing an existing key
    // succeeds too, and removes it.
    store.set(&k, vec![1]).unwrap();
    assert!(matches!(store.erase(&k), Ok(())));
    assert!(matches!(store.get(&k), Ok(None)));
}

#[test]
fn erase_fails_unsupported_without_the_capability() {
    let mut store = StorageAdapter::new(MemoryBackend::new(false, false, true));
    let k = key("present");
    store.set(&k, vec![9]).unwrap();

    assert!(matches!(store.erase(&key("missing")), Err(StorageError::Unsupported(_))));
    assert!(matches!(store.erase(&k), Err(StorageError::Unsupported(_))));
    // The gated failure left the object alone.
    assert_eq!(store.get(&k).unwrap(), Some(vec![9]));
}

#[test]
fn set_partial_values_always_unsupported() {
    // Whatever the backend's partial-write flag says, the adapter
    // refuses: the flag alone does not make the operation safe.
    for flag in [false, true] {
        let store = StorageAdapter::new(MemoryBackend::new(true, flag, true));
        let request = vec![(key("a"), 0u64, vec![1u8, 2])];
        assert!(matches!(
            store.set_partial_values(&request),
            Err(StorageError::Unsupported(_))
        ));
    }
}

#[test]
fn get_partial_values_returns_ranges_in_order() {
    let mut store = full_store();
    let k = key("object");
    store.set(&k, vec![1, 2, 5, 6]).unwrap();

    let ranges = vec![ByteRange::FromStart(0, Some(2)), ByteRange::FromEnd(0, 2)];
    let out = store
        .get_partial_values_key(&k, &ranges)
        .expect("call failed")
        .expect("object missing");
    assert_eq!(out, vec![vec![1, 2], vec![5, 6]]);
}

#[test]
fn get_partial_values_absent_object_is_none() {
    let store = full_store();
    let ranges = vec![ByteRange::FromStart(0, None)];
    assert!(matches!(store.get_partial_values_key(&key("nope"), &ranges), Ok(None)));
}

#[test]
fn get_partial_values_rejects_unrepresentable_shape() {
    let mut store = full_store();
    let k = key("object");
    store.set(&k, vec![1, 2, 5, 6]).unwrap();

    let ranges = vec![ByteRange::FromStart(0, Some(2)), ByteRange::FromEnd(1, 2)];
    assert!(matches!(
        store.get_partial_values_key(&k, &ranges),
        Err(StorageError::Unsupported(_))
    ));
}

#[test]
fn get_partial_values_clamps_to_the_object() {
    let mut store = full_store();
    let k = key("short");
    store.set(&k, vec![7, 8]).unwrap();

    let ranges = vec![
        ByteRange::FromStart(1, None),
        ByteRange::FromStart(5, None),
        ByteRange::FromStart(1, Some(10)),
        ByteRange::FromEnd(0, 10),
    ];
    let out = store.get_partial_values_key(&k, &ranges).unwrap().unwrap();
    assert_eq!(out, vec![vec![8], vec![], vec![8], vec![7, 8]]);
}

#[test]
fn unpack_partial_rejects_a_missing_range() {
    let results: Vec<Result<Vec<u8>, BackendError>> = vec![
        Ok(vec![1]),
        Err(BackendError::not_found("range missing".to_owned())),
    ];
    assert!(matches!(unpack_partial(&results), Err(StorageError::Other(_))));
}

#[test]
fn size_key_reports_lengths() {
    let mut store = full_store();
    store.set(&key("a"), vec![1, 2, 3]).unwrap();
    assert!(matches!(store.size_key(&key("a")), Ok(Some(3))));
    // The backend does not distinguish absent from empty.
    assert!(matches!(store.size_key(&key("missing")), Ok(Some(0))));
}

#[test]
fn size_queries_fail_unsupported_without_the_capability() {
    let mut store = StorageAdapter::new(MemoryBackend::new(true, false, false));
    store.set(&key("a"), vec![1, 2, 3]).unwrap();
    assert!(matches!(store.size_key(&key("a")), Err(StorageError::Unsupported(_))));
    assert!(matches!(store.size_prefix(&Prefix::root()), Err(StorageError::Unsupported(_))));
    assert!(matches!(store.size(), Err(StorageError::Unsupported(_))));
}

#[test]
fn size_prefix_is_the_sum_over_listed_keys() {
    let mut store = full_store();
    store.set(&key("a"), vec![0; 3]).unwrap();
    store.set(&key("b/c"), vec![0; 5]).unwrap();
    store.set(&key("b/d"), vec![0; 2]).unwrap();

    let scope = prefix("b/");
    let mut by_hand: u64 = 0;
    for k in store.list_prefix(&scope).expect("listing failed") {
        by_hand += store.size_key(&k).unwrap().unwrap();
    }
    assert_eq!(store.size_prefix(&scope).expect("size_prefix failed"), by_hand);
    assert_eq!(by_hand, 7);

    assert_eq!(store.size().expect("size failed"), 10);
    assert_eq!(store.size_prefix(&Prefix::root()).unwrap(), 10);
}

#[test]
fn list_returns_every_key() {
    let mut store = full_store();
    store.set(&key("a"), vec![1]).unwrap();
    store.set(&key("b/c"), vec![2]).unwrap();

    let mut listed: Vec<Vec<u8>> =
        store.list().expect("list failed").iter().map(|k| k.as_bytes().clone()).collect();
    listed.sort();
    assert_eq!(listed, vec![b"a".to_vec(), b"b/c".to_vec()]);
}

#[test]
fn list_prefix_is_flat_and_recursive() {
    let mut store = full_store();
    store.set(&key("a"), vec![1]).unwrap();
    store.set(&key("b/c"), vec![2]).unwrap();
    store.set(&key("b/d/e"), vec![3]).unwrap();

    let mut listed: Vec<Vec<u8>> = store
        .list_prefix(&prefix("b/"))
        .expect("list_prefix failed")
        .iter()
        .map(|k| k.as_bytes().clone())
        .collect();
    listed.sort();
    assert_eq!(listed, vec![b"b/c".to_vec(), b"b/d/e".to_vec()]);
}

#[test]
fn list_dir_is_one_level_not_flat() {
    let mut store = full_store();
    store.set(&key("a"), vec![1]).unwrap();
    store.set(&key("b/c"), vec![2]).unwrap();
    store.set(&key("b/d"), vec![3]).unwrap();

    let listing = store.list_dir(&Prefix::root()).expect("list_dir failed");
    let keys: Vec<Vec<u8>> = listing.keys.iter().map(|k| k.as_bytes().clone()).collect();
    let prefixes: Vec<Vec<u8>> =
        listing.prefixes.iter().map(|p| p.as_bytes().clone()).collect();
    assert_eq!(keys, vec![b"a".to_vec()]);
    assert_eq!(prefixes, vec![b"b/".to_vec()]);

    let below = store.list_dir(&prefix("b/")).expect("list_dir failed");
    let mut keys: Vec<Vec<u8>> = below.keys.iter().map(|k| k.as_bytes().clone()).collect();
    keys.sort();
    assert_eq!(keys, vec![b"b/c".to_vec(), b"b/d".to_vec()]);
    assert!(below.prefixes.is_empty());
}

#[test]
fn prefix_scope_ends_at_segment_boundaries() {
    let mut store = full_store();
    store.set(&key("b"), vec![1]).unwrap();
    store.set(&key("ba"), vec![2]).unwrap();
    store.set(&key("b/c"), vec![3]).unwrap();

    // Neither the key "b" nor "ba" lies under the scope "b/".
    let listed: Vec<Vec<u8>> = store
        .list_prefix(&prefix("b/"))
        .unwrap()
        .iter()
        .map(|k| k.as_bytes().clone())
        .collect();
    assert_eq!(listed, vec![b"b/c".to_vec()]);
    assert_eq!(store.size_prefix(&prefix("b/")).unwrap(), 1);
}

#[test]
fn list_dir_reports_each_child_once() {
    let mut store = full_store();
    store.set(&key("b/c/x"), vec![1]).unwrap();
    store.set(&key("b/c/y"), vec![2]).unwrap();
    store.set(&key("b/d/z"), vec![3]).unwrap();

    let listing = store.list_dir(&prefix("b/")).expect("list_dir failed");
    assert!(listing.keys.is_empty());
    let mut prefixes: Vec<Vec<u8>> =
        listing.prefixes.iter().map(|p| p.as_bytes().clone()).collect();
    prefixes.sort();
    assert_eq!(prefixes, vec![b"b/c/".to_vec(), b"b/d/".to_vec()]);
}

#[test]
fn erase_prefix_removes_exactly_the_scope() {
    let mut store = full_store();
    store.set(&key("a"), vec![1]).unwrap();
    store.set(&key("b/c"), vec![2]).unwrap();
    store.set(&key("b/d"), vec![3]).unwrap();

    store.erase_prefix(&prefix("b/")).expect("erase_prefix failed");
    assert!(matches!(store.get(&key("b/c")), Ok(None)));
    assert!(matches!(store.get(&key("b/d")), Ok(None)));
    assert_eq!(store.get(&key("a")).unwrap(), Some(vec![1]));

    let mut gated = StorageAdapter::new(MemoryBackend::new(false, false, true));
    gated.set(&key("b/c"), vec![2]).unwrap();
    assert!(matches!(
        gated.erase_prefix(&prefix("b/")),
        Err(StorageError::Unsupported(_))
    ));
    assert_eq!(gated.get(&key("b/c")).unwrap(), Some(vec![2]));
}

#[test]
fn time_travel_across_snapshots() {
    let mut store = full_store();
    let k = key("zarr.json");

    store.set(&k, b"A".to_vec()).unwrap();
    let v0 = store.session().commit();

    store.set(&k, b"B".to_vec()).unwrap();
    let v1 = store.session().commit();

    store.session().checkout(v0).expect("checkout failed");
    assert_eq!(store.get(&k).unwrap(), Some(b"A".to_vec()));

    store.session().checkout(v1).expect("checkout failed");
    assert_eq!(store.get(&k).unwrap(), Some(b"B".to_vec()));
}

#[test]
fn commit_keeps_the_working_namespace() {
    let mut store = full_store();
    store.set(&key("a"), vec![1]).unwrap();
    let _v0 = store.session().commit();
    assert_eq!(store.get(&key("a")).unwrap(), Some(vec![1]));
}

#[test]
fn checkout_of_unknown_snapshot_fails() {
    let mut store = full_store();
    let e = store.session().checkout(3).expect_err("unknown snapshot accepted");
    assert_eq!(e.kind, BackendErrorKind::NotFound);
}
