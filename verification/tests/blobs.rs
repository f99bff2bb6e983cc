use bytes::Bytes;
use turbo_rag::blob::{
    exists_from, remote_read_outcome, InMemoryBackend, LocalFsBackend, ReadFault,
};
use turbo_rag::error::TurboError;

#[test]
fn inmemory_put_get_identity() {
    let mut store = InMemoryBackend::new();
    let data = Bytes::from_static(b"hello turbo-rag");
    store.put("test/key", data.clone()).unwrap();
    let got = store.get("test/key").unwrap();
    assert_eq!(got, data);
}

#[test]
fn inmemory_missing_key_returns_not_found() {
    let store = InMemoryBackend::new();
    let err = store.get("does/not/exist").unwrap_err();
    assert!(matches!(err, TurboError::NotFound(_)));
    assert_eq!(err.message(), "not found: does/not/exist");
}

#[test]
fn inmemory_delete_removes_key() {
    let mut store = InMemoryBackend::new();
    store.put("k", Bytes::from_static(b"v")).unwrap();
    store.delete("k").unwrap();
    assert!(matches!(store.get("k"), Err(TurboError::NotFound(_))));
}

#[test]
fn inmemory_list_prefix() {
    let mut store = InMemoryBackend::new();
    store.put("turbo/a", Bytes::new()).unwrap();
    store.put("turbo/b", Bytes::new()).unwrap();
    store.put("lance/c", Bytes::new()).unwrap();
    let keys = store.list_prefix("turbo/").unwrap();
    assert_eq!(keys.len(), 2);
    assert!(keys.contains(&"turbo/a".to_string()));
    assert!(keys.contains(&"turbo/b".to_string()));
}

#[test]
fn inmemory_exists() {
    let mut store = InMemoryBackend::new();
    assert!(!store.key_exists("x").unwrap());
    store.put("x", Bytes::from_static(b"1")).unwrap();
    assert!(store.key_exists("x").unwrap());
}

#[test]
fn a_second_put_replaces_the_first_and_leaves_the_rest() {
    let mut store = InMemoryBackend::new();
    store.put("a", Bytes::from_static(b"1")).unwrap();
    store.put("b", Bytes::from_static(b"2")).unwrap();
    store.put("a", Bytes::from_static(b"3")).unwrap();
    assert_eq!(store.get("a").unwrap(), Bytes::from_static(b"3"));
    assert_eq!(store.get("b").unwrap(), Bytes::from_static(b"2"));
    assert_eq!(store.list_prefix("").unwrap().len(), 2);
    store.delete("a").unwrap();
    store.delete("missing").unwrap();
    assert_eq!(store.get("b").unwrap(), Bytes::from_static(b"2"));
    assert_eq!(store.list_prefix("").unwrap(), vec!["b".to_string()]);
}

#[test]
fn errors_other_than_a_missing_key_stay_errors() {
    assert!(exists_from(Ok(Bytes::new())).unwrap());
    assert!(!exists_from(Err(TurboError::NotFound("k".into()))).unwrap());
    assert!(matches!(
        exists_from(Err(TurboError::Blob("down".into()))),
        Err(TurboError::Blob(_))
    ));
}

#[test]
fn reads_of_files_and_objects() {
    let store = LocalFsBackend::new("./data/blob");
    assert_eq!(store.base_dir, "./data/blob");
    let data = Bytes::from_static(b"x");
    assert_eq!(store.read_outcome("k", Ok(data.clone())).unwrap(), data);
    assert!(matches!(
        store.read_outcome("k", Err(ReadFault::Missing)),
        Err(TurboError::NotFound(key)) if key == "k"
    ));
    assert!(matches!(
        store.read_outcome("k", Err(ReadFault::Failed("denied".into()))),
        Err(TurboError::Io(reason)) if reason == "denied"
    ));
    assert_eq!(remote_read_outcome("k", Ok(data.clone())).unwrap(), data);
    assert!(matches!(
        remote_read_outcome("k", Err(ReadFault::Missing)),
        Err(TurboError::NotFound(key)) if key == "k"
    ));
    assert!(matches!(
        remote_read_outcome("k", Err(ReadFault::Failed("denied".into()))),
        Err(TurboError::Blob(reason)) if reason == "denied"
    ));
}

#[test]
fn directory_listing_keeps_names_with_the_prefix_in_order() {
    let store = LocalFsBackend::new(".");
    let names = vec!["b1".to_string(), "a".to_string(), "b0".to_string(), "b".to_string()];
    assert_eq!(
        store.matching(names, "b"),
        vec!["b1".to_string(), "b0".to_string(), "b".to_string()]
    );
}

#[test]
fn a_default_store_is_empty() {
    let store = InMemoryBackend::default();
    assert!(store.list_prefix("").unwrap().is_empty());
    assert!(!store.key_exists("a").unwrap());
}

#[test]
fn the_last_write_to_a_key_counts() {
    let mut store = InMemoryBackend::new();
    store.put("a", Bytes::from_static(b"1")).unwrap();
    store.put("b", Bytes::from_static(b"2")).unwrap();
    store.delete("a").unwrap();
    store.put("a", Bytes::from_static(b"3")).unwrap();
    store.delete("b").unwrap();
    store.delete("c").unwrap();
    assert_eq!(store.get("a").unwrap(), Bytes::from_static(b"3"));
    assert!(matches!(store.get("b"), Err(TurboError::NotFound(key)) if key == "b"));
    assert!(matches!(store.get("c"), Err(TurboError::NotFound(key)) if key == "c"));
}
