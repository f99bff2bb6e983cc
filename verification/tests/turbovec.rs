use bytes::Bytes;
use std::collections::HashMap;
use turbo_rag::blob::InMemoryBackend;
use turbo_rag::document::{EmbeddedDoc, SearchSource};
use turbo_rag::error::TurboError;
use turbo_rag::request::SearchRequest;
use turbo_rag::scalar::Scalar;
use turbo_rag::turbovec_store::TurboVecStore;

fn scalars(v: Vec<f32>) -> Vec<Scalar> {
    v.into_iter().map(|x| Scalar { bits: x.to_bits() }).collect()
}

fn make_vecs(n: usize, dim: usize) -> Vec<EmbeddedDoc> {
    (0..n as u64)
        .map(|id| EmbeddedDoc {
            id,
            text: format!("doc {id}"),
            embedding: scalars(vec![id as f32 / n as f32; dim]),
            metadata: HashMap::new(),
        })
        .collect()
}

fn distinct_docs(n: usize, dim: usize) -> Vec<EmbeddedDoc> {
    (0..n as u64)
        .map(|id| {
            let mut v = vec![0.0f32; dim];
            v[id as usize % dim] = 1.0;
            EmbeddedDoc {
                id,
                text: format!("integration doc {id}: machine learning and embeddings"),
                embedding: scalars(v),
                metadata: HashMap::new(),
            }
        })
        .collect()
}

#[test]
fn upsert_and_search() {
    let mut store = TurboVecStore::new_in_memory("test", 64, 4);
    let docs = make_vecs(20, 64);
    store.upsert(&docs).unwrap();
    let req = SearchRequest::vector(&docs[0].embedding, 5);
    let results = store.search(&req).unwrap();
    assert_eq!(results.len(), 5);
}

#[test]
fn bm25_returns_unsupported_error() {
    let store = TurboVecStore::new_in_memory("test", 64, 4);
    let q = scalars(vec![0.0f32; 64]);
    let req = SearchRequest::bm25(&q, "hello", 5);
    assert!(matches!(store.search(&req), Err(TurboError::UnsupportedSearchType(_))));
    let req = SearchRequest::hybrid(&q, "hello", 5, 60);
    let err = store.search(&req).unwrap_err();
    assert_eq!(
        err.message(),
        "unsupported search type for this backend: TurboVecStore only supports SearchType::Vector"
    );
}

#[test]
fn flush_and_reload() {
    let mut blob = InMemoryBackend::new();
    let mut store1 = TurboVecStore::new_in_memory("tbl", 64, 4);
    let docs = make_vecs(10, 64);
    store1.upsert(&docs).unwrap();
    store1.flush_to(&mut blob).unwrap();

    let mut store2 = TurboVecStore::new_in_memory("tbl", 64, 4);
    store2.load_from(&blob).unwrap();
    assert!(store2.is_warm());
    let req = SearchRequest::vector(&docs[0].embedding, 3);
    let results = store2.search(&req).unwrap();
    assert_eq!(results.len(), 3);
}

#[test]
fn turbovec_persist_and_reload_same_results() {
    let dim = 64;
    let mut blob = InMemoryBackend::new();
    let mut store1 = TurboVecStore::new_in_memory("turbovec", dim, 4);
    let d = distinct_docs(30, dim);
    store1.upsert(&d).unwrap();
    store1.flush_to(&mut blob).unwrap();
    assert_eq!(store1.doc_count().unwrap(), 30);

    let mut store2 = TurboVecStore::new_in_memory("turbovec", dim, 4);
    store2.load_from(&blob).unwrap();
    assert!(store2.is_warm());
    assert_eq!(store2.doc_count().unwrap(), 30);

    let query = d[5].embedding.clone();
    let req = SearchRequest::vector(&query, 3);
    let r1 = store1.search(&req).unwrap();
    let r2 = store2.search(&req).unwrap();
    let ids1: Vec<u64> = r1.iter().map(|x| x.id).collect();
    let ids2: Vec<u64> = r2.iter().map(|x| x.id).collect();
    assert_eq!(ids1, ids2, "reloaded index should return identical top-3");
    let texts2: Vec<&str> = r2.iter().map(|x| x.text.as_str()).collect();
    let texts1: Vec<&str> = r1.iter().map(|x| x.text.as_str()).collect();
    assert_eq!(texts1, texts2);
    assert_eq!(r2[0].id, 5);
    assert_eq!(r2[0].text, "integration doc 5: machine learning and embeddings");
    assert!(r2.iter().all(|r| r.source == SearchSource::TurboVec && r.metadata.is_empty()));
}

#[test]
fn keys_and_stored_form() {
    let mut store = TurboVecStore::new_in_memory("main", 16, 2);
    assert_eq!(store.index_key(), "turbovec/main/index.tq");
    assert_eq!(store.meta_key(), "turbovec/main/meta.json");
    let mut docs = distinct_docs(2, 16);
    docs[1].id = u64::MAX;
    docs[1].text = "a \"quoted\" \\ line\nwith é and \u{1F600}".to_string();
    store.upsert(&docs).unwrap();
    let stored = store.flush().unwrap();
    assert_eq!(stored.index_key, store.index_key());
    assert_eq!(stored.meta_key, store.meta_key());
    let meta: serde_json::Value = serde_json::from_slice(&stored.meta).unwrap();
    assert_eq!(meta["count"].as_u64(), Some(2));
    assert_eq!(meta["dim"].as_u64(), Some(16));
    assert_eq!(meta["bits"].as_u64(), Some(2));
    let texts = meta["texts"].as_object().unwrap();
    assert_eq!(texts.len(), 2);
    assert_eq!(texts["18446744073709551615"].as_str(), Some(docs[1].text.as_str()));

    let mut read = TurboVecStore::new_in_memory("main", 16, 2);
    read.load_from_blob(Ok(stored.index), Ok(stored.meta)).unwrap();
    let hits = read.search(&SearchRequest::vector(&docs[1].embedding, 1)).unwrap();
    assert_eq!(hits[0].id, u64::MAX);
    assert_eq!(hits[0].text, docs[1].text);
}

#[test]
fn a_store_is_cold_until_documents_come_in() {
    let mut store = TurboVecStore::new_in_memory("t", 8, 4);
    assert!(!store.is_warm());
    store.upsert(&[]).unwrap();
    assert!(!store.is_warm());
    assert_eq!(store.doc_count().unwrap(), 0);
    store.upsert(&distinct_docs(3, 8)).unwrap();
    assert!(store.is_warm());
    assert_eq!(store.doc_count().unwrap(), 3);
    assert_eq!(store.settled(), Some(8));
}

#[test]
fn upserting_again_counts_again_and_changes_the_text() {
    let mut store = TurboVecStore::new_in_memory("t", 8, 4);
    let mut docs = distinct_docs(3, 8);
    store.upsert(&docs).unwrap();
    docs[1].text = "new".to_string();
    store.upsert(&docs[1..2]).unwrap();
    assert_eq!(store.doc_count().unwrap(), 4);
    let hits = store.search(&SearchRequest::vector(&docs[1].embedding, 10)).unwrap();
    assert_eq!(hits.len(), 3);
    assert_eq!(hits[0].text, "new");
}

#[test]
fn deleted_documents_are_not_found() {
    let mut store = TurboVecStore::new_in_memory("t", 16, 4);
    let docs = distinct_docs(10, 16);
    store.upsert(&docs).unwrap();
    store.delete(4).unwrap();
    assert_eq!(store.doc_count().unwrap(), 9);
    let hits = store.search(&SearchRequest::vector(&docs[4].embedding, 10)).unwrap();
    assert_eq!(hits.len(), 9);
    assert!(hits.iter().all(|h| h.id != 4));
    for id in 0..20 {
        store.delete(id).unwrap();
    }
    assert_eq!(store.doc_count().unwrap(), 0);
    assert!(store.search(&SearchRequest::vector(&docs[0].embedding, 3)).unwrap().is_empty());
}

#[test]
fn loading_from_an_empty_blob_store_finds_nothing() {
    let blob = InMemoryBackend::new();
    let mut store = TurboVecStore::new_in_memory("t", 8, 4);
    let err = store.load_from(&blob).unwrap_err();
    assert_eq!(err.message(), "not found: turbovec/t/index.tq");
    assert!(!store.is_warm());
}

#[test]
fn tables_do_not_share_their_blobs() {
    let mut blob = InMemoryBackend::new();
    for (table, n) in [("a", 2), ("b", 5)] {
        let mut store = TurboVecStore::new_in_memory(table, 8, 4);
        store.upsert(&distinct_docs(n, 8)).unwrap();
        store.flush_to(&mut blob).unwrap();
    }
    assert_eq!(blob.list_prefix("turbovec/").unwrap().len(), 4);
    let mut store = TurboVecStore::new_in_memory("a", 8, 4);
    store.load_from(&blob).unwrap();
    assert_eq!(store.doc_count().unwrap(), 2);
}

#[test]
fn queries_can_be_tried_first() {
    let store = TurboVecStore::new_in_memory("t", 8, 4);
    assert!(store.can_search(&scalars(vec![0.5; 8])));
    assert!(store.can_search(&[]));
    assert!(!store.can_search(&scalars(vec![0.5; 9])));
    assert!(!store.can_search(&scalars(vec![f32::INFINITY; 8])));
}

#[test]
fn loading_without_an_index_changes_nothing() {
    let mut store = TurboVecStore::new_in_memory("t", 8, 4);
    let missing = store
        .load_from_blob(Err(TurboError::NotFound("k".into())), Ok(Bytes::from_static(b"{}")));
    assert!(matches!(missing, Err(TurboError::NotFound(_))));
    assert!(!store.is_warm());
    let broken = store.load_from_blob(Ok(Bytes::from_static(b"junk")), Ok(Bytes::new()));
    assert!(matches!(broken, Err(TurboError::Store(_))));
    assert!(!store.is_warm());
}

#[test]
fn stored_counts_and_texts_are_read_as_far_as_they_go() {
    let mut full = TurboVecStore::new_in_memory("t", 8, 4);
    let docs = distinct_docs(3, 8);
    full.upsert(&docs).unwrap();
    let image = full.flush().unwrap().index;
    let query = docs[1].embedding.clone();
    let first = |store: &TurboVecStore| {
        let hits = store.search(&SearchRequest::vector(&query, 1)).unwrap();
        (hits[0].id, hits[0].text.clone())
    };

    let mut store = TurboVecStore::new_in_memory("t", 8, 4);
    store.load_from_blob(Ok(image.clone()), Err(TurboError::NotFound("m".into()))).unwrap();
    assert!(store.is_warm());
    assert_eq!(store.doc_count().unwrap(), 0);
    assert_eq!(first(&store), (1, String::new()));

    store.load_from_blob(Ok(image.clone()), Ok(Bytes::from_static(b"not json"))).unwrap();
    assert_eq!(store.doc_count().unwrap(), 0);

    let meta = Bytes::from_static(
        b"{\"count\": 7, \"texts\": {\"1\": \"one\", \"x\": \"no id\", \"2\": 5}}",
    );
    store.load_from_blob(Ok(image.clone()), Ok(meta)).unwrap();
    assert_eq!(store.doc_count().unwrap(), 7);
    assert_eq!(first(&store), (1, "one".to_string()));

    let meta = Bytes::from_static(b"{\"count\": -1, \"texts\": [1, 2]}");
    store.load_from_blob(Ok(image), Ok(meta)).unwrap();
    assert_eq!(store.doc_count().unwrap(), 7);
    assert_eq!(first(&store), (1, "one".to_string()));
}

#[test]
fn hits_are_enriched_with_the_texts_that_are_known() {
    let mut store = TurboVecStore::new_in_memory("t", 8, 4);
    store.upsert(&distinct_docs(2, 8)).unwrap();
    let half = Scalar { bits: 0.5f32.to_bits() };
    let docs = store.enrich(vec![(1, half), (77, half)]);
    assert_eq!(docs[0].text, "integration doc 1: machine learning and embeddings");
    assert_eq!(docs[1].text, "");
    assert_eq!(docs[1].id, 77);
    assert_eq!(docs[1].score, half);
}
