use std::collections::HashMap;
use turbo_rag::columnar::Batch;
use turbo_rag::document::{EmbeddedDoc, ScoredDoc, SearchSource};
use turbo_rag::error::TurboError;
use turbo_rag::hybrid::{merge_tiers, HybridStore, LoadStrategy, Route};
use turbo_rag::lance_store::LanceDbStore;
use turbo_rag::request::{SearchMode, SearchRequest, SearchType};
use turbo_rag::scalar::Scalar;
use turbo_rag::turbovec_store::TurboVecStore;

fn scalars(v: Vec<f32>) -> Vec<Scalar> {
    v.into_iter().map(|x| Scalar { bits: x.to_bits() }).collect()
}

fn docs(n: usize, dim: usize) -> Vec<EmbeddedDoc> {
    (0..n as u64)
        .map(|id| EmbeddedDoc {
            id,
            text: format!("doc {id}"),
            embedding: scalars(vec![id as f32 / n as f32 + 0.001; dim]),
            metadata: HashMap::new(),
        })
        .collect()
}

fn make_hybrid(dim: usize, mode: SearchMode) -> HybridStore {
    HybridStore::new(TurboVecStore::new_in_memory("h", dim, 4), mode)
}

fn cold_doc(id: u64, score: f32) -> ScoredDoc {
    ScoredDoc {
        id,
        text: format!("cold {id}"),
        score: Scalar { bits: score.to_bits() },
        source: SearchSource::LanceDb,
        metadata: HashMap::new(),
    }
}

#[test]
fn auto_mode_serves_from_hot_when_warm() {
    let mut store = make_hybrid(32, SearchMode::Auto);
    assert_eq!(store.route(), Route::Cold);
    store.upsert(&docs(20, 32), Ok(())).unwrap();
    assert!(store.hot.is_warm(), "hot store should be warm after upsert");
    assert_eq!(store.route(), Route::Hot);
    let query = scalars(vec![0.5f32; 32]);
    let req = SearchRequest::vector(&query, 5);
    let results = store.search(&req, None).unwrap();
    assert!(!results.is_empty());
    assert_eq!(
        results[0].source,
        SearchSource::TurboVec,
        "auto mode should use turbovec when warm"
    );
}

#[test]
fn cold_mode_serves_from_lancedb() {
    let mut store = make_hybrid(32, SearchMode::Cold);
    store.upsert(&docs(20, 32), Ok(())).unwrap();
    let query = scalars(vec![0.5f32; 32]);
    let req = SearchRequest::vector(&query, 3);
    let results = store.search(&req, Some(Ok(vec![cold_doc(1, 0.5)]))).unwrap();
    assert!(!results.is_empty());
    assert_eq!(results[0].source, SearchSource::LanceDb, "cold mode must use lancedb");
}

#[test]
fn delete_removes_from_both_stores() {
    let mut store = make_hybrid(16, SearchMode::Auto);
    store.upsert(&docs(10, 16), Ok(())).unwrap();
    assert_eq!(store.hot.doc_count().unwrap(), 10);
    store.delete(0, Ok(())).unwrap();
    assert_eq!(store.hot.doc_count().unwrap(), 9);
}

#[test]
fn dual_write_populates_both_stores() {
    let mut store = make_hybrid(32, SearchMode::Auto);
    store.upsert(&docs(50, 32), Ok(())).unwrap();
    assert_eq!(store.hot.doc_count().unwrap(), 50, "turbovec should have 50 docs");
}

#[test]
fn a_failed_write_of_the_durable_tier_is_reported() {
    let mut store = make_hybrid(16, SearchMode::Auto);
    let r = store.upsert(&docs(2, 16), Err(TurboError::Store("disk full".into())));
    assert!(matches!(r, Err(TurboError::Store(reason)) if reason == "disk full"));
    assert_eq!(store.hot.doc_count().unwrap(), 2);
    let r = store.delete(0, Err(TurboError::Store("gone".into())));
    assert!(matches!(r, Err(TurboError::Store(reason)) if reason == "gone"));
    assert_eq!(store.hot.doc_count().unwrap(), 1);
}

#[test]
fn modes_lead_where_they_should() {
    assert_eq!(make_hybrid(8, SearchMode::Hot).route(), Route::Hot);
    assert_eq!(make_hybrid(8, SearchMode::Cold).route(), Route::Cold);
    assert_eq!(make_hybrid(8, SearchMode::Race).route(), Route::Race);
    assert_eq!(make_hybrid(8, SearchMode::Federated(7)).route(), Route::Both(7));
    assert_eq!(SearchMode::default(), SearchMode::Auto);
    assert_eq!(SearchType::default(), SearchType::Vector);
    assert_eq!(LoadStrategy::default(), LoadStrategy::FromBlob);
}

#[test]
fn a_race_is_won_by_the_tier_that_answered() {
    let mut store = make_hybrid(16, SearchMode::Race);
    store.upsert(&docs(5, 16), Ok(())).unwrap();
    let query = scalars(vec![0.5f32; 16]);
    let req = SearchRequest::vector(&query, 2);
    let hot = store.search(&req, None).unwrap();
    assert_eq!(hot[0].source, SearchSource::TurboVec);
    let cold = store.search(&req, Some(Ok(vec![cold_doc(9, 0.1)]))).unwrap();
    assert_eq!(cold.len(), 1);
    assert_eq!(cold[0].source, SearchSource::LanceDb);
}

#[test]
fn federated_search_merges_both_tiers() {
    let mut store = make_hybrid(16, SearchMode::Federated(3));
    store.upsert(&docs(4, 16), Ok(())).unwrap();
    let query = scalars(vec![0.5f32; 16]);
    let req = SearchRequest::vector(&query, 4);
    let cold = vec![cold_doc(2, 100.0), cold_doc(50, 99.0), cold_doc(51, -100.0)];
    let results = store.search(&req, Some(Ok(cold))).unwrap();
    assert_eq!(results.len(), 3);
    assert_eq!((results[0].id, results[0].source), (2, SearchSource::LanceDb));
    assert_eq!(results[1].id, 50);
    assert_eq!(results[2].source, SearchSource::TurboVec);
    assert_ne!(results[2].id, 2);
}

#[test]
fn federated_search_survives_a_failing_tier() {
    let store = make_hybrid(16, SearchMode::Federated(10));
    let query = scalars(vec![0.5f32; 16]);
    let req = SearchRequest::bm25(&query, "words", 4);
    let results = store.search(&req, Some(Ok(vec![cold_doc(1, 1.0)]))).unwrap();
    assert_eq!(results.len(), 1);
    let down = || Err(TurboError::Store("down".into()));
    assert!(store.search(&req, Some(down())).unwrap().is_empty());
    assert_eq!(merge_tiers(Ok(vec![cold_doc(1, 1.0)]), down(), 5).len(), 1);
}

#[test]
fn the_hot_tier_is_rebuilt_from_the_rows_of_the_cold_one() {
    let table = LanceDbStore::new("docs", 32);
    let rows = vec![
        table.upsert_rows(&docs(20, 32)).unwrap().unwrap(),
        table.upsert_rows(&docs(3, 32)).unwrap().unwrap(),
    ];
    let mut store = make_hybrid(32, SearchMode::Auto);
    store.rebuild_from_cold(&rows).unwrap();
    assert!(store.hot.is_warm());
    assert_eq!(store.hot.doc_count().unwrap(), 23);
    assert_eq!(store.route(), Route::Hot);
    let query = scalars(vec![0.5f32; 32]);
    let found = store.search(&SearchRequest::vector(&query, 100), None).unwrap();
    assert_eq!(found.len(), 20);
    assert!(found.iter().all(|d| d.text == format!("doc {}", d.id)));
}

#[test]
fn an_empty_table_leaves_the_hot_tier_cold() {
    let mut store = make_hybrid(32, SearchMode::Auto);
    store.rebuild_from_cold(&[]).unwrap();
    assert!(!store.hot.is_warm());
    assert_eq!(store.route(), Route::Cold);
}

#[test]
fn unreadable_rows_leave_the_hot_tier_as_it_was() {
    let rows = LanceDbStore::new("docs", 32).upsert_rows(&docs(2, 32)).unwrap().unwrap();
    let without_vectors = Batch { inner: rows.inner.project(&[0, 1]).unwrap() };
    let mut store = make_hybrid(32, SearchMode::Auto);
    let error = store.rebuild_from_cold(&[rows, without_vectors]).unwrap_err();
    assert_eq!(error.message(), "store error: missing embedding column");
    assert!(!store.hot.is_warm());
    assert_eq!(store.hot.doc_count().unwrap(), 0);
}
