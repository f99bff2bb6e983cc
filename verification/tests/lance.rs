use arrow_array::{Array, FixedSizeListArray, Float32Array, RecordBatch, StringArray, UInt64Array};
use arrow_schema::{DataType, Field, Schema};
use std::collections::HashMap;
use std::sync::Arc;
use turbo_rag::columnar::Batch;
use turbo_rag::document::{EmbeddedDoc, SearchSource};
use turbo_rag::error::TurboError;
use turbo_rag::lance_store::{
    collect_results, distances, filter_predicate, fusion_constant, id_predicate, plan_search,
    read_documents, score_of_rank, wants_vector_index, LanceDbStore, LanceQuery, ScoreColumn,
};
use turbo_rag::request::{MetadataFilter, SearchRequest};
use turbo_rag::scalar::Scalar;

fn scalars(v: Vec<f32>) -> Vec<Scalar> {
    v.into_iter().map(|x| Scalar { bits: x.to_bits() }).collect()
}

fn make_docs(n: usize, dim: usize) -> Vec<EmbeddedDoc> {
    (0..n as u64)
        .map(|id| EmbeddedDoc {
            id,
            text: format!("document about topic number {id}"),
            embedding: scalars(vec![id as f32 / n as f32 + 0.001; dim]),
            metadata: HashMap::new(),
        })
        .collect()
}

fn batch(ids: Vec<u64>, texts: Vec<&str>, extra: Option<(&str, Vec<f32>)>) -> Batch {
    let mut fields = vec![
        Field::new("id", DataType::UInt64, false),
        Field::new("text", DataType::Utf8, false),
    ];
    let mut columns: Vec<Arc<dyn Array>> = vec![
        Arc::new(UInt64Array::from(ids)),
        Arc::new(StringArray::from(texts)),
    ];
    if let Some((name, values)) = extra {
        fields.push(Field::new(name, DataType::Float32, true));
        columns.push(Arc::new(Float32Array::from(values)));
    }
    Batch { inner: RecordBatch::try_new(Arc::new(Schema::new(fields)), columns).unwrap() }
}

fn float(s: Scalar) -> f32 {
    f32::from_bits(s.bits)
}

#[test]
fn rank_scores_follow_the_formula() {
    for rank in [0usize, 1, 2, 3, 4, 5, 6, 7, 8, 9, 10, 11, 12, 13, 14, 15, 16, 17, 18, 19, 20, 21, 100, 1024, 70_000] {
        let expected = 1.0 - (rank as f32 * 0.05).min(0.99);
        assert_eq!(score_of_rank(rank).bits, expected.to_bits(), "rank {rank}");
    }
    assert_eq!(score_of_rank(usize::MAX), score_of_rank(20));
}

#[test]
fn documents_become_rows() {
    let store = LanceDbStore::new("test_docs", 32);
    assert_eq!(store.table_name, "test_docs");
    let docs = make_docs(20, 32);
    let rows = store.make_batch(&docs).unwrap();
    assert_eq!(rows.inner.num_rows(), 20);
    assert_eq!(rows.inner.schema(), store.schema());
    let vectors = rows
        .inner
        .column_by_name("embedding")
        .unwrap()
        .as_any()
        .downcast_ref::<FixedSizeListArray>()
        .unwrap();
    assert_eq!(vectors.value_length(), 32);
    let third = vectors.value(3);
    let third = third.as_any().downcast_ref::<Float32Array>().unwrap();
    assert_eq!(third.len(), 32);
    assert!(third.values().iter().all(|v| *v == 3.0f32 / 20.0 + 0.001));
}

#[test]
fn schema_is_as_the_table_needs_it() {
    let schema = LanceDbStore::new("t", 64).schema();
    let fields: Vec<(String, DataType, bool)> = schema
        .fields()
        .iter()
        .map(|f| (f.name().clone(), f.data_type().clone(), f.is_nullable()))
        .collect();
    let item = Arc::new(Field::new("item", DataType::Float32, true));
    assert_eq!(
        fields,
        vec![
            ("id".to_string(), DataType::UInt64, false),
            ("text".to_string(), DataType::Utf8, false),
            ("embedding".to_string(), DataType::FixedSizeList(item, 64), false),
        ]
    );
}

#[test]
fn written_rows_are_read_back() {
    let store = LanceDbStore::new("t", 16);
    let docs = make_docs(5, 16);
    let rows = store.upsert_rows(&docs).unwrap().unwrap();
    let results = collect_results(&[rows], 5, ScoreColumn::Rank, &[None]).unwrap();
    assert_eq!(results.len(), 5);
    for (i, r) in results.iter().enumerate() {
        assert_eq!(r.id, i as u64);
        assert_eq!(r.text, format!("document about topic number {i}"));
        assert_eq!(r.source, SearchSource::LanceDb);
        assert!(r.metadata.is_empty());
    }
}

#[test]
fn vectors_of_a_wrong_length_are_refused() {
    let store = LanceDbStore::new("t", 16);
    let mut docs = make_docs(3, 16);
    docs[1].embedding.pop();
    assert!(matches!(store.make_batch(&docs), Err(TurboError::Store(_))));
    let docs = make_docs(3, 8);
    assert!(matches!(store.make_batch(&docs), Err(TurboError::Store(_))));
    let docs = make_docs(2, 8);
    assert!(matches!(store.upsert_rows(&docs), Err(TurboError::Store(_))), "two halves are one row");
    assert!(matches!(LanceDbStore::new("t", 0).make_batch(&docs), Err(TurboError::Store(_))));
    assert!(store.upsert_rows(&[]).unwrap().is_none());
}

#[test]
fn distances_become_similarities() {
    let b = batch(vec![7, 8, 9], vec!["a", "b", "c"], Some(("_distance", vec![3.0, 0.0, 1.0])));
    let d = distances(&b).unwrap();
    assert_eq!(d, scalars(vec![3.0, 0.0, 1.0]));
    let similar = scalars(d.iter().map(|x| 1.0 / (1.0 + float(*x))).collect());
    let results = collect_results(&[b], 2, ScoreColumn::Distance, &[Some(similar)]).unwrap();
    let got: Vec<(u64, f32)> = results.iter().map(|r| (r.id, float(r.score))).collect();
    assert_eq!(got, vec![(8, 1.0), (9, 0.5)]);
}

#[test]
fn without_distances_the_rank_decides() {
    let b = batch(vec![7, 8], vec!["a", "b"], None);
    assert!(distances(&b).is_none());
    let results = collect_results(&[b], 5, ScoreColumn::Distance, &[None]).unwrap();
    let got: Vec<(u64, f32)> = results.iter().map(|r| (r.id, float(r.score))).collect();
    assert_eq!(got, vec![(7, 1.0), (8, 0.95)]);
}

#[test]
fn relevance_is_taken_as_it_stands() {
    let b = batch(vec![1, 2, 3], vec!["a", "b", "c"], Some(("_score", vec![0.5, 12.25, 3.0])));
    let results = collect_results(&[b], 10, ScoreColumn::Bm25, &[None]).unwrap();
    let got: Vec<(u64, f32)> = results.iter().map(|r| (r.id, float(r.score))).collect();
    assert_eq!(got, vec![(2, 12.25), (3, 3.0), (1, 0.5)]);
    let b = batch(vec![1, 2], vec!["a", "b"], None);
    let results = collect_results(&[b], 10, ScoreColumn::Bm25, &[None]).unwrap();
    assert_eq!(float(results[1].score), 0.95);
}

#[test]
fn fused_answers_keep_their_order_over_batches() {
    let first = batch(vec![5, 3], vec!["a", "b"], None);
    let second = batch(vec![9, 1, 5], vec!["c", "d", "again"], None);
    let results = collect_results(&[first, second], 3, ScoreColumn::Rank, &[None, None]).unwrap();
    let got: Vec<u64> = results.iter().map(|r| r.id).collect();
    assert_eq!(got, vec![5, 3, 9]);
    assert_eq!(results[0].text, "a");
    assert_eq!(float(results[2].score), 1.0 - 0.99f32);
}

#[test]
fn the_best_row_of_an_identifier_is_kept() {
    let b = batch(
        vec![1, 2, 1],
        vec!["low", "mid", "high"],
        Some(("_score", vec![0.1, 0.5, 0.9])),
    );
    let results = collect_results(&[b], 10, ScoreColumn::Bm25, &[None]).unwrap();
    let got: Vec<(u64, &str)> = results.iter().map(|r| (r.id, r.text.as_str())).collect();
    assert_eq!(got, vec![(1, "high"), (2, "mid")]);
}

#[test]
fn batches_without_their_columns_are_refused() {
    let schema = Arc::new(Schema::new(vec![Field::new("text", DataType::Utf8, false)]));
    let columns: Vec<Arc<dyn Array>> = vec![Arc::new(StringArray::from(vec!["x"]))];
    let no_id = Batch { inner: RecordBatch::try_new(schema, columns).unwrap() };
    let err = collect_results(&[no_id], 1, ScoreColumn::Rank, &[None]).unwrap_err();
    assert_eq!(err.message(), "store error: missing id column");

    let schema = Arc::new(Schema::new(vec![
        Field::new("id", DataType::UInt64, false),
        Field::new("text", DataType::UInt64, false),
    ]));
    let columns: Vec<Arc<dyn Array>> =
        vec![Arc::new(UInt64Array::from(vec![1])), Arc::new(UInt64Array::from(vec![1]))];
    let no_text = Batch { inner: RecordBatch::try_new(schema, columns).unwrap() };
    let fine = batch(vec![1], vec!["a"], None);
    let err = collect_results(&[fine, no_text], 1, ScoreColumn::Rank, &[None, None]).unwrap_err();
    assert_eq!(err.message(), "store error: missing text column");
    assert!(collect_results(&[], 1, ScoreColumn::Rank, &[]).unwrap().is_empty());
}

#[test]
fn requests_become_queries() {
    let q = scalars(vec![1.0, 2.0]);
    match plan_search(&SearchRequest::vector(&q, 5)).unwrap() {
        (LanceQuery::Nearest { vector, limit, filter }, ScoreColumn::Distance) => {
            assert_eq!(vector, &q[..]);
            assert_eq!(limit, 5);
            assert!(filter.is_none());
        }
        _ => panic!("expected a vector query"),
    }
    match plan_search(&SearchRequest::bm25(&q, "words", 6)).unwrap() {
        (LanceQuery::FullText { text, limit, filter }, ScoreColumn::Bm25) => {
            assert_eq!((text, limit), ("words", 6));
            assert!(filter.is_none());
        }
        _ => panic!("expected a text query"),
    }
    match plan_search(&SearchRequest::hybrid(&q, "words", 7, 60)).unwrap() {
        (LanceQuery::Fused { text, vector, limit, filter }, ScoreColumn::Rank) => {
            assert_eq!((text, vector, limit), ("words", &q[..], 7));
            assert!(filter.is_none());
        }
        _ => panic!("expected a fused query"),
    }
}

#[test]
fn searches_by_text_need_one() {
    let q = scalars(vec![1.0]);
    let mut request = SearchRequest::bm25(&q, "words", 5);
    request.query_text = None;
    let reason = |r: Result<(LanceQuery<'_>, ScoreColumn), TurboError>| match r {
        Err(e) => e.message(),
        Ok(_) => String::new(),
    };
    assert_eq!(reason(plan_search(&request)), "store error: BM25 search requires query_text");
    let mut request = SearchRequest::hybrid(&q, "words", 5, 60);
    request.query_text = None;
    assert_eq!(reason(plan_search(&request)), "store error: Hybrid search requires query_text");
}

#[test]
fn rows_are_picked_by_identifier() {
    assert_eq!(id_predicate(42), "id = 42");
    assert_eq!(id_predicate(0), "id = 0");
}

#[test]
fn filters_are_handed_on_to_the_store() {
    let q = scalars(vec![0.5; 4]);
    let mut requests = vec![
        SearchRequest::vector(&q, 5),
        SearchRequest::bm25(&q, "words", 5),
        SearchRequest::hybrid(&q, "words", 5, 60),
    ];
    for request in requests.iter_mut() {
        request.filter = Some(MetadataFilter { column: "category".into(), value: "ai".into() });
        let handed_on = match plan_search(request).unwrap().0 {
            LanceQuery::Nearest { filter, .. } => filter,
            LanceQuery::FullText { filter, .. } => filter,
            LanceQuery::Fused { filter, .. } => filter,
        };
        let handed_on = handed_on.expect("the filter is lost");
        assert_eq!((handed_on.column.as_str(), handed_on.value.as_str()), ("category", "ai"));
        assert_eq!(filter_predicate(handed_on), "category = 'ai'");
    }
}

#[test]
fn quotes_in_filter_values_are_doubled() {
    let predicate = |value: &str| {
        filter_predicate(&MetadataFilter { column: "name".into(), value: value.into() })
    };
    assert_eq!(predicate("O'Neill"), "name = 'O''Neill'");
    assert_eq!(predicate("'"), "name = ''''");
    assert_eq!(predicate(""), "name = ''");
    assert_ne!(predicate("a'b"), predicate("a''b"));
}

#[test]
fn written_documents_are_read_back_with_their_vectors() {
    let store = LanceDbStore::new("t", 16);
    let docs = make_docs(5, 16);
    let rows = store.upsert_rows(&docs).unwrap().unwrap();
    let tail = Batch { inner: rows.inner.slice(3, 2) };
    let read = read_documents(&[rows, tail]).unwrap();
    assert_eq!(read.len(), 7);
    for (i, doc) in read.iter().enumerate() {
        let original = &docs[if i < 5 { i } else { i - 2 }];
        assert_eq!((doc.id, &doc.text), (original.id, &original.text));
        assert_eq!(doc.embedding, original.embedding);
        assert!(doc.metadata.is_empty());
    }
    assert!(read_documents(&[]).unwrap().is_empty());
    assert!(store.upsert_rows(&[]).unwrap().is_none());
}

#[test]
fn documents_cannot_be_read_without_vectors() {
    let plain = batch(vec![1], vec!["one"], None);
    assert_eq!(
        read_documents(&[plain]).unwrap_err().message(),
        "store error: missing embedding column"
    );
    let numbers = batch(vec![1], vec!["one"], Some(("embedding", vec![0.5])));
    assert_eq!(
        read_documents(&[numbers]).unwrap_err().message(),
        "store error: missing embedding column"
    );
}

#[test]
fn answers_hold_each_identifier_once() {
    let rows = batch(
        vec![1, 2, 1, 3, 2],
        vec!["a", "b", "c", "d", "e"],
        Some(("_score", vec![0.5, 0.25, 0.75, 0.125, 0.0625])),
    );
    let found = collect_results(&[rows], 10, ScoreColumn::Bm25, &[None]).unwrap();
    let ids: Vec<u64> = found.iter().map(|d| d.id).collect();
    assert_eq!(ids, vec![1, 2, 3]);
    assert_eq!(found[0].text, "c");
    assert_eq!(found[1].text, "b");
}

#[test]
fn fused_searches_have_the_constant_of_the_request() {
    let q = scalars(vec![0.5; 4]);
    assert_eq!(fusion_constant(&SearchRequest::hybrid(&q, "words", 5, 60)), Some(60));
    assert_eq!(fusion_constant(&SearchRequest::hybrid(&q, "words", 5, 1)), Some(1));
    assert_eq!(fusion_constant(&SearchRequest::vector(&q, 5)), None);
    assert_eq!(fusion_constant(&SearchRequest::bm25(&q, "words", 5)), None);
}

#[test]
fn large_tables_get_an_index() {
    assert!(!wants_vector_index(0));
    assert!(!wants_vector_index(10_000));
    assert!(wants_vector_index(10_001));
}

#[test]
fn nothing_better_is_left_out_of_an_answer() {
    let rows = batch(
        vec![1, 2, 3, 4],
        vec!["a", "b", "c", "d"],
        Some(("_score", vec![0.25, 0.75, 0.5, 0.5])),
    );
    let found = collect_results(&[rows], 2, ScoreColumn::Bm25, &[None]).unwrap();
    let ids: Vec<u64> = found.iter().map(|d| d.id).collect();
    assert_eq!(ids, vec![2, 3]);
}
