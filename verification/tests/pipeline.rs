use std::collections::HashMap;
use turbo_rag::document::{Document, EmbeddedDoc};
use turbo_rag::embedder::MockEmbedder;
use turbo_rag::error::TurboError;
use turbo_rag::lance_store::{collect_results, LanceDbStore, ScoreColumn};
use turbo_rag::pipeline::{
    batch_texts, embedded_batch, IngestionPipeline, PipelineStats, StoreRun,
};
use turbo_rag::scalar::Scalar;
use turbo_rag::turbovec_store::TurboVecStore;

fn make_docs(n: usize) -> Vec<Document> {
    (0..n as u64)
        .map(|i| Document {
            id: i,
            text: format!("  document number {i}  "),
            metadata: HashMap::new(),
        })
        .collect()
}

/// Takes documents in, one request at a time.
fn run(
    pipeline: &IngestionPipeline,
    embedder: &MockEmbedder,
    docs: Vec<Document>,
    mut upsert: impl FnMut(&[EmbeddedDoc]) -> Result<(), TurboError>,
) -> Result<PipelineStats, TurboError> {
    let total = docs.len();
    let mut embedded = Vec::new();
    for batch in pipeline.plan(docs)? {
        let texts = batch_texts(&batch);
        embedded.push(embedded_batch(batch, embedder.embed_batch(&texts)));
    }
    let mut run = StoreRun::new(embedded);
    let mut outcome = Ok(());
    while let Some(batch) = run.step(outcome)? {
        outcome = upsert(&batch);
    }
    Ok(pipeline.stats(total, embedder.dim()))
}

fn run_into(
    pipeline: &IngestionPipeline,
    embedder: &MockEmbedder,
    docs: Vec<Document>,
    store: &mut TurboVecStore,
) -> Result<PipelineStats, TurboError> {
    run(pipeline, embedder, docs, |batch| store.upsert(batch))
}

#[test]
fn pipeline_processes_all_docs() {
    let dim = 64;
    let embedder = MockEmbedder::new(dim);
    let mut store = TurboVecStore::new_in_memory("test", dim, 4);
    let pipeline = IngestionPipeline::new(8);
    let stats = run_into(&pipeline, &embedder, make_docs(50), &mut store).unwrap();
    assert_eq!(stats.total_docs, 50);
    assert_eq!(store.doc_count().unwrap(), 50);
}

#[test]
fn pipeline_batch_boundary_correctness() {
    let dim = 32;
    let embedder = MockEmbedder::new(dim);
    let mut store = TurboVecStore::new_in_memory("test", dim, 4);
    let pipeline = IngestionPipeline::new(7);
    let stats = run_into(&pipeline, &embedder, make_docs(20), &mut store).unwrap();
    assert_eq!(stats.total_docs, 20);
    assert_eq!(store.doc_count().unwrap(), 20);
}

#[test]
fn pipeline_empty_input_returns_error() {
    let embedder = MockEmbedder::new(64);
    let mut store = TurboVecStore::new_in_memory("test", 64, 4);
    let pipeline = IngestionPipeline::new(32);
    let r = run_into(&pipeline, &embedder, vec![], &mut store);
    assert!(r.is_err());
    assert_eq!(r.unwrap_err().message(), "pipeline error: no documents to ingest");
}

#[test]
fn pipeline_concurrency_does_not_change_result() {
    let dim = 32;
    let embedder = MockEmbedder::new(dim);
    let mut store = TurboVecStore::new_in_memory("test", dim, 4);
    let pipeline = IngestionPipeline::new(16).with_concurrency(2);
    assert_eq!(pipeline.concurrency, 2);
    let stats = run_into(&pipeline, &embedder, make_docs(100), &mut store).unwrap();
    assert_eq!(stats.total_docs, 100);
    assert_eq!(store.doc_count().unwrap(), 100);
}

#[test]
fn pipeline_stats_compression_ratio() {
    let dim = 768;
    let embedder = MockEmbedder::new(dim);
    let mut store = TurboVecStore::new_in_memory("test", dim, 4);
    let pipeline = IngestionPipeline::new(10).with_bits(4);
    let stats = run_into(&pipeline, &embedder, make_docs(5), &mut store).unwrap();
    let ratio = stats.compression_ratio.original as f32 / stats.compression_ratio.compressed as f32;
    assert!((ratio - 8.0).abs() < 0.01);
    assert_eq!(stats.original_bytes, 5 * 768 * 4);
}

#[test]
fn pipeline_text_trimmed() {
    let dim = 16;
    let embedder = MockEmbedder::new(dim);
    let lance = LanceDbStore::new("docs", dim);
    let mut batches = Vec::new();
    let pipeline = IngestionPipeline::new(10);
    run(&pipeline, &embedder, make_docs(3), |docs| {
        batches.push(lance.make_batch(docs)?);
        Ok(())
    })
    .unwrap();
    let results = collect_results(&batches, 3, ScoreColumn::Rank, &[None]).unwrap();
    assert_eq!(results.len(), 3);
    for r in &results {
        assert!(!r.text.starts_with(' '), "text should be trimmed: '{}'", r.text);
        assert!(!r.text.ends_with(' '), "text should be trimmed: '{}'", r.text);
    }
    assert_eq!(results[1].text, "document number 1");
}

#[test]
fn batches_hold_the_documents_in_order() {
    let mut docs = make_docs(20);
    docs[13].metadata.insert("k".into(), "v".into());
    let batches = IngestionPipeline::new(7).plan(docs).unwrap();
    let sizes: Vec<usize> = batches.iter().map(|b| b.len()).collect();
    assert_eq!(sizes, vec![7, 7, 6]);
    let ids: Vec<u64> = batches.iter().flatten().map(|d| d.id).collect();
    assert_eq!(ids, (0..20).collect::<Vec<u64>>());
    assert_eq!(batches[1][6].metadata["k"], "v");
    let even = IngestionPipeline::new(10).plan(make_docs(20)).unwrap();
    assert_eq!(even.len(), 2);
    assert_eq!(IngestionPipeline::new(50).plan(make_docs(20)).unwrap().len(), 1);
}

#[test]
fn as_many_batches_as_it_takes() {
    let batches = IngestionPipeline::new(64).plan(make_docs(5183)).unwrap();
    assert_eq!(batches.len(), 81);
    assert_eq!(batches[80].len(), 63);
}

#[test]
fn defaults_of_the_pipeline() {
    let pipeline = IngestionPipeline::new(3);
    assert_eq!((pipeline.batch_size, pipeline.concurrency, pipeline.bits), (3, 4, 4));
    let pipeline = pipeline.with_bits(2).with_concurrency(9);
    assert_eq!((pipeline.batch_size, pipeline.concurrency, pipeline.bits), (3, 9, 2));
}

#[test]
fn vectors_are_paired_with_documents() {
    let s = |x: f32| vec![Scalar { bits: x.to_bits() }];
    let docs = embedded_batch(make_docs(3), Ok(vec![s(0.0), s(1.0), s(2.0), s(3.0)])).unwrap();
    let got: Vec<(u64, Vec<Scalar>)> = docs.into_iter().map(|d| (d.id, d.embedding)).collect();
    assert_eq!(got, vec![(0, s(0.0)), (1, s(1.0)), (2, s(2.0))]);
    assert_eq!(embedded_batch(make_docs(3), Ok(vec![s(5.0)])).unwrap().len(), 1);
    assert!(matches!(
        embedded_batch(make_docs(3), Err(TurboError::Embedding("down".into()))),
        Err(TurboError::Embedding(_))
    ));
}

#[test]
fn errors_end_the_run_when_their_turn_comes() {
    let batches = vec![
        embedded_batch(make_docs(1), Ok(vec![vec![]])),
        Err(TurboError::Embedding("down".into())),
        embedded_batch(make_docs(1), Ok(vec![vec![]])),
    ];
    let mut run = StoreRun::new(batches);
    assert_eq!(run.step(Ok(())).unwrap().unwrap().len(), 1);
    let err = run.step(Ok(())).unwrap_err();
    assert_eq!(err.message(), "pipeline error: embedding error: down");

    let mut run = StoreRun::new(vec![embedded_batch(make_docs(1), Ok(vec![vec![]]))]);
    assert!(run.step(Ok(())).unwrap().is_some());
    let err = run.step(Err(TurboError::Store("full".into()))).unwrap_err();
    assert_eq!(err.message(), "pipeline error: store error: full");

    let mut run = StoreRun::new(vec![]);
    assert!(run.step(Ok(())).unwrap().is_none());
}
