use turbo_rag::embedder::{
    single_embedding, LocalModel, MockEmbedder, OpenAICompatBackend, SyntheticEmbedder,
};
use turbo_rag::error::TurboError;
use turbo_rag::scalar::Scalar;

fn scalar(x: f32) -> Scalar {
    Scalar { bits: x.to_bits() }
}

#[test]
fn correct_dim_single() {
    let m = MockEmbedder::new(768);
    let vecs = m.embed_batch(&["hello".to_string()]).unwrap();
    assert_eq!(vecs.len(), 1);
    assert_eq!(vecs[0].len(), 768);
}

#[test]
fn batch_count_matches_input() {
    let m = MockEmbedder::new(128);
    let texts: Vec<String> = (0..47).map(|i| format!("doc {i}")).collect();
    let vecs = m.embed_batch(&texts).unwrap();
    assert_eq!(vecs.len(), 47);
}

#[test]
fn fill_value_respected() {
    let m = MockEmbedder::with_value(32, scalar(0.42));
    let vecs = m.embed_batch(&["x".to_string()]).unwrap();
    assert!(vecs[0].iter().all(|&v| (f32::from_bits(v.bits) - 0.42).abs() < 1e-6));
}

#[test]
fn embed_one_shortcut() {
    let m = MockEmbedder::new(64);
    let v = m.embed_one("single text").unwrap();
    assert_eq!(v.len(), 64);
}

#[test]
fn batch_split_100_docs_at_batch32() {
    let m = MockEmbedder::new(16);
    let texts: Vec<String> = (0..100).map(|i| format!("t{i}")).collect();
    let result = m.embed_batch(&texts).unwrap();
    assert_eq!(result.len(), 100);
    assert!(result.iter().all(|v| v.len() == 16));
}

#[test]
fn dim_accessor() {
    assert_eq!(MockEmbedder::new(384).dim(), 384);
    assert_eq!(MockEmbedder::new(1536).dim(), 1536);
}

#[test]
fn default_fill_value_is_a_tenth() {
    assert_eq!(MockEmbedder::new(1).fill_value.bits, 0.1f32.to_bits());
    assert_eq!(MockEmbedder::new(1).model_name(), "mock-embed");
}

#[test]
fn synthetic_embedder_is_described() {
    let e = SyntheticEmbedder::new(1536);
    assert_eq!(e.dim(), 1536);
    assert_eq!(e.model_name(), "synthetic");
}

#[test]
fn a_single_embedding_is_the_last_of_the_batch() {
    let batch = vec![vec![scalar(1.0)], vec![scalar(2.0)]];
    assert_eq!(single_embedding(batch).unwrap(), vec![scalar(2.0)]);
    let err = single_embedding(vec![]).unwrap_err();
    assert_eq!(err.message(), "embedding error: empty embedding response");
}

#[test]
fn endpoint_addresses_lose_their_trailing_slashes() {
    let b = OpenAICompatBackend::new("http://localhost:8080/v1//", None, "mock-embed", 768);
    assert_eq!(b.base_url(), "http://localhost:8080/v1");
    assert_eq!(b.embeddings_url(), "http://localhost:8080/v1/embeddings");
    assert_eq!(b.model_name(), "mock-embed");
    assert_eq!(b.dim(), 768);
    assert!(b.api_key().is_none());
    assert_eq!(OpenAICompatBackend::new("///", None, "m", 1).base_url(), "");
    let keyed = OpenAICompatBackend::new("http://x", Some("k".into()), "m", 1);
    assert_eq!(keyed.api_key().as_deref(), Some("k"));
}

#[test]
fn ollama_runs_on_this_machine() {
    let b = OpenAICompatBackend::ollama("nomic-embed-text", 768);
    assert_eq!(b.base_url(), "http://localhost:11434/v1");
    assert!(b.api_key().is_none());
    assert_eq!(b.model_name(), "nomic-embed-text");
}

#[test]
fn an_empty_response_is_refused() {
    let b = OpenAICompatBackend::ollama("m", 2);
    let one = vec![vec![scalar(0.5), scalar(1.0)]];
    assert_eq!(b.accept(one.clone()).unwrap(), one);
    let err = b.accept(vec![]).unwrap_err();
    assert!(matches!(err, TurboError::Embedding(_)));
    assert_eq!(err.message(), "embedding error: empty embeddings in response");
}

#[test]
fn local_models_by_dimension() {
    assert_eq!(LocalModel::for_dim(1024), LocalModel::MxbaiLarge);
    assert_eq!(LocalModel::for_dim(384), LocalModel::BgeSmallEn);
    assert_eq!(LocalModel::for_dim(768), LocalModel::BgeBaseEn);
    assert_eq!(LocalModel::for_dim(5), LocalModel::BgeBaseEn);
    for model in [LocalModel::MxbaiLarge, LocalModel::BgeSmallEn, LocalModel::BgeBaseEn] {
        assert_eq!(LocalModel::for_dim(model.dim()), model);
    }
    assert_eq!(LocalModel::MxbaiLarge.model_name(), "MxbaiEmbedLargeV1");
    assert_eq!(LocalModel::BgeSmallEn.model_name(), "BGESmallENV15");
    assert_eq!(LocalModel::BgeBaseEn.model_name(), "BGEBaseENV15");
}
