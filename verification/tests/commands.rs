use std::collections::HashMap;
use turbo_rag::backend::{
    build_blob, build_embedder, build_store, search_mode, BlobChoice, Embedder,
};
use turbo_rag::commands::{
    bench_corpus, blob_probe, directory_status, embedding_detail, embedding_probe,
    generate_synthetic_docs, health_row, http_status, ingest_config, is_blank, lance_probe,
    load_jsonl, metrics_port, pad_right, parse_scales, percentiles, query_config, query_request,
    resolve, snippet, split_at_commas, Probe, RawDoc, RawId, RawLine,
};
use turbo_rag::config::{load, load_or_default, settings, variable_name, AppConfig};
use turbo_rag::embedder::LocalModel;
use turbo_rag::error::TurboError;
use turbo_rag::request::{SearchMode, SearchType};
use turbo_rag::scalar::Scalar;

fn raw(id: RawId, beir_id: Option<&str>, title: Option<&str>, text: &str) -> RawDoc {
    RawDoc {
        id,
        beir_id: beir_id.map(|s| s.to_string()),
        title: title.map(|s| s.to_string()),
        text: text.to_string(),
        metadata: HashMap::new(),
    }
}

fn read(line: &str, parsed: Result<RawDoc, &str>) -> RawLine {
    RawLine::Read { line: line.to_string(), parsed: parsed.map_err(|e| e.to_string()) }
}

#[test]
fn settings_where_nothing_is_set() {
    let c = AppConfig::default();
    assert_eq!(c.embedding.backend, "openai-compat");
    assert_eq!(c.embedding.base_url, "http://localhost:11434/v1");
    assert_eq!(c.embedding.api_key, None);
    assert_eq!(c.embedding.model, "nomic-embed-text");
    assert_eq!(c.embedding.dim, 768);
    assert_eq!(c.blob.backend, "local");
    assert_eq!(c.blob.local_path, "./data/blob");
    assert_eq!(c.blob.bucket, "turbo-rag-dev");
    assert_eq!(c.lance.uri, "./data/lance");
    assert_eq!(c.pipeline.batch_size, 64);
    assert_eq!(c.pipeline.turbovec_bits, 4);
    assert_eq!(c.pipeline.load_strategy, "from-blob");
    assert_eq!(c.search.mode, "auto");
}

#[test]
fn settings_come_from_the_sources() {
    let mut set = AppConfig::default();
    set.search.mode = "cold".into();
    assert_eq!(load(Ok(Some(set.clone()))).unwrap().search.mode, "cold");
    assert_eq!(load(Ok(None)).unwrap().search.mode, "auto");
    let err = load(Err("bad file".into())).unwrap_err();
    assert!(matches!(err, TurboError::Other(reason) if reason == "bad file"));
    assert_eq!(load_or_default(Err("bad file".into())).embedding.dim, 768);
    assert_eq!(load_or_default(Ok(Some(set))).search.mode, "cold");
}

#[test]
fn embedders_by_name() {
    let mut c = AppConfig::default();
    c.embedding.base_url = "http://x/v1/".into();
    c.embedding.api_key = Some("k".into());
    match build_embedder(&c).unwrap() {
        Embedder::OpenAICompat(b) => {
            assert_eq!(b.base_url(), "http://x/v1");
            assert_eq!(b.api_key().as_deref(), Some("k"));
            assert_eq!((b.model_name(), b.dim()), ("nomic-embed-text", 768));
        }
        _ => panic!("expected the HTTP embedder"),
    }
    c.embedding.backend = "fastembed".into();
    c.embedding.dim = 384;
    assert!(matches!(build_embedder(&c), Ok(Embedder::Local(LocalModel::BgeSmallEn))));
    c.embedding.backend = "synthetic".into();
    assert!(matches!(build_embedder(&c), Ok(Embedder::Synthetic(s)) if s.dim() == 384));
    c.embedding.backend = "mock".into();
    assert!(matches!(build_embedder(&c), Ok(Embedder::Mock(m)) if m.dim() == 384));
    c.embedding.backend = "gpu".into();
    match build_embedder(&c) {
        Err(e) => assert_eq!(
            e.message(),
            "unknown embedding backend: 'gpu' (valid: fastembed, openai-compat, synthetic)"
        ),
        Ok(_) => panic!("expected an error"),
    }
}

#[test]
fn blob_stores_by_name() {
    let mut c = AppConfig::default();
    assert!(matches!(build_blob(&c), Ok(BlobChoice::Local(b)) if b.base_dir == "./data/blob"));
    c.blob.backend = "s3".into();
    assert!(matches!(build_blob(&c), Ok(BlobChoice::S3(bucket)) if bucket == "turbo-rag-dev"));
    c.blob.backend = "tape".into();
    match build_blob(&c) {
        Err(e) => assert_eq!(e.message(), "unknown blob backend: 'tape' (valid: local, s3)"),
        Ok(_) => panic!("expected an error"),
    }
    assert!(matches!(build_store(&c), Err(TurboError::Other(_))));
}

#[test]
fn search_modes_by_name() {
    let mut c = AppConfig::default();
    let names = [
        ("hot", SearchMode::Hot),
        ("cold", SearchMode::Cold),
        ("race", SearchMode::Race),
        ("federated", SearchMode::Federated(64)),
        ("auto", SearchMode::Auto),
        ("anything", SearchMode::Auto),
    ];
    for (name, mode) in names {
        c.search.mode = name.into();
        assert_eq!(search_mode(&c), mode, "{name}");
    }
}

#[test]
fn stores_as_configured() {
    let mut c = AppConfig::default();
    let plan = build_store(&c).unwrap();
    assert_eq!(plan.store.hot.index_key(), "turbovec/main/index.tq");
    assert_eq!(plan.store.hot.settled(), Some(768));
    assert!(!plan.store.hot.is_warm());
    assert_eq!(plan.store.mode, SearchMode::Auto);
    assert_eq!((plan.cold.table_name.as_str(), plan.cold.dim), ("docs", 768));
    assert!(plan.load_from_blob);
    c.pipeline.load_strategy = "lazy".into();
    let plan = build_store(&c).unwrap();
    assert!(!plan.load_from_blob && !plan.rebuild_from_cold);
    c.pipeline.load_strategy = "rebuild-from-lance".into();
    let plan = build_store(&c).unwrap();
    assert!(!plan.load_from_blob && plan.rebuild_from_cold);
}

#[test]
fn ingesting_starts_afresh() {
    let c = ingest_config(AppConfig::default(), 32, 2);
    assert_eq!(c.pipeline.batch_size, 32);
    assert_eq!(c.pipeline.turbovec_bits, 2);
    assert_eq!(c.pipeline.load_strategy, "lazy");
    assert_eq!(c.search.mode, "auto");
    let q = query_config(AppConfig::default(), "federated");
    assert_eq!(q.search.mode, "federated");
    assert_eq!(q.pipeline.load_strategy, "from-blob");
}

#[test]
fn queries_by_kind() {
    let v = vec![Scalar { bits: 0 }];
    let r = query_request("bm25", &v, "words", 5);
    assert_eq!((r.search_type, r.query_text, r.k), (SearchType::Bm25, Some("words"), 5));
    let r = query_request("hybrid", &v, "words", 5);
    assert_eq!(r.search_type, SearchType::Hybrid { rrf_k: 60 });
    assert_eq!(r.query_text, Some("words"));
    let r = query_request("vector", &v, "words", 5);
    assert_eq!((r.search_type, r.query_text), (SearchType::Vector, None));
    assert_eq!(query_request("x", &v, "w", 1).search_type, SearchType::Vector);
    assert!(r.filter.is_none());
}

#[test]
fn snippets_are_cut_at_55_bytes() {
    let long = "x".repeat(80);
    assert_eq!(snippet(&long), "x".repeat(55));
    assert_eq!(snippet(&"x".repeat(55)), "x".repeat(55));
    assert_eq!(snippet("short é"), "short é");
    let wide = format!("{}é and more", "x".repeat(53));
    assert_eq!(snippet(&wide), format!("{}é", "x".repeat(53)));
}

#[test]
fn scales_are_read_from_a_list() {
    assert_eq!(parse_scales("10000"), vec![10000]);
    assert_eq!(parse_scales(" 10, 20 ,x,,-3,+4"), vec![10, 20, 4]);
    assert_eq!(parse_scales(""), Vec::<usize>::new());
    assert_eq!(split_at_commas("a,,b,"), vec!["a", "", "b", ""]);
    assert_eq!(split_at_commas(""), vec![""]);
}

#[test]
fn made_up_documents() {
    let docs = generate_synthetic_docs(12, 768);
    assert_eq!(docs.len(), 12);
    assert_eq!(docs[11].id, 11);
    assert_eq!(docs[11].text, "synthetic document 11 for benchmarking");
    assert!(docs[11].metadata.is_empty());
    assert_eq!(bench_corpus(None, 3, 768).len(), 3);
    let first = bench_corpus(Some(generate_synthetic_docs(5, 1)), 2, 768);
    assert_eq!(first.iter().map(|d| d.id).collect::<Vec<_>>(), vec![0, 1]);
    assert_eq!(bench_corpus(Some(generate_synthetic_docs(5, 1)), 9, 768).len(), 5);
}

#[test]
fn percentiles_of_samples() {
    let mut samples: Vec<u128> = (0..200).rev().collect();
    assert_eq!(percentiles(&mut samples), (100, 198));
    assert_eq!(samples, (0..200).collect::<Vec<u128>>());
    assert_eq!(percentiles(&mut vec![7]), (7, 7));
    assert_eq!(percentiles(&mut vec![9, 3, 3]), (3, 9));
}

#[test]
fn percentiles_do_not_depend_on_the_order_of_samples() {
    let mut one: Vec<u128> = vec![5, 1, 4, 1, 3];
    let mut other: Vec<u128> = vec![1, 1, 3, 5, 4];
    assert_eq!(percentiles(&mut one), percentiles(&mut other));
    assert_eq!(one, other);
    assert_eq!(one, vec![1, 1, 3, 4, 5]);
}

#[test]
fn second_identifiers_come_before_line_numbers() {
    let line = read("{..}", Ok(raw(RawId::Text("abc".into()), Some("42"), None, "t")));
    let docs = load_jsonl(vec![line]).unwrap();
    assert_eq!(docs.len(), 1);
    assert_eq!(docs[0].id, 42);
}

#[test]
fn identifiers_of_corpus_lines() {
    let id = |raw_id, beir| resolve(raw(raw_id, beir, None, "t"), 4).id;
    assert_eq!(id(RawId::Number(Some(17)), Some("9")), 17);
    assert_eq!(id(RawId::Number(None), Some("9")), 9);
    assert_eq!(id(RawId::Number(None), None), 4);
    assert_eq!(id(RawId::Text("23".into()), Some("9")), 23);
    assert_eq!(id(RawId::Text("abc".into()), Some("42")), 42);
    assert_eq!(id(RawId::Text("abc".into()), Some("x")), 4);
    assert_eq!(id(RawId::Text("abc".into()), None), 4);
    assert_eq!(id(RawId::Other, Some("4983")), 4983);
    assert_eq!(id(RawId::Other, Some("abc")), 4);
    assert_eq!(id(RawId::Other, None), 4);
}

#[test]
fn titles_stand_before_the_text() {
    let text = |title| resolve(raw(RawId::Other, None, title, "body"), 0).text;
    assert_eq!(text(Some("Title")), "Title. body");
    assert_eq!(text(Some("")), "body");
    assert_eq!(text(None), "body");
}

#[test]
fn corpus_files_are_read_line_by_line() {
    let lines = vec![
        read("{..}", Ok(raw(RawId::Number(Some(1)), None, None, "a"))),
        read("   ", Err("not an object")),
        read("{..}", Ok(raw(RawId::Other, None, Some("T"), "b"))),
    ];
    let docs = load_jsonl(lines).unwrap();
    assert_eq!(docs.len(), 2);
    assert_eq!((docs[0].id, docs[0].text.as_str()), (1, "a"));
    assert_eq!((docs[1].id, docs[1].text.as_str()), (2, "T. b"));
    assert!(load_jsonl(vec![]).unwrap().is_empty());
    assert!(is_blank(" \t"));
    assert!(!is_blank(" x "));
}

#[test]
fn the_first_faulty_line_ends_the_reading() {
    let good = || read("{..}", Ok(raw(RawId::Other, None, None, "a")));
    let err = load_jsonl(vec![good(), read("junk", Err("expected value")), good()]).unwrap_err();
    assert_eq!(err.message(), "line 2: expected value");
    let err = load_jsonl(vec![
        good(),
        RawLine::Unreadable("bad bytes".into()),
        read("junk", Err("x")),
    ])
    .unwrap_err();
    assert_eq!(err.message(), "bad bytes");
}

#[test]
fn probes_of_the_parts() {
    let mut c = AppConfig::default();
    assert!(matches!(embedding_probe(&c), Probe::Get(u) if u == "http://localhost:11434/v1/models"));
    for name in ["fastembed", "synthetic", "mock"] {
        c.embedding.backend = name.into();
        assert!(matches!(embedding_probe(&c), Probe::Fine(t) if t == "local (no network)"));
    }
    c.embedding.backend = "gpu".into();
    assert!(matches!(embedding_probe(&c), Probe::Failed(t) if t == "unknown backend: gpu"));
    assert_eq!(embedding_detail(&c), "gpu / nomic-embed-text");

    assert!(matches!(blob_probe(&c, None), Probe::MakeDir(p) if p == "./data/blob"));
    c.blob.backend = "s3".into();
    assert!(matches!(blob_probe(&c, None), Probe::Get(u) if u == "https://s3.amazonaws.com"));
    assert!(matches!(blob_probe(&c, Some("http://minio".into())), Probe::Get(u) if u == "http://minio"));
    c.blob.backend = "tape".into();
    assert!(matches!(blob_probe(&c, None), Probe::Failed(t) if t == "unknown backend: tape"));

    assert!(matches!(lance_probe(&c), Probe::MakeDir(p) if p == "./data/lance"));
    c.lance.uri = "s3://bucket/lance".into();
    assert!(matches!(lance_probe(&c), Probe::Fine(t) if t == "s3-native (verified with blob)"));
}

#[test]
fn reports_on_the_parts() {
    assert_eq!(directory_status("./d", Ok(())), Ok("path: ./d".to_string()));
    assert_eq!(directory_status("./d", Err("denied".into())), Err("denied".to_string()));
    assert_eq!(http_status(Ok("200 OK".into())), Ok("HTTP 200 OK".to_string()));
    assert_eq!(http_status(Err("refused".into())), Err("refused".to_string()));
    assert_eq!(pad_right("é", 3), "é  ");
    assert_eq!(pad_right("long", 3), "long");
    let (component, detail, msg) = ("blob", "local", "path: x");
    assert_eq!(
        health_row(component, detail, &Ok(msg.to_string())),
        format!("  ✓ {component:<12} {detail:<36} {msg}")
    );
    assert_eq!(
        health_row(component, detail, &Err(msg.to_string())),
        format!("  ✗ {component:<12} {detail:<36} ERROR: {msg}")
    );
}

#[test]
fn the_metrics_port_falls_back() {
    assert_eq!(metrics_port(None), 9091);
    assert_eq!(metrics_port(Some("8000".into())), 8000);
    assert_eq!(metrics_port(Some("65536".into())), 9091);
    assert_eq!(metrics_port(Some("x".into())), 9091);
}

#[test]
fn variables_that_override_settings() {
    assert_eq!(variable_name("embedding.base_url"), "EMBEDDING_BASE_URL");
    assert_eq!(variable_name("lance.uri"), "LANCE_URI");
    assert_eq!(variable_name("az.AZ_09-é"), "AZ_AZ_09-é");
    assert_eq!(variable_name(""), "");
    let names: Vec<String> = settings().into_iter().map(variable_name).collect();
    assert_eq!(names.len(), 13);
    assert!(names.contains(&"SEARCH_MODE".to_string()));
    assert!(names.contains(&"BLOB_LOCAL_PATH".to_string()));
    let distinct: std::collections::HashSet<&String> = names.iter().collect();
    assert_eq!(distinct.len(), 13);
}
