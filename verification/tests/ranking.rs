use std::collections::HashMap;
use turbo_rag::document::{ScoredDoc, SearchSource};
use turbo_rag::ranking::{keep_best_per_id, keep_first_per_id, merge_results, sort_by_score};
use turbo_rag::scalar::Scalar;

fn doc(id: u64, score: f32, text: &str) -> ScoredDoc {
    ScoredDoc {
        id,
        text: text.to_string(),
        score: Scalar { bits: score.to_bits() },
        source: SearchSource::LanceDb,
        metadata: HashMap::new(),
    }
}

fn ids(docs: &[ScoredDoc]) -> Vec<u64> {
    docs.iter().map(|d| d.id).collect()
}

#[test]
fn sorting_is_descending_and_stable() {
    let docs = vec![
        doc(1, 0.5, "a"),
        doc(2, 0.9, "b"),
        doc(3, 0.5, "c"),
        doc(4, -1.0, "d"),
        doc(5, 0.9, "e"),
        doc(6, 0.0, "f"),
        doc(7, -0.0, "g"),
    ];
    assert_eq!(ids(&sort_by_score(docs)), vec![2, 5, 1, 3, 6, 7, 4]);
    assert!(sort_by_score(vec![]).is_empty());
}

#[test]
fn scores_that_are_no_numbers_lose_nothing() {
    let docs = vec![doc(1, f32::NAN, "a"), doc(2, 1.0, "b"), doc(3, f32::NAN, "c"), doc(4, 2.0, "d")];
    let mut kept = ids(&sort_by_score(docs));
    kept.sort();
    assert_eq!(kept, vec![1, 2, 3, 4]);
}

#[test]
fn the_first_of_an_identifier_stays() {
    let docs = vec![doc(1, 0.1, "a"), doc(2, 0.2, "b"), doc(1, 0.9, "c"), doc(2, 0.2, "d")];
    let kept = keep_first_per_id(docs);
    assert_eq!(ids(&kept), vec![1, 2]);
    assert_eq!(kept[0].text, "a");
}

#[test]
fn the_best_of_an_identifier_stays_in_the_first_place() {
    let docs = vec![
        doc(1, 0.1, "a"),
        doc(2, 0.2, "b"),
        doc(1, 0.9, "c"),
        doc(1, 0.9, "d"),
        doc(2, 0.1, "e"),
    ];
    let kept = keep_best_per_id(docs);
    assert_eq!(ids(&kept), vec![1, 2]);
    assert_eq!(kept[0].text, "c");
    assert_eq!(kept[1].text, "b");
}

#[test]
fn merging_ranks_deduplicates_and_cuts() {
    let hot = vec![doc(1, 0.9, "hot"), doc(2, 0.5, "hot"), doc(3, 0.4, "hot")];
    let cold = vec![doc(2, 0.8, "cold"), doc(1, 0.9, "cold"), doc(4, 0.1, "cold")];
    let merged = merge_results(hot.clone(), cold.clone(), 3);
    assert_eq!(ids(&merged), vec![1, 2, 3]);
    assert_eq!(merged[0].text, "hot", "equal scores: the hot tier comes first");
    assert_eq!(merged[1].text, "cold", "the better score wins");
    assert_eq!(ids(&merge_results(hot.clone(), cold.clone(), 10)), vec![1, 2, 3, 4]);
    assert!(merge_results(hot, cold, 0).is_empty());
}
