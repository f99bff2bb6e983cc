use bytes::Bytes;
use turbo_rag::error::TurboError;
use turbo_rag::quantized::QuantizedIndex;
use turbo_rag::scalar::Scalar;

fn scalars(v: Vec<f32>) -> Vec<Scalar> {
    v.into_iter().map(|x| Scalar { bits: x.to_bits() }).collect()
}

/// Distinct unit vector per id: varying angles keep the vectors apart.
fn unit_vec_for_id(id: usize, dim: usize) -> Vec<Scalar> {
    let pi = std::f32::consts::PI;
    let offset = id as f32 * pi / 8.0;
    let v: Vec<f32> = (0..dim).map(|i| (i as f32 * pi / dim as f32 + offset).sin()).collect();
    let norm: f32 = v.iter().map(|x| x * x).sum::<f32>().sqrt();
    scalars(v.into_iter().map(|x| x / norm).collect())
}

fn filled(n: usize, dim: usize) -> (QuantizedIndex, Vec<Vec<Scalar>>) {
    let mut idx = QuantizedIndex::new(dim, 4);
    let vecs: Vec<Vec<Scalar>> = (0..n).map(|i| unit_vec_for_id(i, dim)).collect();
    let ids: Vec<u64> = (0..n as u64).collect();
    idx.add_batch(&ids, &vecs);
    (idx, vecs)
}

#[test]
fn add_and_search_returns_correct_count() {
    let (idx, vecs) = filled(20, 64);
    let results = idx.search(&vecs[0], 5);
    assert_eq!(results.len(), 5);
}

#[test]
fn top_result_is_self() {
    let (idx, vecs) = filled(50, 128);
    let results = idx.search(&vecs[7], 3);
    assert!(
        results.iter().any(|(id, _)| *id == 7),
        "doc 7 should appear in top-3; got: {results:?}"
    );
}

#[test]
fn idmap_delete_removes_result() {
    let (mut idx, vecs) = filled(10, 64);
    idx.remove(0);
    let results = idx.search(&vecs[0], 10);
    assert!(results.iter().all(|(id, _)| *id != 0), "deleted id should not appear");
    assert_eq!(results.len(), 9);
}

#[test]
fn scores_come_best_first_and_ids_are_known() {
    let (idx, vecs) = filled(30, 64);
    let results = idx.search(&vecs[3], 100);
    assert_eq!(results.len(), 30);
    let scores: Vec<f32> = results.iter().map(|(_, s)| f32::from_bits(s.bits)).collect();
    assert!(scores.windows(2).all(|w| w[0] >= w[1]), "{scores:?}");
    assert!(scores[0] > 0.5, "{scores:?}");
    assert!(results.iter().all(|(id, _)| *id < 30));
}

#[test]
fn several_query_vectors_get_a_row_each() {
    let (idx, vecs) = filled(10, 64);
    let mut query = vecs[2].clone();
    query.extend(vecs[6].iter().copied());
    let results = idx.search(&query, 3);
    assert_eq!(results.len(), 6);
    assert!(results[..3].iter().any(|(id, _)| *id == 2));
    assert!(results[3..].iter().any(|(id, _)| *id == 6));
    assert!(idx.search(&[], 3).is_empty());
}

#[test]
fn refused_vectors_leave_the_index_as_it_was() {
    let (mut idx, vecs) = filled(4, 64);
    idx.add_batch(
        &[2, 10, 11, 12, 13],
        &[
            vecs[3].clone(),
            scalars(vec![0.5; 63]),
            scalars(vec![f32::NAN; 64]),
            scalars(vec![1e16; 64]),
            vecs[1].clone(),
        ],
    );
    let mut ids: Vec<u64> = idx.search(&vecs[0], 100).iter().map(|(id, _)| *id).collect();
    ids.sort();
    assert_eq!(ids, vec![0, 1, 2, 3, 13]);
    let near: Vec<u64> = idx.search(&vecs[2], 1).iter().map(|(id, _)| *id).collect();
    assert_eq!(near, vec![2], "the first vector of an id stays");
}

#[test]
fn an_image_gives_the_index_back() {
    let (idx, vecs) = filled(25, 64);
    let image = idx.to_bytes().unwrap();
    assert!(!image.is_empty());
    let read = QuantizedIndex::from_bytes(image, 64, 4).unwrap();
    assert_eq!(read.dim(), 64);
    assert_eq!(read.bits(), 4);
    assert_eq!(read.settled(), Some(64));
    assert_eq!(read.search(&vecs[9], 5), idx.search(&vecs[9], 5));
}

#[test]
fn a_broken_image_is_an_error() {
    let err = QuantizedIndex::from_bytes(Bytes::from_static(b"no index"), 64, 4);
    match err {
        Err(TurboError::Store(reason)) => assert!(!reason.is_empty()),
        _ => panic!("expected a store error"),
    }
}

#[test]
fn the_shape_is_kept() {
    let idx = QuantizedIndex::new(768, 2);
    assert_eq!((idx.dim(), idx.bits(), idx.settled()), (768, 2, Some(768)));
    assert_eq!(idx.compression_info().ratio.whole(), 16);
}

#[test]
fn no_identifier_comes_twice_in_an_answer() {
    let (idx, vecs) = filled(200, 64);
    let results = idx.search(&vecs[3], 200);
    let ids: std::collections::HashSet<u64> = results.iter().map(|(id, _)| *id).collect();
    assert_eq!(results.len(), 200);
    assert_eq!(ids.len(), 200);
}

#[test]
fn an_index_read_from_its_image_answers_alike() {
    let (mut idx, vecs) = filled(60, 64);
    idx.remove(5);
    let read = QuantizedIndex::from_bytes(idx.to_bytes().unwrap(), 64, 4).unwrap();
    for query in vecs.iter().take(10) {
        assert_eq!(read.search(query, 7), idx.search(query, 7));
    }
}
