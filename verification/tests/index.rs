use std::collections::HashSet;
use tachiom::tachiom::{HnswSettings, Tachiom, TachiomBuildParams};

fn sample_index() -> Tachiom {
    // Three documents with 2, 0 and 3 tokens of 2 bytes each.
    let doc_offsets = vec![0usize, 4, 4, 10];
    let assignments = vec![1usize, 0, 1, 1, 2];
    Tachiom::from_parts(3, &assignments, &doc_offsets, 2)
}

fn as_set(docs: &[u32]) -> HashSet<u32> {
    docs.iter().copied().collect()
}

#[test]
fn inverted_lists_group_documents_by_centroid() {
    let index = sample_index();
    assert_eq!(index.offsets, vec![0, 1, 3, 4]);
    assert_eq!(as_set(index.postings(0)), HashSet::from([0]));
    assert_eq!(as_set(index.postings(1)), HashSet::from([0, 2]));
    assert_eq!(index.postings(1).len(), 2);
    assert_eq!(as_set(index.postings(2)), HashSet::from([2]));
    assert!(index.postings(3).is_empty());
    assert_eq!(index.max_doc_tokens, 3);
}

#[test]
fn documents_listed_once_per_centroid() {
    // Every token of both documents goes to centroid 0.
    let index = Tachiom::from_parts(2, &vec![0, 0, 0, 0], &vec![0, 3, 4], 1);
    assert_eq!(index.offsets, vec![0, 2, 2]);
    assert_eq!(as_set(&index.inverted_lists), HashSet::from([0, 1]));
    assert_eq!(index.max_doc_tokens, 3);
}

#[test]
fn empty_dataset_has_empty_lists() {
    let index = Tachiom::from_parts(2, &vec![], &vec![0], 4);
    assert_eq!(index.offsets, vec![0, 0, 0]);
    assert!(index.inverted_lists.is_empty());
    assert_eq!(index.max_doc_tokens, 0);
}

#[test]
fn best_score_per_document() {
    let index = sample_index();
    let hits = vec![(1usize, 0.5f32.to_bits()), (2, 0.9f32.to_bits()), (0, 0.1f32.to_bits())];
    let mut best = index.best_per_doc(&hits);
    best.sort();
    assert_eq!(best, vec![(0, 0.5f32.to_bits()), (2, 0.9f32.to_bits())]);
    assert!(index.best_per_doc(&vec![]).is_empty());
}

#[test]
fn best_score_skips_nan_and_the_id_past_the_lists() {
    let index = sample_index();
    let nan = f32::NAN.to_bits();
    // Centroid 3 is just past the last list: it lists nothing.
    let hits = vec![(1usize, nan), (3, 0.7f32.to_bits()), (2, 0.25f32.to_bits()), (0, 0.1f32.to_bits())];
    let mut best = index.best_per_doc(&hits);
    best.sort();
    assert_eq!(best, vec![(0, 0.1f32.to_bits()), (2, 0.25f32.to_bits())]);
    let only_nan = index.best_per_doc(&vec![(0usize, nan)]);
    assert_eq!(only_nan.len(), 1);
    assert_eq!(only_nan[0].0, 0);
    assert!(f32::from_bits(only_nan[0].1).is_nan());
}

#[test]
fn build_params_check_token_ids() {
    let params = TachiomBuildParams {
        token_ids: vec![1, 2, 3],
        total_centroids: 16,
        tac_n_iter: 10,
        pq_sample_size: 100,
        pq_n_iter: 10,
        normalize: true,
        pq_seed: Some(42),
        hnsw_params: HnswSettings { num_neighbors: 32, ef_construction: 1500 },
    };
    assert!(params.token_ids_match(3));
    assert!(!params.token_ids_match(4));
}
