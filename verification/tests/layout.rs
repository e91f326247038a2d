use tachiom::layout::{
    assemble_blocked_layout, checked_total, cluster_sizes, concat_encoded, doc_token_counts,
    min_max, pq_subspace_dim, token_starts,
};

#[test]
fn token_counts_and_starts() {
    let counts = doc_token_counts(&[0, 4, 4, 10], 2);
    assert_eq!(counts, vec![2, 0, 3]);
    assert_eq!(token_starts(&counts), vec![0, 2, 2, 5]);
    assert!(doc_token_counts(&[], 2).is_empty());
    assert_eq!(token_starts(&vec![]), vec![0]);
}

#[test]
fn encoded_documents_read_back_by_offsets() {
    let docs = vec![vec![1u8, 2], vec![], vec![3]];
    let (data, offsets) = concat_encoded(&docs);
    assert_eq!(data, vec![1, 2, 3]);
    assert_eq!(offsets, vec![0, 2, 2, 3]);
    for (d, doc) in docs.iter().enumerate() {
        assert_eq!(&data[offsets[d]..offsets[d + 1]], doc.as_slice());
    }
}

#[test]
fn blocked_layout_with_norms() {
    let (data, offsets) = assemble_blocked_layout(
        &vec![1, 2],
        &vec![1, 258, 3],
        &vec![10, 11, 20, 21, 30, 31],
        2,
        Some(&vec![0x3c00, 1, 2]),
    );
    assert_eq!(offsets, vec![0, 8, 24]);
    assert_eq!(
        data,
        vec![
            1, 0, 0, 0, 10, 11, 0x00, 0x3c, // document 0
            2, 1, 0, 0, 3, 0, 0, 0, 20, 21, 30, 31, 1, 0, 2, 0, // document 1
        ]
    );
}

#[test]
fn blocked_layout_without_norms() {
    let (data, offsets) = assemble_blocked_layout(&vec![0, 1], &vec![7], &vec![9], 1, None);
    assert_eq!(offsets, vec![0, 0, 5]);
    assert_eq!(data, vec![7, 0, 0, 0, 9]);
}

#[test]
fn subspaces_totals_and_cluster_sizes() {
    assert_eq!(pq_subspace_dim(128, 32), Some(4));
    assert_eq!(pq_subspace_dim(130, 32), None);
    assert_eq!(checked_total(&vec![2, 0, 3]), Some(5));
    assert_eq!(checked_total(&vec![usize::MAX, 1]), None);
    let sizes = cluster_sizes(&[0, 2, 2, 1], 3).unwrap();
    assert_eq!(sizes, vec![1, 1, 2]);
    assert_eq!(min_max(&sizes), (1, 2));
    assert_eq!(min_max(&vec![]), (0, 0));
    assert_eq!(cluster_sizes(&[], 2), Some(vec![0, 0]));
}
