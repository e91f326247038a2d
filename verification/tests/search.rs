use tachiom::search::{
    alpha_pivot, is_nan_score, prune_below, rank_scored, score_key_of, select_candidates,
    use_early_exit, BetaTopK,
};

fn b(x: f32) -> u32 {
    x.to_bits()
}

#[test]
fn score_keys_order_as_floats() {
    let values = [-f32::INFINITY, -1.0, -0.5, 0.0, 0.5, 1.0, f32::INFINITY];
    for w in values.windows(2) {
        assert!(score_key_of(b(w[0])) < score_key_of(b(w[1])), "{} < {}", w[0], w[1]);
    }
    assert_eq!(score_key_of(b(-0.0)), score_key_of(b(0.0)));
    assert!(is_nan_score(b(f32::NAN)));
    assert!(!is_nan_score(b(1.0)));
}

#[test]
fn candidates_best_first_ties_by_doc() {
    let docs = vec![(5, b(0.5)), (3, b(0.9)), (7, b(0.5)), (1, b(0.2))];
    assert_eq!(select_candidates(&docs, 3), vec![(3, b(0.9)), (5, b(0.5)), (7, b(0.5))]);
    assert_eq!(select_candidates(&docs, 10), vec![(3, b(0.9)), (5, b(0.5)), (7, b(0.5)), (1, b(0.2))]);
    assert!(select_candidates(&vec![], 0).is_empty());
    assert!(select_candidates(&docs, 0).is_empty());
}

#[test]
fn alpha_pruning_keeps_scores_at_threshold() {
    let cands = vec![(3, b(0.9)), (5, b(0.5)), (7, b(0.4)), (1, b(-0.2))];
    assert_eq!(prune_below(&cands, b(0.5)), vec![(3, b(0.9)), (5, b(0.5))]);
    assert_eq!(prune_below(&cands, b(-1.0)), cands);
    assert!(prune_below(&cands, b(f32::NAN)).is_empty());
    assert_eq!(alpha_pivot(5, 3), Some(2));
    assert_eq!(alpha_pivot(2, 3), Some(1));
    assert_eq!(alpha_pivot(0, 3), None);
    assert_eq!(alpha_pivot(5, 0), None);
}

#[test]
fn ranking_without_early_exit() {
    let scored = vec![(b(0.3), 1), (b(0.9), 2), (b(0.3), 3)];
    assert_eq!(rank_scored(&scored, 2), vec![(b(0.9), 2), (b(0.3), 1)]);
    assert_eq!(rank_scored(&scored, 5), vec![(b(0.9), 2), (b(0.3), 1), (b(0.3), 3)]);
}

#[test]
fn early_exit_after_beta_stalls() {
    let mut top = BetaTopK::new(2, 2);
    assert!(top.offer(b(0.5), 1));
    assert!(top.offer(b(0.7), 2));
    assert!(top.offer(b(0.1), 3));
    assert_eq!(top.stalls, 1);
    assert!(!top.offer(b(0.2), 4));
    assert_eq!(top.finish(), vec![(b(0.7), 2), (b(0.5), 1)]);
}

#[test]
fn better_document_evicts_the_worst() {
    let mut top = BetaTopK::new(2, 1);
    assert!(top.offer(b(0.5), 1));
    assert!(top.offer(b(0.5), 4));
    // The worst is the lower score, and among equal scores the higher document id.
    assert!(top.offer(b(0.9), 7));
    assert_eq!(top.stalls, 0);
    assert_eq!(top.finish(), vec![(b(0.9), 7), (b(0.5), 1)]);
    // An equal score does not enter.
    assert!(!top.offer(b(0.5), 0));
}

#[test]
fn early_exit_only_with_beta_and_enough_candidates() {
    assert!(use_early_exit(Some(3), 10, 5));
    assert!(!use_early_exit(None, 10, 5));
    assert!(!use_early_exit(Some(3), 4, 5));
    assert!(!use_early_exit(Some(3), 10, 0));
}

#[test]
fn a_higher_threshold_ranks_no_higher() {
    let candidates = vec![(1u32, b(0.9)), (2, b(0.6)), (3, b(0.4)), (4, b(0.2))];
    let rescore = |doc: u32| b([0.0f32, 0.3, 0.8, 0.7, 0.95][doc as usize]);
    let ranked = |threshold: f32| {
        let kept = prune_below(&candidates, b(threshold));
        let scored: Vec<(u32, u32)> = kept.iter().map(|&(d, _)| (rescore(d), d)).collect();
        rank_scored(&scored, 3)
    };
    let strict = ranked(0.5);
    let loose = ranked(0.3);
    assert_eq!(strict, vec![(b(0.8), 2), (b(0.3), 1)]);
    assert_eq!(loose, vec![(b(0.8), 2), (b(0.7), 3), (b(0.3), 1)]);
    assert!(strict.len() <= loose.len());
    for (s, l) in strict.iter().zip(loose.iter()) {
        assert!(f32::from_bits(s.0) <= f32::from_bits(l.0));
    }
}

#[test]
fn a_large_beta_returns_what_ranking_all_returns() {
    let scored = vec![(b(0.2), 1u32), (b(0.9), 2), (b(0.4), 3), (b(0.1), 4), (b(0.6), 5), (b(0.3), 6)];
    let mut top = BetaTopK::new(3, scored.len());
    for &(bits, doc) in &scored {
        assert!(top.offer(bits, doc));
    }
    let early = top.finish();
    let full = rank_scored(&scored, 3);
    assert_eq!(early, full);
    assert_eq!(early, vec![(b(0.9), 2), (b(0.6), 5), (b(0.4), 3)]);
}
