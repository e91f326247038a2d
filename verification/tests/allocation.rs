use tachiom::ordering::sort_indices_desc;
use tachiom::tac::round_robin::round_robin;
use tachiom::tac::strategies::{
    allocate_centroids, bound_allocation, reconcile_budget, split_token_groups, BoundedAllocation,
    ProvisionalShare, TailSplit, HARD_FLOOR,
};

fn share(rounded: usize, frac_key: u64) -> ProvisionalShare {
    ProvisionalShare { rounded, frac_key }
}

fn total(allocation: &[(usize, usize)]) -> usize {
    allocation.iter().map(|&(_, n)| n).sum()
}

#[test]
fn split_sorts_types_by_size() {
    let groups = vec![(1, 10), (2, 200), (3, 300), (4, 127), (5, 128), (6, 255), (7, 256)];
    let split = split_token_groups(&groups);
    assert_eq!(split.micro, vec![1, 4]);
    assert_eq!(split.small, vec![2, 5, 6]);
    assert_eq!(split.active, vec![(3, 300), (7, 256)]);
    assert_eq!(split.tail_budget(), 8);
    assert!(!split.needs_active_allocation(8));
    assert!(split.needs_active_allocation(9));
}

#[test]
fn bounding_raises_to_floor_and_lowers_to_cap() {
    // 300 vectors: cap = max(300 / 39, 4) = 7.
    let low = bound_allocation(3, 300, 2, 0);
    assert_eq!((low.alloc, low.capped), (4, false));
    let high = bound_allocation(3, 300, 10, 0);
    assert_eq!((high.alloc, high.capped), (7, true));
    let exact = bound_allocation(3, 300, 7, 0);
    assert_eq!((exact.alloc, exact.capped), (7, false));
    // 256 vectors: cap 6.
    let small = bound_allocation(9, 256, 9, 0);
    assert_eq!((small.alloc, small.capped), (6, true));
    // 160 vectors: the cap is the floor.
    let tiny = bound_allocation(9, 160, 9, 0);
    assert_eq!((tiny.alloc, tiny.capped), (HARD_FLOOR, true));
}

#[test]
fn round_robin_hands_out_one_per_pass() {
    assert_eq!(round_robin(&vec![2, 0, 3], 4), vec![2, 0, 2]);
    assert_eq!(round_robin(&vec![2, 0, 3], 3), vec![2, 0, 1]);
    assert_eq!(round_robin(&vec![2, 0, 3], 10), vec![2, 0, 3]);
    assert_eq!(round_robin(&vec![], 5), Vec::<usize>::new());
}

#[test]
fn indices_sorted_by_key_then_position() {
    assert_eq!(sort_indices_desc(&vec![5, 7, 5, 1]), vec![1, 0, 2, 3]);
    assert_eq!(sort_indices_desc(&vec![]), Vec::<usize>::new());
}

fn active_split() -> TailSplit {
    // Two active types of 390 vectors each: cap 10.
    split_token_groups(&vec![(1, 3), (10, 390), (11, 390)])
}

#[test]
fn surplus_goes_to_larger_fractions_first() {
    let split = active_split();
    let allocation = allocate_centroids(&split, &vec![share(5, 3), share(5, 7)], 12);
    assert_eq!(allocation, vec![(1, 1), (10, 5), (11, 6)]);
    assert_eq!(total(&allocation), 12);
}

#[test]
fn surplus_fills_caps_then_spills_over() {
    let split = active_split();
    let filled = allocate_centroids(&split, &vec![share(5, 3), share(5, 7)], 21);
    assert_eq!(filled, vec![(1, 1), (10, 10), (11, 10)]);
    let spilled = allocate_centroids(&split, &vec![share(5, 3), share(5, 7)], 24);
    assert_eq!(spilled, vec![(1, 1), (10, 11), (11, 12)]);
    assert_eq!(total(&spilled), 24);
}

#[test]
fn deficit_taken_from_largest_shares() {
    let split = active_split();
    let allocation = allocate_centroids(&split, &vec![share(7, 0), share(5, 0)], 10);
    assert_eq!(allocation, vec![(1, 1), (10, 5), (11, 4)]);
    assert_eq!(total(&allocation), 10);
}

#[test]
fn deficit_stops_at_the_floor() {
    let split = active_split();
    let allocation = allocate_centroids(&split, &vec![share(5, 0), share(5, 0)], 8);
    assert_eq!(allocation, vec![(1, 1), (10, 4), (11, 4)]);
    assert_eq!(total(&allocation), 9);
}

#[test]
fn exact_budget_keeps_bounded_shares() {
    let split = active_split();
    let allocation = allocate_centroids(&split, &vec![share(6, 0), share(5, 0)], 12);
    assert_eq!(allocation, vec![(1, 1), (10, 6), (11, 5)]);
}

#[test]
fn tail_only_when_budget_is_spent() {
    let split = split_token_groups(&vec![(1, 3), (2, 130), (10, 390)]);
    // The tail takes 3 centroids; nothing is left for the active type.
    let allocation = allocate_centroids(&split, &vec![], 3);
    assert_eq!(allocation, vec![(1, 1), (2, 2)]);
    let over = allocate_centroids(&split, &vec![], 2);
    assert_eq!(total(&over), 3);
}

#[test]
fn reconcile_reports_finals_in_input_order() {
    let bounded = vec![
        BoundedAllocation { token_id: 4, count: 400, alloc: 4, frac_key: 9, capped: false },
        BoundedAllocation { token_id: 5, count: 400, alloc: 4, frac_key: 1, capped: false },
    ];
    assert_eq!(reconcile_budget(&bounded, 0, 11), vec![6, 5]);
    assert_eq!(reconcile_budget(&bounded, 0, 8), vec![4, 4]);
}
