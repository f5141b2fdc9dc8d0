use caravela::encoding::{chunk_range, order_code_u128, selection_mask};
use caravela::nearest::k_best_by_score;
use caravela::sorting::argsort;

#[test]
fn selection_mask_keeps_the_first_entries() {
    assert_eq!(selection_mask(&[3, 0, 5, 63], 2), 0b1001);
    assert_eq!(selection_mask(&[3, 0, 5, 63], 10), (1u64 << 63) | 0b10_1001);
    assert_eq!(selection_mask(&[3, 0, 5, 63], 0), 0);
    assert_eq!(selection_mask(&[], 32), 0);
}

#[test]
fn selection_mask_counts_a_repeated_entry_once() {
    assert_eq!(selection_mask(&[7, 7, 7], 3), 1u64 << 7);
}

#[test]
fn order_code_sets_one_bit_per_inverted_pair() {
    assert_eq!(order_code_u128(&[3, 1, 2]), Some(0b011));
    assert_eq!(order_code_u128(&[3, 2, 1]), Some(0b111));
    assert_eq!(order_code_u128(&[1, 3, 2]), Some(0b100));
    assert_eq!(order_code_u128(&[1, 2, 3]), Some(0));
}

#[test]
fn order_code_of_equal_and_short_vectors_is_zero() {
    assert_eq!(order_code_u128(&[]), Some(0));
    assert_eq!(order_code_u128(&[5]), Some(0));
    assert_eq!(order_code_u128(&[2, 2]), Some(0));
}

#[test]
fn order_code_of_sixteen_decreasing_keys_fills_120_bits() {
    let keys: Vec<u64> = (0..16).rev().collect();
    assert_eq!(order_code_u128(&keys), Some((1u128 << 120) - 1));
}

#[test]
fn k_best_takes_the_highest_scores_best_first() {
    let indices = [10, 11, 12, 13];
    let scores = [5, 9, 7, 8];
    assert_eq!(k_best_by_score(&indices, &scores, 2), vec![11, 13]);
    assert_eq!(k_best_by_score(&indices, &scores, 10), vec![11, 13, 12, 10]);
    assert_eq!(k_best_by_score(&indices, &scores, 1), vec![11]);
}

#[test]
fn k_best_with_tied_scores_keeps_the_tied_pair() {
    let indices = [10, 11, 12, 13];
    let scores = [5, 9, 7, 9];
    let mut best = k_best_by_score(&indices, &scores, 2);
    best.sort();
    assert_eq!(best, vec![11, 13]);
}

#[test]
fn k_best_of_no_candidates_is_empty() {
    assert_eq!(k_best_by_score(&[], &[], 0), Vec::<usize>::new());
    assert_eq!(k_best_by_score(&[], &[], 3), Vec::<usize>::new());
}

#[test]
fn argsort_orders_positions_by_key() {
    assert_eq!(argsort(&[3, 1, 2]), vec![1, 2, 0]);
    assert_eq!(argsort(&[]), Vec::<usize>::new());
    let order = argsort(&[4, 4, 1]);
    assert_eq!(order[0], 2);
    let mut rest = vec![order[1], order[2]];
    rest.sort();
    assert_eq!(rest, vec![0, 1]);
}

#[test]
fn chunk_ranges_cover_the_point_with_the_remainder_last() {
    assert_eq!(chunk_range(10, 3, 0), (0, 3));
    assert_eq!(chunk_range(10, 3, 1), (3, 6));
    assert_eq!(chunk_range(10, 3, 2), (6, 10));
    assert_eq!(chunk_range(5, 8, 7), (0, 5));
    assert_eq!(chunk_range(5, 8, 3), (0, 0));
}

#[test]
fn order_code_of_long_vectors_fits_while_late_pairs_are_in_order() {
    // 20 keys: pairs 0..18 are row 0; only row 0 is out of order.
    let mut keys: Vec<u64> = (1..20).collect();
    keys.insert(0, 100);
    assert_eq!(order_code_u128(&keys), Some((1u128 << 19) - 1));
    let decreasing: Vec<u64> = (0..17).rev().collect();
    assert_eq!(order_code_u128(&decreasing), None);
}
