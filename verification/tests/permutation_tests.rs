use caravela::permutation::{pack_vector_to_u128, permutation_to_u128, transpose};

#[test]
fn sorted_vector_packs_to_zero() {
    let v: Vec<usize> = (0..16).collect();
    assert_eq!(permutation_to_u128(&v), 0);
}

#[test]
fn reversed_vector_sets_every_pair_bit() {
    let v: Vec<usize> = (0..16).rev().collect();
    // 16 positions give 120 pairs, all inverted
    assert_eq!(permutation_to_u128(&v), (1u128 << 120) - 1);
}

#[test]
fn pair_bits_come_in_lexicographic_order() {
    // pairs: (0,1) 2>1 set, (0,2) 2>0 set, (1,2) 1>0 set
    assert_eq!(permutation_to_u128(&[2, 1, 0]), 0b111);
    // pairs: (0,1) 1>0 set, (0,2) 1>2 no, (1,2) 0>2 no
    assert_eq!(permutation_to_u128(&[1, 0, 2]), 0b100);
    // pairs: (0,1) 0>2 no, (0,2) 0>1 no, (1,2) 2>1 set
    assert_eq!(permutation_to_u128(&[0, 2, 1]), 0b001);
    assert_eq!(permutation_to_u128(&[]), 0);
    assert_eq!(permutation_to_u128(&[5]), 0);
}

#[test]
fn long_vectors_keep_the_last_128_bits() {
    // 17 positions give 136 pairs; the first 8 bits fall off the top
    let v: Vec<usize> = (0..17).rev().collect();
    assert_eq!(permutation_to_u128(&v), u128::MAX);
}

#[test]
fn both_packings_agree() {
    let v = vec![3usize, 7, 1, 0, 9, 2, 8, 4, 6, 5];
    assert_eq!(pack_vector_to_u128(&v), permutation_to_u128(&v));
}

#[test]
fn transpose_sorts_letters() {
    let mut permutation = ['B', 'A', 'D', 'C'];
    transpose(&mut permutation);
    assert_eq!(permutation, ['A', 'B', 'C', 'D']);

    let mut longer = ['E', 'C', 'A', 'D', 'B'];
    transpose(&mut longer);
    assert_eq!(longer, ['A', 'B', 'C', 'D', 'E']);
}
