use caravela::blas::l2sq;
use caravela::packing::{pack_a, pack_a_trans, pack_b, pack_b_trans};

#[test]
fn squared_distance_sums_squared_differences() {
    assert_eq!(l2sq(&[1i64, 2, 3], &[4, 6, 3]), 25);
    assert_eq!(l2sq::<i64>(&[], &[]), 0);
}

#[test]
fn pack_a_lays_out_row_panels_padded_with_zero() {
    let a = [1i64, 2, 3, 4, 5, 6];
    let mut pack = vec![9i64; 9];
    pack_a(&mut pack, &a, 2, 3, 2, 0, 0, 2, 0);
    assert_eq!(pack, vec![1, 3, 2, 4, 5, 0, 6, 0, 9]);
}

#[test]
fn pack_b_lays_out_column_panels_padded_with_zero() {
    let b = [1i64, 2, 3, 4, 5, 6];
    let mut pack = vec![9i64; 9];
    pack_b(&mut pack, &b, 3, 2, 3, 0, 0, 2, 0);
    assert_eq!(pack, vec![1, 2, 4, 5, 3, 0, 6, 0, 9]);
}

#[test]
fn pack_a_reads_a_block_at_its_offset() {
    // A is 3 x 3; the 2 x 2 block at (1, 1) is [[5, 6], [8, 9]].
    let a = [1i64, 2, 3, 4, 5, 6, 7, 8, 9];
    let mut pack = vec![0i64; 4];
    pack_a(&mut pack, &a, 3, 2, 2, 1, 1, 2, 0);
    assert_eq!(pack, vec![5, 8, 6, 9]);
}

#[test]
fn transposed_packings_agree_with_packing_the_transpose() {
    // a_t is the 2 x 3 transpose of the 3 x 2 matrix [1, 2, 3, 4, 5, 6].
    let a = [1i64, 2, 3, 4, 5, 6];
    let a_t = [1i64, 3, 5, 2, 4, 6];
    let mut direct = vec![0i64; 8];
    let mut through = vec![0i64; 8];
    pack_a(&mut direct, &a, 2, 3, 2, 0, 0, 2, 0);
    pack_a_trans(&mut through, &a_t, 3, 3, 2, 0, 0, 2, 0);
    assert_eq!(direct, through);
    let b = [1i64, 2, 3, 4, 5, 6];
    let b_t = [1i64, 4, 2, 5, 3, 6];
    let mut direct_b = vec![0i64; 8];
    let mut through_b = vec![0i64; 8];
    pack_b(&mut direct_b, &b, 3, 2, 3, 0, 0, 2, 0);
    pack_b_trans(&mut through_b, &b_t, 2, 2, 3, 0, 0, 2, 0);
    assert_eq!(direct_b, through_b);
}
