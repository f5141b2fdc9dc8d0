use caravela::blas::{
    dot, gemm, gemm_nt, gemm_tn, gemm_tt, gemv, gemv_t, l2, matmul, matmul_nt, matmul_tn,
    matmul_tt, matvec, matvec_t,
};

fn test_matrix(m: usize, n: usize) -> Vec<i64> {
    let mut matrix = vec![0i64; m * n];
    for i in 0..m {
        for j in 0..n {
            matrix[i * n + j] = (i as i64 + 1) * 10 + (j as i64 + 1);
        }
    }
    matrix
}

#[test]
fn dot_of_small_vectors() {
    assert_eq!(dot(&[1i64, 2, 3], &[4, 5, 6]), 32);
    assert_eq!(dot(&[1i64, -1, 2, -2], &[1, 1, 1, 1]), 0);
    assert_eq!(dot(&[0i64; 100], &[0i64; 100]), 0);
    let empty: [i64; 0] = [];
    assert_eq!(dot(&empty, &empty), 0);
}

#[test]
fn dot_wraps_on_overflow() {
    assert_eq!(dot(&[i64::MAX, 1], &[1, 1]), i64::MIN);
}

#[test]
fn l2_is_the_root_of_the_squared_distance() {
    // (1-4)^2 + (2-5)^2 + (3-6)^2 = 27, whose integer root is 5
    assert_eq!(l2(&[1i64, 2, 3], &[4, 5, 6]), 5);
    assert_eq!(l2(&[0i64, 0], &[3, 4]), 5);
    let a = [1i64, -25, 314, 0];
    assert_eq!(l2(&a, &a), 0);
    let empty: [i64; 0] = [];
    assert_eq!(l2(&empty, &empty), 0);
}

#[test]
fn gemv_basic_on_integers() {
    let a = vec![1i64, 2, 3, 4, 5, 6, 7, 8, 9];
    let x = vec![1i64, 2, 3];
    let mut y = vec![0i64; 3];
    gemv(3, 3, 1, &a, &x, 0, &mut y);
    assert_eq!(y, vec![14, 32, 50]);
}

#[test]
fn gemv_alpha_beta_on_integers() {
    let a = vec![1i64, 2, 3, 4];
    let x = vec![1i64, 1];
    let mut y = vec![1i64, 1];
    gemv(2, 2, 2, &a, &x, 3, &mut y);
    assert_eq!(y, vec![9, 17]);
}

#[test]
fn gemv_t_basic_on_integers() {
    let a = vec![1i64, 2, 3, 4, 5, 6, 7, 8, 9];
    let x = vec![1i64, 2, 3];
    let mut y = vec![0i64; 3];
    gemv_t(3, 3, 1, &a, &x, 0, &mut y);
    assert_eq!(y, vec![30, 36, 42]);
}

#[test]
fn gemv_rectangular_on_integers() {
    let a = vec![1i64, 2, 3, 4, 5, 6];
    let mut y = vec![0i64; 2];
    gemv(2, 3, 1, &a, &[1, 1, 1], 0, &mut y);
    assert_eq!(y, vec![6, 15]);

    let mut y_t = vec![0i64; 3];
    gemv_t(2, 3, 1, &a, &[1, 2], 0, &mut y_t);
    assert_eq!(y_t, vec![9, 12, 15]);

    let a = vec![1i64, 2, 3, 4, 5, 6, 7, 8];
    let mut y = vec![0i64; 4];
    gemv(4, 2, 1, &a, &[1, 1], 0, &mut y);
    assert_eq!(y, vec![3, 7, 11, 15]);
    let mut y_t = vec![0i64; 2];
    gemv_t(4, 2, 1, &a, &[1, 1, 1, 1], 0, &mut y_t);
    assert_eq!(y_t, vec![16, 20]);
}

#[test]
fn gemv_large_matrices_on_integers() {
    for size in [16usize, 32, 63, 64, 65, 128, 256] {
        let (m, n) = (size, size);
        let a = test_matrix(m, n);
        let x = vec![1i64; n];
        let mut y = vec![0i64; m];
        gemv(m, n, 1, &a, &x, 0, &mut y);
        for i in 0..m {
            let expected = 10 * (i as i64 + 1) * n as i64 + (n * (n + 1) / 2) as i64;
            assert_eq!(y[i], expected);
        }
    }
    let a = test_matrix(100, 100);
    let mut y = vec![0i64; 100];
    gemv(100, 100, 1, &a, &vec![1i64; 100], 0, &mut y);
    assert_eq!(y[0], 6050);
    assert_eq!(y[50], 56050);
}

#[test]
fn gemv_and_gemv_t_agree_with_row_and_column_sums() {
    let (m, n) = (37usize, 41usize);
    let a = test_matrix(m, n);
    let mut y1 = vec![0i64; m];
    gemv(m, n, 2, &a, &vec![1i64; n], 0, &mut y1);
    let mut y2 = vec![0i64; n];
    gemv_t(m, n, 2, &a, &vec![1i64; m], 0, &mut y2);
    for i in 0..m {
        let sum: i64 = (0..n).map(|j| a[i * n + j]).sum();
        assert_eq!(y1[i], 2 * sum);
    }
    for j in 0..n {
        let sum: i64 = (0..m).map(|i| a[i * n + j]).sum();
        assert_eq!(y2[j], 2 * sum);
    }
}

#[test]
fn gemv_t_equals_gemv_of_the_transpose() {
    let (m, n) = (5usize, 3usize);
    let a = test_matrix(m, n);
    let mut at = vec![0i64; m * n];
    for i in 0..m {
        for j in 0..n {
            at[j * m + i] = a[i * n + j];
        }
    }
    let x = vec![3i64, -1, 4, 1, -5];
    let mut y1 = vec![7i64, 8, 9];
    let mut y2 = y1.clone();
    gemv_t(m, n, 3, &a, &x, 2, &mut y1);
    gemv(n, m, 3, &at, &x, 2, &mut y2);
    assert_eq!(y1, y2);
}

#[test]
fn gemv_zero_alpha_scales_y() {
    let a = vec![1i64, 2, 3, 4];
    let mut y = vec![5i64, 6];
    gemv(2, 2, 0, &a, &[1, 1], 2, &mut y);
    assert_eq!(y, vec![10, 12]);
}

#[test]
fn gemv_zero_beta_ignores_y() {
    let a = vec![1i64, 2, 3, 4];
    let mut y = vec![999i64, 999];
    gemv(2, 2, 1, &a, &[1, 1], 0, &mut y);
    assert_eq!(y, vec![3, 7]);
}

#[test]
fn gemm_small_on_integers() {
    let a = vec![1i64, 2, 3, 4, 5, 6];
    let b = vec![7i64, 8, 9, 10, 11, 12];
    let mut c = vec![0i64; 4];
    gemm(2, 2, 3, 1, &a, 3, &b, 2, 0, &mut c, 2);
    assert_eq!(c, vec![58, 64, 139, 154]);
}

#[test]
fn gemm_with_alpha_and_beta() {
    let a = vec![1i64, 2, 3, 4];
    let b = vec![5i64, 6, 7, 8];
    let mut c = vec![1i64; 4];
    gemm(2, 2, 2, 2, &a, 2, &b, 2, 3, &mut c, 2);
    assert_eq!(c, vec![41, 47, 89, 103]);
}

#[test]
fn gemm_transposed_variants() {
    let a = vec![1i64, 2, 3, 4];
    let b = vec![5i64, 6, 7, 8];
    let a_t = vec![1i64, 3, 2, 4];
    let b_t = vec![5i64, 7, 6, 8];
    let mut c = vec![0i64; 4];
    gemm_tn(2, 2, 2, 1, &a_t, 2, &b, 2, 0, &mut c, 2);
    assert_eq!(c, vec![19, 22, 43, 50]);
    let mut c = vec![0i64; 4];
    gemm_nt(2, 2, 2, 1, &a, 2, &b_t, 2, 0, &mut c, 2);
    assert_eq!(c, vec![19, 22, 43, 50]);
    let mut c = vec![0i64; 4];
    gemm_tt(2, 2, 2, 1, &a_t, 2, &b_t, 2, 0, &mut c, 2);
    assert_eq!(c, vec![19, 22, 43, 50]);
}

#[test]
fn gemm_leaves_c_alone_when_alpha_is_zero_and_beta_one() {
    let a = vec![1i64, 2, 3, 4];
    let b = vec![5i64, 6, 7, 8];
    let mut c = vec![9i64, 8, 7, 6];
    gemm(2, 2, 2, 0, &a, 2, &b, 2, 1, &mut c, 2);
    assert_eq!(c, vec![9, 8, 7, 6]);
    gemm(2, 2, 2, 0, &a, 2, &b, 2, 3, &mut c, 2);
    assert_eq!(c, vec![27, 24, 21, 18]);
}

#[test]
fn gemm_with_an_empty_inner_dimension_scales_c_by_beta() {
    let empty: [i64; 0] = [];
    let mut c = vec![4i64, 5];
    gemm(1, 2, 0, 1, &empty, 0, &empty, 2, 0, &mut c, 2);
    assert_eq!(c, vec![0, 0]);
    let mut c = vec![4i64, 5];
    gemm(1, 2, 0, 7, &empty, 0, &empty, 2, 3, &mut c, 2);
    assert_eq!(c, vec![12, 15]);
    let mut c = vec![4i64, 5];
    gemm_tt(1, 2, 0, 7, &empty, 1, &empty, 0, 1, &mut c, 2);
    assert_eq!(c, vec![4, 5]);
}

#[test]
fn gemm_with_one_row_wider_than_ldc() {
    // a single row of C is laid out from position zero whatever ldc says
    let a = vec![1i64, 2];
    let b = vec![1i64, 2, 3, 4, 5, 6];
    let mut c = vec![0i64, 0, 0, -1];
    gemm(1, 3, 2, 1, &a, 2, &b, 3, 0, &mut c, 1);
    assert_eq!(c, vec![9, 12, 15, -1]);
}

#[test]
fn gemm_only_touches_the_block_of_c() {
    // C is 2 x 2 stored with leading dimension 3; the third column is padding
    let a = vec![1i64, 2, 3, 4];
    let b = vec![5i64, 6, 7, 8];
    let mut c = vec![0i64, 0, -1, 0, 0, -1];
    gemm(2, 2, 2, 1, &a, 2, &b, 2, 0, &mut c, 3);
    assert_eq!(c, vec![19, 22, -1, 43, 50, -1]);
}

#[test]
fn matvec_and_matmul() {
    let matrix = vec![1i64, 2, 3, 4, 5, 6];
    assert_eq!(matvec(2, 3, &matrix, &[1, 1, 1]), vec![6, 15]);
    assert_eq!(matvec_t(2, 3, &matrix, &[1, 2]), vec![9, 12, 15]);
    let a = vec![1i64, 2, 3, 4];
    let b = vec![5i64, 6, 7, 8];
    assert_eq!(matmul(2, 2, 2, &a, &b), vec![19, 22, 43, 50]);
    assert_eq!(matmul_tn(2, 2, 2, &[1, 3, 2, 4], &b), vec![19, 22, 43, 50]);
    assert_eq!(matmul_nt(2, 2, 2, &a, &[5, 7, 6, 8]), vec![19, 22, 43, 50]);
    assert_eq!(matmul_tt(2, 2, 2, &[1, 3, 2, 4], &[5, 7, 6, 8]), vec![19, 22, 43, 50]);
}

#[test]
fn gemv_t_adds_the_transposed_product_to_y() {
    let matrix = vec![1i64, 2, 3, 4, 5, 6];
    let x2 = vec![1i64, 2];
    let mut y2 = vec![5i64, 5, 5];
    gemv_t(2, 3, 1, &matrix, &x2, 1, &mut y2);
    assert_eq!(y2, vec![14, 17, 20]);
}

#[test]
fn gemv_of_the_readme_matrix_with_alpha_and_beta() {
    let matrix = vec![1i64, 2, 3, 4, 5, 6];
    let x = vec![1i64, 1, 1];
    let mut y = vec![10i64, 20];
    gemv(2, 3, 2, &matrix, &x, 2, &mut y);
    assert_eq!(y, vec![32, 70]);
}

fn naive_product(m: usize, n: usize, k: usize, a: &[i64], b: &[i64]) -> Vec<i64> {
    let mut c = vec![0i64; m * n];
    for i in 0..m {
        for j in 0..n {
            let mut s = 0i64;
            for p in 0..k {
                s += a[i * k + p] * b[p * n + j];
            }
            c[i * n + j] = s;
        }
    }
    c
}

fn small_values(len: usize, seed: i64) -> Vec<i64> {
    (0..len).map(|i| ((i as i64 * 7 + seed) % 11) - 5).collect()
}

#[test]
fn gemm_walks_a_long_inner_dimension_in_blocks() {
    let (m, n, k) = (13usize, 17usize, 600usize);
    let a = small_values(m * k, 3);
    let b = small_values(k * n, 5);
    let mut c = vec![1i64; m * n];
    gemm(m, n, k, 2, &a, k, &b, n, 3, &mut c, n);
    let expected: Vec<i64> = naive_product(m, n, k, &a, &b).iter().map(|x| 2 * x + 3).collect();
    assert_eq!(c, expected);
}

#[test]
fn gemm_covers_many_row_and_column_blocks() {
    let (m, n, k) = (130usize, 9usize, 4usize);
    let a = small_values(m * k, 1);
    let b = small_values(k * n, 2);
    assert_eq!(matmul(m, n, k, &a, &b), naive_product(m, n, k, &a, &b));
    let (m, n, k) = (2usize, 1030usize, 3usize);
    let a = small_values(m * k, 4);
    let b = small_values(k * n, 6);
    assert_eq!(matmul(m, n, k, &a, &b), naive_product(m, n, k, &a, &b));
}

#[test]
fn dot_sums_lanes_and_tail() {
    let a: Vec<i64> = (1..=19).collect();
    let b = vec![2i64; 19];
    assert_eq!(dot(&a, &b), 380);
    let c: Vec<i64> = (1..=16).collect();
    assert_eq!(dot(&c, &c), 1496);
}

#[test]
fn squared_distance_over_lanes_and_tail() {
    let a: Vec<i64> = (0..10).collect();
    let b = vec![0i64; 10];
    assert_eq!(caravela::blas::l2sq(&a, &b), 285);
    assert_eq!(l2(&[0i64, 0, 0, 0, 0, 0, 0, 0, 3], &[0i64, 0, 0, 0, 0, 0, 0, 0, 7]), 4);
}

#[test]
fn scale_multiplies_every_entry() {
    let mut v = vec![1i64, -2, 3];
    caravela::blas::scale(&mut v, 3);
    assert_eq!(v, vec![3, -6, 9]);
    let mut e: Vec<i64> = vec![];
    caravela::blas::scale(&mut e, 5);
    assert!(e.is_empty());
}

#[test]
fn chunked_dot_uses_the_common_prefix() {
    let x: Vec<i64> = (1..=19).collect();
    let y = vec![2i64; 25];
    assert_eq!(caravela::blas::chunked_dot(&x, &y), 380);
    assert_eq!(caravela::blas::chunked_dot(&y, &x), 380);
    assert_eq!(caravela::blas::chunked_dot::<i64>(&[], &[1, 2]), 0);
    assert_eq!(caravela::blas::chunked_dot(&[3i64, 4], &[5, 6, 7]), 39);
}

#[test]
fn gemv_without_columns_scales_y_by_beta() {
    let empty: [i64; 0] = [];
    let mut y = vec![3i64];
    gemv(1, 0, 1, &empty, &empty, 2, &mut y);
    assert_eq!(y, vec![6]);
    assert_eq!(matvec(2, 0, &empty, &empty), vec![0, 0]);
}

#[test]
fn dot_is_symmetric() {
    let a: Vec<i64> = (0..21).map(|i| i * 3 - 7).collect();
    let b: Vec<i64> = (0..21).map(|i| 11 - i * i).collect();
    assert_eq!(dot(&a, &b), dot(&b, &a));
}
