//! The floating-point tests of the linear-algebra routines, run on `f32`
//! and `f64` element types.

use caravela::blas;
use caravela::blas::Blas;
use caravela::gemm_params;
use rand::Rng;

#[derive(Clone, Copy, Debug, PartialEq)]
struct F32(f32);

#[derive(Clone, Copy, Debug, PartialEq)]
struct F64(f64);

impl Blas for F32 {
    fn zero_v() -> Self {
        F32(0.0)
    }
    fn one_v() -> Self {
        F32(1.0)
    }
    fn plus_v(a: Self, b: Self) -> Self {
        F32(a.0 + b.0)
    }
    fn minus_v(a: Self, b: Self) -> Self {
        F32(a.0 - b.0)
    }
    fn times_v(a: Self, b: Self) -> Self {
        F32(a.0 * b.0)
    }
    fn root_v(a: Self) -> Self {
        F32(a.0.sqrt())
    }
    fn is_zero_v(a: Self) -> bool {
        a.0 == 0.0
    }
    fn is_one_v(a: Self) -> bool {
        a.0 == 1.0
    }
    fn blocking_v() -> (usize, usize, usize, usize, usize) {
        Self::blocking()
    }
    fn zero() -> Self {
        F32(0.0)
    }
    fn one() -> Self {
        F32(1.0)
    }
    fn plus(a: Self, b: Self) -> Self {
        F32(a.0 + b.0)
    }
    fn minus(a: Self, b: Self) -> Self {
        F32(a.0 - b.0)
    }
    fn times(a: Self, b: Self) -> Self {
        F32(a.0 * b.0)
    }
    fn root(a: Self) -> Self {
        F32(a.0.sqrt())
    }
    fn is_zero(a: Self) -> bool {
        a.0 == 0.0
    }
    fn is_one(a: Self) -> bool {
        a.0 == 1.0
    }
    fn blocking() -> (usize, usize, usize, usize, usize) {
        let (kc, mc, nc) = gemm_params::compute_cache_params_f32();
        (kc, mc, nc, gemm_params::MR_F32, gemm_params::NR_F32)
    }
}

impl Blas for F64 {
    fn zero_v() -> Self {
        F64(0.0)
    }
    fn one_v() -> Self {
        F64(1.0)
    }
    fn plus_v(a: Self, b: Self) -> Self {
        F64(a.0 + b.0)
    }
    fn minus_v(a: Self, b: Self) -> Self {
        F64(a.0 - b.0)
    }
    fn times_v(a: Self, b: Self) -> Self {
        F64(a.0 * b.0)
    }
    fn root_v(a: Self) -> Self {
        F64(a.0.sqrt())
    }
    fn is_zero_v(a: Self) -> bool {
        a.0 == 0.0
    }
    fn is_one_v(a: Self) -> bool {
        a.0 == 1.0
    }
    fn blocking_v() -> (usize, usize, usize, usize, usize) {
        Self::blocking()
    }
    fn zero() -> Self {
        F64(0.0)
    }
    fn one() -> Self {
        F64(1.0)
    }
    fn plus(a: Self, b: Self) -> Self {
        F64(a.0 + b.0)
    }
    fn minus(a: Self, b: Self) -> Self {
        F64(a.0 - b.0)
    }
    fn times(a: Self, b: Self) -> Self {
        F64(a.0 * b.0)
    }
    fn root(a: Self) -> Self {
        F64(a.0.sqrt())
    }
    fn is_zero(a: Self) -> bool {
        a.0 == 0.0
    }
    fn is_one(a: Self) -> bool {
        a.0 == 1.0
    }
    fn blocking() -> (usize, usize, usize, usize, usize) {
        let (kc, mc, nc) = gemm_params::compute_cache_params_f64();
        (kc, mc, nc, gemm_params::MR_F64, gemm_params::NR_F64)
    }
}

fn w32(v: &[f32]) -> Vec<F32> {
    v.iter().map(|&x| F32(x)).collect()
}

fn w64(v: &[f64]) -> Vec<F64> {
    v.iter().map(|&x| F64(x)).collect()
}

fn assert_close32(actual: f32, expected: f32, epsilon: f32) {
    assert!(
        (actual - expected).abs() <= epsilon,
        "{} differs from {} by more than {}",
        actual,
        expected,
        epsilon
    );
}

fn assert_close64(actual: f64, expected: f64, epsilon: f64) {
    assert!(
        (actual - expected).abs() <= epsilon,
        "{} differs from {} by more than {}",
        actual,
        expected,
        epsilon
    );
}

fn random_f32_vec(len: usize) -> Vec<f32> {
    let mut rng = rand::thread_rng();
    (0..len).map(|_| rng.gen_range(-1.0..1.0)).collect()
}

fn sdot(a: &[f32], b: &[f32]) -> f32 {
    blas::dot(&w32(a), &w32(b)).0
}

/// The dot product in eight scalar accumulators, as a reference.
fn sdot_scalar(a: &[f32], b: &[f32]) -> f32 {
    let mut sums = [0.0f32; 8];
    let len = a.len();
    let upper = len - (len % 8);
    let mut i = 0;
    while i < upper {
        for r in 0..8 {
            sums[r] += a[i + r] * b[i + r];
        }
        i += 8;
    }
    let mut total = sums[0] + sums[1] + sums[2] + sums[3] + sums[4] + sums[5] + sums[6] + sums[7];
    while i < len {
        total += a[i] * b[i];
        i += 1;
    }
    total
}

fn sl2sq(a: &[f32], b: &[f32]) -> f32 {
    blas::l2sq(&w32(a), &w32(b)).0
}

/// The squared distance in eight scalar accumulators, as a reference.
fn sl2sq_scalar(a: &[f32], b: &[f32]) -> f32 {
    let len = a.len();
    if len == 0 {
        return 0.0;
    }
    let mut sums = [0.0f32; 8];
    let upper = len - (len % 8);
    let mut i = 0;
    while i < upper {
        for r in 0..8 {
            let d = a[i + r] - b[i + r];
            sums[r] += d * d;
        }
        i += 8;
    }
    let mut total = sums[0] + sums[1] + sums[2] + sums[3] + sums[4] + sums[5] + sums[6] + sums[7];
    while i < len {
        let d = a[i] - b[i];
        total += d * d;
        i += 1;
    }
    total
}

fn sscale(v: &mut [f32], scale: f32) {
    let mut w = w32(v);
    blas::scale(&mut w, F32(scale));
    for (o, x) in v.iter_mut().zip(w.iter()) {
        *o = x.0;
    }
}

fn dgemv(m: usize, n: usize, alpha: f64, a: &[f64], x: &[f64], beta: f64, y: &mut [f64]) {
    let mut w = w64(y);
    blas::gemv(m, n, F64(alpha), &w64(a), &w64(x), F64(beta), &mut w);
    for (o, v) in y.iter_mut().zip(w.iter()) {
        *o = v.0;
    }
}

fn dgemv_t(m: usize, n: usize, alpha: f64, a: &[f64], x: &[f64], beta: f64, y: &mut [f64]) {
    let mut w = w64(y);
    blas::gemv_t(m, n, F64(alpha), &w64(a), &w64(x), F64(beta), &mut w);
    for (o, v) in y.iter_mut().zip(w.iter()) {
        *o = v.0;
    }
}

fn sgemv(m: usize, n: usize, alpha: f32, a: &[f32], x: &[f32], beta: f32, y: &mut [f32]) {
    let mut w = w32(y);
    blas::gemv(m, n, F32(alpha), &w32(a), &w32(x), F32(beta), &mut w);
    for (o, v) in y.iter_mut().zip(w.iter()) {
        *o = v.0;
    }
}

fn sgemv_t(m: usize, n: usize, alpha: f32, a: &[f32], x: &[f32], beta: f32, y: &mut [f32]) {
    let mut w = w32(y);
    blas::gemv_t(m, n, F32(alpha), &w32(a), &w32(x), F32(beta), &mut w);
    for (o, v) in y.iter_mut().zip(w.iter()) {
        *o = v.0;
    }
}

fn dgemm(m: usize, n: usize, k: usize, alpha: f64, a: &[f64], lda: usize, b: &[f64], ldb: usize, beta: f64, c: &mut [f64], ldc: usize) {
    let mut w = w64(c);
    blas::gemm(m, n, k, F64(alpha), &w64(a), lda, &w64(b), ldb, F64(beta), &mut w, ldc);
    for (o, v) in c.iter_mut().zip(w.iter()) {
        *o = v.0;
    }
}

fn sgemm(m: usize, n: usize, k: usize, alpha: f32, a: &[f32], lda: usize, b: &[f32], ldb: usize, beta: f32, c: &mut [f32], ldc: usize) {
    let mut w = w32(c);
    blas::gemm(m, n, k, F32(alpha), &w32(a), lda, &w32(b), ldb, F32(beta), &mut w, ldc);
    for (o, v) in c.iter_mut().zip(w.iter()) {
        *o = v.0;
    }
}

fn naive_gemm(m: usize, n: usize, k: usize, alpha: f64, a: &[f64], lda: usize, b: &[f64], ldb: usize, beta: f64, c: &mut [f64], ldc: usize) {
    for i in 0..m {
        for j in 0..n {
            let mut sum = 0.0;
            for kk in 0..k {
                sum += a[i * lda + kk] * b[kk * ldb + j];
            }
            c[i * ldc + j] = alpha * sum + beta * c[i * ldc + j];
        }
    }
}

fn naive_gemm_f32(m: usize, n: usize, k: usize, alpha: f32, a: &[f32], lda: usize, b: &[f32], ldb: usize, beta: f32, c: &mut [f32], ldc: usize) {
    for i in 0..m {
        for j in 0..n {
            let mut sum = 0.0;
            for kk in 0..k {
                sum += a[i * lda + kk] * b[kk * ldb + j];
            }
            c[i * ldc + j] = alpha * sum + beta * c[i * ldc + j];
        }
    }
}

fn create_test_matrix(m: usize, n: usize) -> Vec<f64> {
    let mut matrix = vec![0.0; m * n];
    for i in 0..m {
        for j in 0..n {
            matrix[i * n + j] = (i + 1) as f64 * 10.0 + (j + 1) as f64;
        }
    }
    matrix
}

fn create_test_matrix_f32(m: usize, n: usize) -> Vec<f32> {
    let mut matrix = vec![0.0; m * n];
    for i in 0..m {
        for j in 0..n {
            matrix[i * n + j] = (i + 1) as f32 * 10.0 + (j + 1) as f32;
        }
    }
    matrix
}

#[test]
fn test_dot_consistency_small() {
    let a = vec![1.0, 2.0, 3.0];
    let b = vec![4.0, 5.0, 6.0];
    assert_close32(sdot(&a, &b), 32.0, 1e-10);
}

#[test]
fn test_dot_spcialized_agains_general() {
    let a = random_f32_vec(1024);
    let b = random_f32_vec(1024);
    let simd_result = sdot(&a, &b);
    let scalar_result = sdot_scalar(&a, &b);
    assert_close32(simd_result, scalar_result, 1e-5);
}

#[test]
fn test_edge_cases() {
    let zeros = vec![0.0; 100];
    assert_close32(sdot(&zeros, &zeros), 0.0, 1e-10);

    let denormals = vec![f32::MIN_POSITIVE; 100];
    let expected = (f32::MIN_POSITIVE * f32::MIN_POSITIVE) * 100.0;
    assert_close32(sdot(&denormals, &denormals), expected, 1e-10);

    let a = vec![1.0, -1.0, 2.0, -2.0];
    let b = vec![1.0, 1.0, 1.0, 1.0];
    assert_close32(sdot(&a, &b), 0.0, 1e-10);
}

#[test]
fn test_various_lengths() {
    for len in 0..50 {
        let a = random_f32_vec(len);
        let b = random_f32_vec(len);
        let simd_result = sdot(&a, &b);
        let scalar_result = sdot_scalar(&a, &b);
        assert_close32(simd_result, scalar_result, 1e-6);
    }
}

#[test]
fn test_l2sq_consistency_small() {
    let a = vec![1.0f32, 2.0, 3.0];
    let b = vec![4.0f32, 5.0, 6.0];
    assert_close32(sl2sq(&a, &b), 27.0, 1e-6);
}

#[test]
fn test_l2sq_zero_distance() {
    let a = vec![1.0f32, -2.5, 3.14, 0.0];
    assert_close32(sl2sq(&a, &a), 0.0, 1e-7);
    let empty: Vec<f32> = vec![];
    assert_close32(sl2sq(&empty, &empty), 0.0, 1e-7);
}

#[test]
fn test_l2sq_specialized_vs_general() {
    for len in [0, 1, 3, 4, 7, 8, 15, 16, 31, 32, 63, 64, 127, 128, 129, 1000, 1024] {
        let a = random_f32_vec(len);
        let b = random_f32_vec(len);
        let simd_result = sl2sq(&a, &b);
        let scalar_result = sl2sq_scalar(&a, &b);
        let rel_eps = (simd_result.abs() + scalar_result.abs()) * 1e-5 + 1e-4;
        assert!(
            (simd_result - scalar_result).abs() < rel_eps,
            "SIMD and scalar l2sq differ by {} (threshold {})",
            (simd_result - scalar_result).abs(),
            rel_eps
        );
    }
}

#[test]
fn test_scale_basic() {
    let mut v = vec![1.0f32, 2.0, 3.0, 4.0];
    sscale(&mut v, 2.0);
    assert_close32(v[0], 2.0, 1e-6);
    assert_close32(v[1], 4.0, 1e-6);
    assert_close32(v[2], 6.0, 1e-6);
    assert_close32(v[3], 8.0, 1e-6);
}

#[test]
fn test_scale_various_lengths() {
    for len in [0, 1, 3, 7, 15, 16, 17, 31, 32, 33, 100] {
        let mut v = random_f32_vec(len);
        let original = v.clone();
        let scale = 2.5;
        sscale(&mut v, scale);
        for i in 0..len {
            assert_close32(v[i], original[i] * scale, 1e-5);
        }
    }
}

#[test]
fn test_gemm_small() {
    let a = vec![1.0, 2.0, 3.0, 4.0, 5.0, 6.0];
    let b = vec![7.0, 8.0, 9.0, 10.0, 11.0, 12.0];
    let mut c = vec![0.0; 4];
    let mut c_ref = vec![0.0; 4];
    dgemm(2, 2, 3, 1.0, &a, 3, &b, 2, 0.0, &mut c, 2);
    naive_gemm(2, 2, 3, 1.0, &a, 3, &b, 2, 0.0, &mut c_ref, 2);
    for i in 0..4 {
        assert_close64(c[i], c_ref[i], 1e-10);
    }
}

#[test]
fn test_sgemm_small() {
    let a = vec![1.0f32, 2.0, 3.0, 4.0, 5.0, 6.0];
    let b = vec![7.0f32, 8.0, 9.0, 10.0, 11.0, 12.0];
    let mut c = vec![0.0f32; 4];
    let mut c_ref = vec![0.0f32; 4];
    sgemm(2, 2, 3, 1.0, &a, 3, &b, 2, 0.0, &mut c, 2);
    naive_gemm_f32(2, 2, 3, 1.0, &a, 3, &b, 2, 0.0, &mut c_ref, 2);
    for i in 0..4 {
        assert_close32(c[i], c_ref[i], 1e-6);
    }
}

#[test]
fn test_dgemv_basic() {
    let a = vec![1.0, 2.0, 3.0, 4.0, 5.0, 6.0, 7.0, 8.0, 9.0];
    let x = vec![1.0, 2.0, 3.0];
    let mut y = vec![0.0; 3];
    dgemv(3, 3, 1.0, &a, &x, 0.0, &mut y);
    assert_close64(y[0], 14.0, 1e-10);
    assert_close64(y[1], 32.0, 1e-10);
    assert_close64(y[2], 50.0, 1e-10);
}

#[test]
fn test_dgemv_alpha_beta() {
    let a = vec![1.0, 2.0, 3.0, 4.0];
    let x = vec![1.0, 1.0];
    let mut y = vec![1.0, 1.0];
    dgemv(2, 2, 2.0, &a, &x, 3.0, &mut y);
    assert_close64(y[0], 9.0, 1e-10);
    assert_close64(y[1], 17.0, 1e-10);
}

#[test]
fn test_dgemv_t_basic() {
    let a = vec![1.0, 2.0, 3.0, 4.0, 5.0, 6.0, 7.0, 8.0, 9.0];
    let x = vec![1.0, 2.0, 3.0];
    let mut y = vec![0.0; 3];
    dgemv_t(3, 3, 1.0, &a, &x, 0.0, &mut y);
    assert_close64(y[0], 30.0, 1e-10);
    assert_close64(y[1], 36.0, 1e-10);
    assert_close64(y[2], 42.0, 1e-10);
}

#[test]
fn test_sgemv_basic() {
    let a = vec![1.0f32, 2.0, 3.0, 4.0, 5.0, 6.0];
    let x = vec![1.0f32, 1.0, 1.0];
    let mut y = vec![0.0f32; 2];
    sgemv(2, 3, 1.0, &a, &x, 0.0, &mut y);
    assert_close32(y[0], 6.0, 1e-6);
    assert_close32(y[1], 15.0, 1e-6);
}

#[test]
fn test_sgemv_t_basic() {
    let a = vec![1.0f32, 2.0, 3.0, 4.0, 5.0, 6.0];
    let x = vec![1.0f32, 2.0];
    let mut y = vec![0.0f32; 3];
    sgemv_t(2, 3, 1.0, &a, &x, 0.0, &mut y);
    assert_close32(y[0], 9.0, 1e-6);
    assert_close32(y[1], 12.0, 1e-6);
    assert_close32(y[2], 15.0, 1e-6);
}

#[test]
fn test_rectangular_matrices() {
    let a = vec![1.0, 2.0, 3.0, 4.0, 5.0, 6.0, 7.0, 8.0];
    let x = vec![1.0, 1.0];
    let mut y = vec![0.0; 4];
    dgemv(4, 2, 1.0, &a, &x, 0.0, &mut y);
    assert_close64(y[0], 3.0, 1e-10);
    assert_close64(y[1], 7.0, 1e-10);
    assert_close64(y[2], 11.0, 1e-10);
    assert_close64(y[3], 15.0, 1e-10);

    let x_t = vec![1.0, 1.0, 1.0, 1.0];
    let mut y_t = vec![0.0; 2];
    dgemv_t(4, 2, 1.0, &a, &x_t, 0.0, &mut y_t);
    assert_close64(y_t[0], 16.0, 1e-10);
    assert_close64(y_t[1], 20.0, 1e-10);
}

#[test]
fn test_large_matrices() {
    for size in [16, 32, 63, 64, 65, 128, 256].iter() {
        let m = *size;
        let n = *size;
        let a = create_test_matrix(m, n);
        let x = vec![1.0; n];
        let mut y = vec![0.0; m];
        dgemv(m, n, 1.0, &a, &x, 0.0, &mut y);
        for i in 0..m {
            let expected = 10.0 * (i + 1) as f64 * n as f64 + (n * (n + 1) / 2) as f64;
            assert_close64(y[i], expected, 1e-9);
        }
    }
}

#[test]
fn test_transpose_consistency() {
    let m = 37;
    let n = 41;
    let a = create_test_matrix(m, n);

    let x1 = vec![1.0; n];
    let mut y1 = vec![0.0; m];
    dgemv(m, n, 2.5, &a, &x1, 0.0, &mut y1);

    let x2 = vec![1.0; m];
    let mut y2 = vec![0.0; n];
    dgemv_t(m, n, 2.5, &a, &x2, 0.0, &mut y2);

    for i in 0..m {
        let mut sum = 0.0;
        for j in 0..n {
            sum += a[i * n + j];
        }
        assert_close64(y1[i], 2.5 * sum, 1e-9);
    }
    for j in 0..n {
        let mut sum = 0.0;
        for i in 0..m {
            sum += a[i * n + j];
        }
        assert_close64(y2[j], 2.5 * sum, 1e-9);
    }
}

#[test]
fn test_zero_alpha() {
    let a = vec![1.0, 2.0, 3.0, 4.0];
    let x = vec![1.0, 1.0];
    let mut y = vec![5.0, 6.0];
    dgemv(2, 2, 0.0, &a, &x, 2.0, &mut y);
    assert_close64(y[0], 10.0, 1e-10);
    assert_close64(y[1], 12.0, 1e-10);
}

#[test]
fn test_zero_beta() {
    let a = vec![1.0, 2.0, 3.0, 4.0];
    let x = vec![1.0, 1.0];
    let mut y = vec![999.0, 999.0];
    dgemv(2, 2, 1.0, &a, &x, 0.0, &mut y);
    assert_close64(y[0], 3.0, 1e-10);
    assert_close64(y[1], 7.0, 1e-10);
}

#[test]
fn test_f32_precision() {
    let size = 100;
    let a = create_test_matrix_f32(size, size);
    let x = vec![1.0f32; size];
    let mut y = vec![0.0f32; size];
    sgemv(size, size, 1.0, &a, &x, 0.0, &mut y);
    assert_close32(y[0], 6050.0, 1e-3);
    assert_close32(y[50], 56050.0, 1e-2);
}

#[test]
fn readme_examples_on_f64() {
    let a = vec![1.0, 2.0, 3.0];
    let b = vec![4.0, 5.0, 6.0];
    assert_close64(blas::dot(&w64(&a), &w64(&b)).0, 32.0, 1e-12);
    assert_close64(blas::l2(&w64(&a), &w64(&b)).0, 27.0f64.sqrt(), 1e-12);

    let matrix = vec![1.0, 2.0, 3.0, 4.0, 5.0, 6.0];
    let v = vec![1.0, 1.0, 1.0];
    let r: Vec<f64> = blas::matvec(2, 3, &w64(&matrix), &w64(&v)).iter().map(|x| x.0).collect();
    assert_eq!(r, vec![6.0, 15.0]);

    let mut y = vec![10.0, 20.0];
    dgemv(2, 3, 2.0, &matrix, &v, 0.5, &mut y);
    assert_eq!(y, vec![17.0, 40.0]);

    let x2 = vec![1.0, 2.0];
    let mut y2 = vec![5.0, 5.0, 5.0];
    dgemv_t(2, 3, 1.0, &matrix, &x2, 1.0, &mut y2);
    assert_eq!(y2, vec![14.0, 17.0, 20.0]);

    let ma = vec![1.0, 2.0, 3.0, 4.0];
    let mb = vec![5.0, 6.0, 7.0, 8.0];
    let c: Vec<f64> = blas::matmul(2, 2, 2, &w64(&ma), &w64(&mb)).iter().map(|x| x.0).collect();
    assert_eq!(c, vec![19.0, 22.0, 43.0, 50.0]);
    let mut c2 = vec![1.0; 4];
    dgemm(2, 2, 2, 2.0, &ma, 2, &mb, 2, 3.0, &mut c2, 2);
    assert_eq!(c2, vec![41.0, 47.0, 89.0, 103.0]);
}
