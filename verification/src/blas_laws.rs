//! Laws relating the linear-algebra routines to one another.
use vstd::prelude::*;
use crate::blas::{
    Blas,
    strided_dot,
    gemv_spec,
    gemv_t_spec,
    gemm_spec,
    gemm_tn_spec,
    gemm_nt_spec,
    gemm_tt_spec,
    gemm_general_spec,
    gemm_new_entry,
    in_block,
    effective_ldc,
    l2sq_spec,
    l2sq_terms,
    dot_spec,
    dot_terms,
    gemv_t_acc,
    GEMV_BLOCK_ROWS,
    lane_sum,
    lanes_total,
    run_sum,
    eight_lane_sum,
    blocked_acc,
    block_count,
    block_len,
    depth_block,
};

verus! {

/// The row-major `n x m` transpose of the row-major `m x n` matrix `a`.
pub open spec fn transpose_spec<T>(a: Seq<T>, m: int, n: int) -> Seq<T> {
    Seq::new((m * n) as nat, |idx: int| a[(idx % m) * n + idx / m])
}

/// Element `p` of the strided view `x[o], x[o + s], ...`.
pub open spec fn strided_at<T>(x: Seq<T>, o: int, s: int, p: int) -> T {
    x[o + p * s]
}

/// Two strided dot products agree when they read equal elements, pairwise.
pub proof fn lemma_strided_dot_congruent<T: Blas>(
    x1: Seq<T>,
    o1: int,
    s1: int,
    x2: Seq<T>,
    o2: int,
    s2: int,
    y1: Seq<T>,
    p1: int,
    t1: int,
    y2: Seq<T>,
    p2: int,
    t2: int,
    n: int,
)
    requires
        forall|p: int| 0 <= p < n ==> #[trigger] strided_at(x1, o1, s1, p) == strided_at(x2, o2, s2, p),
        forall|p: int| 0 <= p < n ==> #[trigger] strided_at(y1, p1, t1, p) == strided_at(y2, p2, t2, p),
    ensures
        strided_dot(x1, o1, s1, y1, p1, t1, n) == strided_dot(x2, o2, s2, y2, p2, t2, n),
    decreases n,
{
    if n > 0 {
        lemma_strided_dot_congruent(x1, o1, s1, x2, o2, s2, y1, p1, t1, y2, p2, t2, n - 1);
        assert(strided_at(x1, o1, s1, n - 1) == strided_at(x2, o2, s2, n - 1));
        assert(strided_at(y1, p1, t1, n - 1) == strided_at(y2, p2, t2, n - 1));
    }
}

/// Two blocked products of an entry agree when their rows of `op(A)` and
/// columns of `op(B)` read equal elements over the whole inner dimension.
pub proof fn lemma_blocked_acc_congruent<T: Blas>(
    kc: int,
    k: int,
    alpha: T,
    a1: Seq<T>,
    ars1: int,
    aps1: int,
    b1: Seq<T>,
    bps1: int,
    bcs1: int,
    a2: Seq<T>,
    ars2: int,
    aps2: int,
    b2: Seq<T>,
    bps2: int,
    bcs2: int,
    beta: T,
    cv: T,
    i1: int,
    j1: int,
    i2: int,
    j2: int,
    nb: int,
)
    requires
        kc >= 0,
        forall|p: int| 0 <= p < k ==> #[trigger] strided_at(a1, i1 * ars1, aps1, p) == strided_at(a2, i2 * ars2, aps2, p),
        forall|p: int| 0 <= p < k ==> #[trigger] strided_at(b1, j1 * bcs1, bps1, p) == strided_at(b2, j2 * bcs2, bps2, p),
    ensures
        blocked_acc(kc, k, alpha, a1, ars1, aps1, b1, bps1, bcs1, beta, cv, i1, j1, nb) == blocked_acc(
            kc,
            k,
            alpha,
            a2,
            ars2,
            aps2,
            b2,
            bps2,
            bcs2,
            beta,
            cv,
            i2,
            j2,
            nb,
        ),
    decreases nb,
{
    if nb > 0 {
        lemma_blocked_acc_congruent(kc, k, alpha, a1, ars1, aps1, b1, bps1, bcs1, a2, ars2, aps2, b2, bps2, bcs2, beta, cv, i1, j1, i2, j2, nb - 1);
        let p0 = (nb - 1) * kc;
        let len = block_len(k, kc, nb - 1);
        assert(p0 >= 0) by (nonlinear_arith)
            requires
                p0 == (nb - 1) * kc,
                nb >= 1,
                kc >= 0,
        ;
        assert forall|p: int| 0 <= p < len implies #[trigger] strided_at(a1, i1 * ars1 + p0 * aps1, aps1, p)
            == strided_at(a2, i2 * ars2 + p0 * aps2, aps2, p) by {
            assert(strided_at(a1, i1 * ars1, aps1, p0 + p) == strided_at(a2, i2 * ars2, aps2, p0 + p));
            assert(i1 * ars1 + p0 * aps1 + p * aps1 == i1 * ars1 + (p0 + p) * aps1) by (nonlinear_arith);
            assert(i2 * ars2 + p0 * aps2 + p * aps2 == i2 * ars2 + (p0 + p) * aps2) by (nonlinear_arith);
        }
        assert forall|p: int| 0 <= p < len implies #[trigger] strided_at(b1, p0 * bps1 + j1 * bcs1, bps1, p)
            == strided_at(b2, p0 * bps2 + j2 * bcs2, bps2, p) by {
            assert(strided_at(b1, j1 * bcs1, bps1, p0 + p) == strided_at(b2, j2 * bcs2, bps2, p0 + p));
            assert(p0 * bps1 + j1 * bcs1 + p * bps1 == j1 * bcs1 + (p0 + p) * bps1) by (nonlinear_arith);
            assert(p0 * bps2 + j2 * bcs2 + p * bps2 == j2 * bcs2 + (p0 + p) * bps2) by (nonlinear_arith);
        }
        lemma_strided_dot_congruent(
            a1,
            i1 * ars1 + p0 * aps1,
            aps1,
            a2,
            i2 * ars2 + p0 * aps2,
            aps2,
            b1,
            p0 * bps1 + j1 * bcs1,
            bps1,
            b2,
            p0 * bps2 + j2 * bcs2,
            bps2,
            len,
        );
    }
}

pub(crate) proof fn lemma_transpose_entry<T>(a: Seq<T>, m: int, n: int, i: int, j: int)
    requires
        0 <= i < m,
        0 <= j < n,
    ensures
        0 <= j * m + i < m * n,
        transpose_spec(a, m, n)[j * m + i] == a[i * n + j],
{
    vstd::arithmetic::div_mod::lemma_fundamental_div_mod_converse(j * m + i, m, j, i);
    assert(0 <= j * m + i < m * n) by (nonlinear_arith)
        requires
            0 <= i < m,
            0 <= j < n,
    ;
}

/// Multiplying with `A` transposed is multiplying with the transpose of `A`:
/// `gemm_tn(A, B) == gemm(A^T, B)`, with `A` stored `k x m`.
pub proof fn law_gemm_tn_is_gemm_of_transpose<T: Blas>(
    m: int,
    n: int,
    k: int,
    alpha: T,
    a: Seq<T>,
    b: Seq<T>,
    ldb: int,
    beta: T,
    c: Seq<T>,
    ldc: int,
)
    requires
        0 <= m,
        0 <= n,
        0 <= k,
        a.len() == k * m,
    ensures
        gemm_tn_spec(m, n, k, alpha, a, m, b, ldb, beta, c, ldc) == gemm_spec(
            m,
            n,
            k,
            alpha,
            transpose_spec(a, k, m),
            k,
            b,
            ldb,
            beta,
            c,
            ldc,
        ),
{
    let at = transpose_spec(a, k, m);
    let lhs = gemm_tn_spec(m, n, k, alpha, a, m, b, ldb, beta, c, ldc);
    let rhs = gemm_spec(m, n, k, alpha, at, k, b, ldb, beta, c, ldc);
    if lhs != rhs {
        assert forall|idx: int| 0 <= idx < c.len() implies #[trigger] lhs[idx] == rhs[idx] by {
            let ld = effective_ldc(m, n, ldc);
            if in_block(idx, m, n, ld) {
                let i = idx / ld;
                let j = idx % ld;
                assert forall|p: int| 0 <= p < k implies #[trigger] strided_at(a, i * 1, m, p) == strided_at(at, i * k, 1, p) by {
                    lemma_transpose_entry(a, k, m, p, i);
                }
                lemma_blocked_acc_congruent(depth_block::<T>(), k, alpha, a, 1, m, b, ldb, 1, at, k, 1, b, ldb, 1, beta, c[idx], i, j, i, j, block_count(k, depth_block::<T>()));
            }
        }
        assert(lhs =~= rhs);
    }
}

/// Multiplying with `B` transposed is multiplying with the transpose of `B`:
/// `gemm_nt(A, B) == gemm(A, B^T)`, with `B` stored `n x k`.
pub proof fn law_gemm_nt_is_gemm_of_transpose<T: Blas>(
    m: int,
    n: int,
    k: int,
    alpha: T,
    a: Seq<T>,
    lda: int,
    b: Seq<T>,
    beta: T,
    c: Seq<T>,
    ldc: int,
)
    requires
        0 <= m,
        0 <= n,
        0 <= k,
        b.len() == n * k,
    ensures
        gemm_nt_spec(m, n, k, alpha, a, lda, b, k, beta, c, ldc) == gemm_spec(
            m,
            n,
            k,
            alpha,
            a,
            lda,
            transpose_spec(b, n, k),
            n,
            beta,
            c,
            ldc,
        ),
{
    let bt = transpose_spec(b, n, k);
    let lhs = gemm_nt_spec(m, n, k, alpha, a, lda, b, k, beta, c, ldc);
    let rhs = gemm_spec(m, n, k, alpha, a, lda, bt, n, beta, c, ldc);
    if lhs != rhs {
        assert forall|idx: int| 0 <= idx < c.len() implies #[trigger] lhs[idx] == rhs[idx] by {
            let ld = effective_ldc(m, n, ldc);
            if in_block(idx, m, n, ld) {
                let i = idx / ld;
                let j = idx % ld;
                assert forall|p: int| 0 <= p < k implies #[trigger] strided_at(b, j * k, 1, p) == strided_at(bt, j * 1, n, p) by {
                    lemma_transpose_entry(b, n, k, j, p);
                    assert(p * n + j == j * 1 + p * n);
                }
                lemma_blocked_acc_congruent(depth_block::<T>(), k, alpha, a, lda, 1, b, 1, k, a, lda, 1, bt, n, 1, beta, c[idx], i, j, i, j, block_count(k, depth_block::<T>()));
            }
        }
        assert(lhs =~= rhs);
    }
}

/// Multiplying with both operands transposed is multiplying the
/// transposes: `gemm_tt(A, B) == gemm(A^T, B^T)`, with `A` stored `k x m`
/// and `B` stored `n x k`.
pub proof fn law_gemm_tt_is_gemm_of_transposes<T: Blas>(
    m: int,
    n: int,
    k: int,
    alpha: T,
    a: Seq<T>,
    b: Seq<T>,
    beta: T,
    c: Seq<T>,
    ldc: int,
)
    requires
        0 <= m,
        0 <= n,
        0 <= k,
        a.len() == k * m,
        b.len() == n * k,
    ensures
        gemm_tt_spec(m, n, k, alpha, a, m, b, k, beta, c, ldc) == gemm_spec(
            m,
            n,
            k,
            alpha,
            transpose_spec(a, k, m),
            k,
            transpose_spec(b, n, k),
            n,
            beta,
            c,
            ldc,
        ),
{
    let at = transpose_spec(a, k, m);
    let bt = transpose_spec(b, n, k);
    let lhs = gemm_tt_spec(m, n, k, alpha, a, m, b, k, beta, c, ldc);
    let rhs = gemm_spec(m, n, k, alpha, at, k, bt, n, beta, c, ldc);
    if lhs != rhs {
        assert forall|idx: int| 0 <= idx < c.len() implies #[trigger] lhs[idx] == rhs[idx] by {
            let ld = effective_ldc(m, n, ldc);
            if in_block(idx, m, n, ld) {
                let i = idx / ld;
                let j = idx % ld;
                assert forall|p: int| 0 <= p < k implies #[trigger] strided_at(a, i * 1, m, p) == strided_at(at, i * k, 1, p) by {
                    lemma_transpose_entry(a, k, m, p, i);
                }
                assert forall|p: int| 0 <= p < k implies #[trigger] strided_at(b, j * k, 1, p) == strided_at(bt, j * 1, n, p) by {
                    lemma_transpose_entry(b, n, k, j, p);
                    assert(p * n + j == j * 1 + p * n);
                }
                lemma_blocked_acc_congruent(depth_block::<T>(), k, alpha, a, 1, m, b, 1, k, at, k, 1, bt, n, 1, beta, c[idx], i, j, i, j, block_count(k, depth_block::<T>()));
            }
        }
        assert(lhs =~= rhs);
    }
}

/// The dot product is symmetric for every element type whose product
/// commutes: the eight-lane order depends on the length alone.
pub proof fn law_dot_is_symmetric<T: Blas>(a: Seq<T>, b: Seq<T>)
    requires
        a.len() == b.len(),
        forall|x: T, y: T| #[trigger] T::times_v(x, y) == T::times_v(y, x),
    ensures
        dot_spec(a, b) == dot_spec(b, a),
{
    assert(dot_terms(a, 0, b, 0) =~= dot_terms(b, 0, a, 0)) by {
        assert forall|i: int| #[trigger] dot_terms(a, 0, b, 0)(i) == dot_terms(b, 0, a, 0)(i) by {
            assert(T::times_v(a[0 + i], b[0 + i]) == T::times_v(b[0 + i], a[0 + i]));
        }
    }
}

/// On `i64` the dot product is symmetric.
pub proof fn law_dot_is_symmetric_on_i64(a: Seq<i64>, b: Seq<i64>)
    requires
        a.len() == b.len(),
    ensures
        dot_spec(a, b) == dot_spec(b, a),
{
    assert forall|x: i64, y: i64| #[trigger] i64::times_v(x, y) == i64::times_v(y, x) by {
        assert(x * y == y * x) by (nonlinear_arith);
    }
    law_dot_is_symmetric(a, b);
}

/// With `beta` zero the previous contents of `y` do not matter.
pub proof fn law_gemv_zero_beta_ignores_y<T: Blas>(
    m: int,
    n: int,
    alpha: T,
    a: Seq<T>,
    x: Seq<T>,
    beta: T,
    y1: Seq<T>,
    y2: Seq<T>,
)
    requires
        T::is_zero_v(beta),
    ensures
        gemv_spec(m, n, alpha, a, x, beta, y1) == gemv_spec(m, n, alpha, a, x, beta, y2),
        gemv_t_spec(m, n, alpha, a, x, beta, y1) == gemv_t_spec(m, n, alpha, a, x, beta, y2),
{
    assert(gemv_spec(m, n, alpha, a, x, beta, y1) =~= gemv_spec(m, n, alpha, a, x, beta, y2));
    let t1 = gemv_t_spec(m, n, alpha, a, x, beta, y1);
    let t2 = gemv_t_spec(m, n, alpha, a, x, beta, y2);
    assert forall|j: int| 0 <= j < t1.len() implies #[trigger] t1[j] == t2[j] by {
        lemma_gemv_t_acc_zero_beta(alpha, beta, y1[j], y2[j], a, x, m, n, j, block_count(m, GEMV_BLOCK_ROWS as int));
    }
    assert(t1 =~= t2);
}

proof fn lemma_gemv_t_acc_zero_beta<T: Blas>(
    alpha: T,
    beta: T,
    y1: T,
    y2: T,
    a: Seq<T>,
    x: Seq<T>,
    m: int,
    n: int,
    j: int,
    nb: int,
)
    requires
        T::is_zero_v(beta),
    ensures
        gemv_t_acc(alpha, beta, y1, a, x, m, n, j, nb) == gemv_t_acc(alpha, beta, y2, a, x, m, n, j, nb),
    decreases nb,
{
    if nb > 0 {
        lemma_gemv_t_acc_zero_beta(alpha, beta, y1, y2, a, x, m, n, j, nb - 1);
    }
}

/// With `alpha` zero the matrix-vector products only scale `y` by `beta`;
/// on `i64`, entry `i` becomes `y[i] * beta` (wrapping).
pub proof fn law_gemv_zero_alpha_scales_y(
    m: int,
    n: int,
    a: Seq<i64>,
    x: Seq<i64>,
    beta: i64,
    y: Seq<i64>,
)
    requires
        0 <= m,
        y.len() == m,
    ensures
        gemv_spec(m, n, 0i64, a, x, beta, y) == Seq::new(
            m as nat,
            |i: int| i64::times_v(y[i], beta),
        ),
{
    let lhs = gemv_spec(m, n, 0i64, a, x, beta, y);
    let rhs = Seq::new(m as nat, |i: int| i64::times_v(y[i], beta));
    assert forall|i: int| 0 <= i < m implies #[trigger] lhs[i] == rhs[i] by {
        if beta == 0 {
            assert(vstd::wrapping::i64_specs::signed_crop(y[i] * 0) == 0);
        }
        if beta == 1 {
            assert(vstd::wrapping::i64_specs::signed_crop(y[i] * 1) == y[i]) by (nonlinear_arith)
                requires
                    i64::MIN <= y[i] <= i64::MAX,
            ;
        }
    }
    assert(lhs =~= rhs);
}

/// The distance from a vector to itself, squared or not, is zero (on
/// `i64`).
pub proof fn law_l2_to_self_is_zero(a: Seq<i64>)
    ensures
        l2sq_spec(a, a) == 0,
        i64::root_v(l2sq_spec(a, a)) == 0,
{
    let t = l2sq_terms(a, a);
    assert forall|i: int| #[trigger] t(i) == 0i64 by {
        let x = a[i];
        assert(i64::minus_v(x, x) == 0);
        assert(i64::times_v(0i64, 0i64) == 0) by {
            assert(vstd::wrapping::i64_specs::signed_crop(0) == 0);
        }
    }
    lemma_zero_terms_sum_to_zero(t, a.len() as int);
}

/// Terms that are all zero sum to zero in eight lanes (on `i64`).
proof fn lemma_zero_terms_sum_to_zero(t: spec_fn(int) -> i64, n: int)
    requires
        forall|i: int| #[trigger] t(i) == 0i64,
    ensures
        eight_lane_sum(t, n) == 0,
{
    assert(i64::plus_v(0i64, 0i64) == 0);
    assert forall|r: int, q: int| #[trigger] lane_sum(t, r, q) == 0i64 by {
        lemma_zero_lane(t, r, q);
    }
    lemma_zero_run(t, 8 * (n / 8), n);
}

proof fn lemma_zero_lane(t: spec_fn(int) -> i64, r: int, q: int)
    requires
        forall|i: int| #[trigger] t(i) == 0i64,
    ensures
        lane_sum(t, r, q) == 0,
    decreases q,
{
    if q > 0 {
        lemma_zero_lane(t, r, q - 1);
        assert(i64::plus_v(0i64, 0i64) == 0);
        assert(t(8 * (q - 1) + r) == 0);
    }
}

proof fn lemma_zero_run(t: spec_fn(int) -> i64, from: int, to: int)
    requires
        forall|i: int| #[trigger] t(i) == 0i64,
    ensures
        run_sum(t, from, to, 0i64) == 0,
    decreases to - from,
{
    if to > from {
        lemma_zero_run(t, from, to - 1);
        assert(i64::plus_v(0i64, 0i64) == 0);
        assert(t(to - 1) == 0);
    }
}

} // verus!
