//! Laws of the linear-algebra routines on `i64`, whose wrapping arithmetic
//! is arithmetic modulo `2^64`: there every order of summation gives the
//! same result, so routines that sum in different orders agree.
use vstd::prelude::*;
use vstd::wrapping::i64_specs::signed_crop;
use vstd::arithmetic::div_mod::{
    lemma_add_mod_noop,
    lemma_mul_mod_noop_right,
    lemma_mod_twice,
    lemma_small_mod,
    lemma_fundamental_div_mod_converse,
    lemma_mod_bound,
};
use crate::blas::{
    Blas,
    strided_dot,
    dot_spec,
    chunk_value,
    chunks_sum,
    chunked_sum,
    chunked_dot_spec,
    gemm_entry,
    blocked_acc,
    dot_terms,
    lane_sum,
    lanes_total,
    run_sum,
    eight_lane_sum,
    beta_scaled,
    gemv_entry,
    gemv_spec,
    gemv_t_spec,
    gemv_t_acc,
    block_count,
    block_len,
    GEMV_BLOCK_ROWS,
};
use crate::blas_laws::transpose_spec;

verus! {

/// `2^64`, the modulus of `i64` arithmetic.
spec fn modulus() -> int {
    0x1_0000_0000_0000_0000
}

/// The `i64` whose value is congruent to `x` modulo `2^64`.
spec fn crop(x: int) -> i64 {
    signed_crop(x)
}

/// `t(from) + ... + t(to - 1)`, in the integers.
pub open spec fn exact_run(t: spec_fn(int) -> i64, from: int, to: int) -> int
    decreases to - from,
{
    if to <= from {
        0
    } else {
        exact_run(t, from, to - 1) + t(to - 1) as int
    }
}

/// Lane `r` of `q` groups of eight, in the integers.
spec fn exact_lane(t: spec_fn(int) -> i64, r: int, q: int) -> int
    decreases q,
{
    if q <= 0 {
        0
    } else {
        exact_lane(t, r, q - 1) + t(8 * (q - 1) + r) as int
    }
}

proof fn lemma_crop_mod(x: int)
    ensures
        (crop(x) as int) % modulus() == x % modulus(),
{
    let m = modulus();
    lemma_mod_bound(x, m);
    lemma_mod_twice(x, m);
    if x % m > i64::MAX as int {
        lemma_fundamental_div_mod_converse(x % m - m, m, -1, x % m);
    }
}

proof fn lemma_crop_congruent(x: int, y: int)
    requires
        x % modulus() == y % modulus(),
    ensures
        crop(x) == crop(y),
{
}

proof fn lemma_crop_small(x: int)
    requires
        i64::MIN <= x <= i64::MAX,
    ensures
        crop(x) == x,
{
    let m = modulus();
    if x >= 0 {
        lemma_small_mod(x as nat, m as nat);
    } else {
        lemma_fundamental_div_mod_converse(x, m, -1, x + m);
    }
}

/// `crop(crop(x) + crop(y)) == crop(x + y)`.
proof fn lemma_crop_add(x: int, y: int)
    ensures
        crop(crop(x) + crop(y)) == crop(x + y),
{
    let m = modulus();
    lemma_crop_mod(x);
    lemma_crop_mod(y);
    lemma_add_mod_noop(crop(x) as int, crop(y) as int, m);
    lemma_add_mod_noop(x, y, m);
    lemma_crop_congruent(crop(x) + crop(y), x + y);
}

/// `crop(a * crop(x)) == crop(a * x)`.
proof fn lemma_crop_mul(a: int, x: int)
    ensures
        crop(a * crop(x)) == crop(a * x),
{
    let m = modulus();
    lemma_crop_mod(x);
    lemma_mul_mod_noop_right(a, crop(x) as int, m);
    lemma_mul_mod_noop_right(a, x, m);
    lemma_crop_congruent(a * crop(x), a * x);
}

/// Wrapping addition of `i64`s is cropped addition.
proof fn lemma_plus(p: i64, q: i64)
    ensures
        i64::plus_v(p, q) == crop(p + q),
{
    let m = modulus();
    let s = p + q;
    if s > i64::MAX {
        lemma_crop_small(s - m);
        lemma_fundamental_div_mod_converse(s, m, 0, s);
        lemma_fundamental_div_mod_converse(s - m, m, -1, s);
        lemma_crop_congruent(s - m, s);
    } else if s < i64::MIN {
        lemma_crop_small(s + m);
        lemma_fundamental_div_mod_converse(s, m, -1, s + m);
        lemma_fundamental_div_mod_converse(s + m, m, 0, s + m);
        lemma_crop_congruent(s + m, s);
    } else {
        lemma_crop_small(s);
    }
}

/// Cropped sums absorb cropped terms: `crop(X) + t` cropped is
/// `crop(X + t)`.
proof fn lemma_plus_crop(x: int, t: i64)
    ensures
        i64::plus_v(crop(x), t) == crop(x + t),
{
    lemma_plus(crop(x), t);
    lemma_crop_small(t as int);
    lemma_crop_add(x, t as int);
}

proof fn lemma_lane(t: spec_fn(int) -> i64, r: int, q: int)
    ensures
        lane_sum(t, r, q) == crop(exact_lane(t, r, q)),
    decreases q,
{
    if q <= 0 {
        lemma_crop_small(0);
    } else {
        lemma_lane(t, r, q - 1);
        lemma_plus_crop(exact_lane(t, r, q - 1), t(8 * (q - 1) + r));
    }
}

proof fn lemma_lanes_exact(t: spec_fn(int) -> i64, q: int)
    requires
        q >= 0,
    ensures
        exact_lane(t, 0, q) + exact_lane(t, 1, q) + exact_lane(t, 2, q) + exact_lane(t, 3, q)
            + exact_lane(t, 4, q) + exact_lane(t, 5, q) + exact_lane(t, 6, q) + exact_lane(t, 7, q)
            == exact_run(t, 0, 8 * q),
    decreases q,
{
    if q > 0 {
        lemma_lanes_exact(t, q - 1);
        let b = 8 * (q - 1);
        assert(exact_run(t, 0, b + 8) == exact_run(t, 0, b) + t(b) + t(b + 1) + t(b + 2) + t(b + 3)
            + t(b + 4) + t(b + 5) + t(b + 6) + t(b + 7)) by {
            assert(exact_run(t, 0, b + 1) == exact_run(t, 0, b) + t(b));
            assert(exact_run(t, 0, b + 2) == exact_run(t, 0, b + 1) + t(b + 1));
            assert(exact_run(t, 0, b + 3) == exact_run(t, 0, b + 2) + t(b + 2));
            assert(exact_run(t, 0, b + 4) == exact_run(t, 0, b + 3) + t(b + 3));
            assert(exact_run(t, 0, b + 5) == exact_run(t, 0, b + 4) + t(b + 4));
            assert(exact_run(t, 0, b + 6) == exact_run(t, 0, b + 5) + t(b + 5));
            assert(exact_run(t, 0, b + 7) == exact_run(t, 0, b + 6) + t(b + 6));
            assert(exact_run(t, 0, b + 8) == exact_run(t, 0, b + 7) + t(b + 7));
        }
        assert(8 * q == b + 8);
    }
}

/// Wrapping addition of two cropped values is the cropped sum.
proof fn lemma_plus_crops(x: int, y: int)
    ensures
        i64::plus_v(crop(x), crop(y)) == crop(x + y),
{
    lemma_plus(crop(x), crop(y));
    lemma_crop_add(x, y);
}

proof fn lemma_lanes_total(t: spec_fn(int) -> i64, q: int)
    requires
        q >= 0,
    ensures
        lanes_total(t, q) == crop(exact_run(t, 0, 8 * q)),
{
    let e0 = exact_lane(t, 0, q);
    let e1 = exact_lane(t, 1, q);
    let e2 = exact_lane(t, 2, q);
    let e3 = exact_lane(t, 3, q);
    let e4 = exact_lane(t, 4, q);
    let e5 = exact_lane(t, 5, q);
    let e6 = exact_lane(t, 6, q);
    let e7 = exact_lane(t, 7, q);
    lemma_lane(t, 0, q);
    lemma_lane(t, 1, q);
    lemma_lane(t, 2, q);
    lemma_lane(t, 3, q);
    lemma_lane(t, 4, q);
    lemma_lane(t, 5, q);
    lemma_lane(t, 6, q);
    lemma_lane(t, 7, q);
    let p1 = i64::plus_v(lane_sum(t, 0, q), lane_sum(t, 1, q));
    assert(p1 == crop(e0 + e1)) by {
        lemma_plus_crops(e0, e1);
    }
    let p2 = i64::plus_v(p1, lane_sum(t, 2, q));
    assert(p2 == crop(e0 + e1 + e2)) by {
        lemma_plus_crops(e0 + e1, e2);
    }
    let p3 = i64::plus_v(p2, lane_sum(t, 3, q));
    assert(p3 == crop(e0 + e1 + e2 + e3)) by {
        lemma_plus_crops(e0 + e1 + e2, e3);
    }
    let p4 = i64::plus_v(p3, lane_sum(t, 4, q));
    assert(p4 == crop(e0 + e1 + e2 + e3 + e4)) by {
        lemma_plus_crops(e0 + e1 + e2 + e3, e4);
    }
    let p5 = i64::plus_v(p4, lane_sum(t, 5, q));
    assert(p5 == crop(e0 + e1 + e2 + e3 + e4 + e5)) by {
        lemma_plus_crops(e0 + e1 + e2 + e3 + e4, e5);
    }
    let p6 = i64::plus_v(p5, lane_sum(t, 6, q));
    assert(p6 == crop(e0 + e1 + e2 + e3 + e4 + e5 + e6)) by {
        lemma_plus_crops(e0 + e1 + e2 + e3 + e4 + e5, e6);
    }
    let p7 = i64::plus_v(p6, lane_sum(t, 7, q));
    assert(p7 == crop(e0 + e1 + e2 + e3 + e4 + e5 + e6 + e7)) by {
        lemma_plus_crops(e0 + e1 + e2 + e3 + e4 + e5 + e6, e7);
    }
    assert(lanes_total(t, q) == p7);
    lemma_lanes_exact(t, q);
}

proof fn lemma_run(t: spec_fn(int) -> i64, from: int, to: int, x: int)
    ensures
        run_sum(t, from, to, crop(x)) == crop(x + exact_run(t, from, to)),
    decreases to - from,
{
    if to > from {
        lemma_run(t, from, to - 1, x);
        lemma_plus_crop(x + exact_run(t, from, to - 1), t(to - 1));
    }
}

proof fn lemma_exact_run_split(t: spec_fn(int) -> i64, from: int, mid: int, to: int)
    requires
        from <= mid <= to,
    ensures
        exact_run(t, from, mid) + exact_run(t, mid, to) == exact_run(t, from, to),
    decreases to - mid,
{
    if to > mid {
        lemma_exact_run_split(t, from, mid, to - 1);
    }
}

/// An eight-lane sum of `i64`s is the cropped exact sum.
proof fn lemma_eight_lane(t: spec_fn(int) -> i64, n: int)
    requires
        n >= 0,
    ensures
        eight_lane_sum(t, n) == crop(exact_run(t, 0, n)),
{
    let q = n / 8;
    assert(0 <= 8 * q <= n) by (nonlinear_arith)
        requires
            q == n / 8,
            n >= 0,
    {
        vstd::arithmetic::div_mod::lemma_fundamental_div_mod(n, 8);
    }
    lemma_lanes_total(t, q);
    lemma_run(t, 8 * q, n, exact_run(t, 0, 8 * q));
    lemma_exact_run_split(t, 0, 8 * q, n);
}

/// Two runs over terms that agree pointwise, shifted by `d`, are equal.
proof fn lemma_exact_run_shift(t1: spec_fn(int) -> i64, t2: spec_fn(int) -> i64, from: int, to: int, d: int)
    requires
        forall|i: int| from <= i < to ==> #[trigger] t1(i) == t2(i + d),
    ensures
        exact_run(t1, from, to) == exact_run(t2, from + d, to + d),
    decreases to - from,
{
    if to > from {
        lemma_exact_run_shift(t1, t2, from, to - 1, d);
        assert(t1(to - 1) == t2(to - 1 + d));
    }
}

/// The terms `a[i*n + j] * x[i]` of column `j` of `A^T x`.
spec fn column_terms(a: Seq<i64>, x: Seq<i64>, n: int, j: int) -> spec_fn(int) -> i64 {
    |i: int| i64::times_v(a[i * n + j], x[i])
}

/// A strided dot product of `i64`s is the cropped exact sum of its terms.
proof fn lemma_strided_dot(a: Seq<i64>, x: Seq<i64>, n: int, j: int, i0: int, len: int)
    requires
        len >= 0,
    ensures
        strided_dot(a, i0 * n + j, n, x, i0, 1, len) == crop(exact_run(column_terms(a, x, n, j), i0, i0 + len)),
    decreases len,
{
    let t = column_terms(a, x, n, j);
    if len == 0 {
        lemma_crop_small(0);
    } else {
        lemma_strided_dot(a, x, n, j, i0, len - 1);
        assert(i0 * n + j + (len - 1) * n == (i0 + len - 1) * n + j) by (nonlinear_arith);
        assert(t(i0 + len - 1) == i64::times_v(a[i0 * n + j + (len - 1) * n], x[i0 + (len - 1) * 1]));
        lemma_plus_crop(exact_run(t, i0, i0 + len - 1), t(i0 + len - 1));
    }
}

/// After `nb` blocks of rows, entry `j` of the transposed product is the
/// cropped exact value.
proof fn lemma_gemv_t_acc(alpha: i64, beta: i64, yj: i64, a: Seq<i64>, x: Seq<i64>, m: int, n: int, j: int, nb: int)
    requires
        0 <= nb <= block_count(m, GEMV_BLOCK_ROWS as int),
    ensures
        gemv_t_acc(alpha, beta, yj, a, x, m, n, j, nb) == crop(
            beta_scaled(yj, beta) + alpha * exact_run(
                column_terms(a, x, n, j),
                0,
                if nb * GEMV_BLOCK_ROWS < m {
                    nb * GEMV_BLOCK_ROWS
                } else {
                    m
                },
            ),
        ),
    decreases nb,
{
    let t = column_terms(a, x, n, j);
    let bs = beta_scaled(yj, beta);
    let w = GEMV_BLOCK_ROWS as int;
    if nb == 0 {
        lemma_crop_small(bs as int);
        let rows = if nb * GEMV_BLOCK_ROWS < m {
            nb * GEMV_BLOCK_ROWS
        } else {
            m
        };
        assert(rows <= 0);
        assert(exact_run(t, 0, rows) == 0);
        assert(alpha * exact_run(t, 0, rows) == 0);
    } else {
        lemma_gemv_t_acc(alpha, beta, yj, a, x, m, n, j, nb - 1);
        let i0 = (nb - 1) * w;
        let prev = if (nb - 1) * w < m {
            (nb - 1) * w
        } else {
            m
        };
        // The block starts below `m`: `nb` is at most the number of blocks.
        assert(i0 < m) by {
            vstd::arithmetic::div_mod::lemma_fundamental_div_mod(m + w - 1, w);
            assert(m > 0);
            assert((nb - 1) * w < m) by (nonlinear_arith)
                requires
                    nb <= (m + w - 1) / w,
                    m + w - 1 == w * ((m + w - 1) / w) + (m + w - 1) % w,
                    0 <= (m + w - 1) % w,
                    w == 64,
            ;
        }
        assert(prev == i0);
        let len = block_len(m, w, nb - 1);
        assert(i0 + len == if nb * w < m {
            nb * w
        } else {
            m
        });
        lemma_strided_dot(a, x, n, j, i0, len);
        let e_prev = bs + alpha * exact_run(t, 0, i0);
        let s = exact_run(t, i0, i0 + len);
        let sd = strided_dot(a, i0 * n + j, n, x, i0, 1, len);
        assert(gemv_t_acc(alpha, beta, yj, a, x, m, n, j, nb) == i64::plus_v(
            gemv_t_acc(alpha, beta, yj, a, x, m, n, j, nb - 1),
            i64::times_v(alpha, sd),
        ));
        assert(gemv_t_acc(alpha, beta, yj, a, x, m, n, j, nb - 1) == crop(e_prev));
        assert(sd == crop(s));
        assert(i64::times_v(alpha, sd) == crop(alpha * s)) by {
            lemma_crop_mul(alpha as int, s);
            assert(i64::times_v(alpha, crop(s)) == crop(alpha * crop(s)));
        }
        lemma_plus_crops(e_prev, alpha * s);
        assert(gemv_t_acc(alpha, beta, yj, a, x, m, n, j, nb) == crop(e_prev + alpha * s));
        lemma_exact_run_split(t, 0, i0, i0 + len);
        assert(e_prev + alpha * s == bs + alpha * exact_run(t, 0, i0 + len)) by (nonlinear_arith)
            requires
                e_prev == bs + alpha * exact_run(t, 0, i0),
                s == exact_run(t, i0, i0 + len),
                exact_run(t, 0, i0) + s == exact_run(t, 0, i0 + len),
        ;
    }
}

/// On `i64`, the transposed matrix-vector product is the plain product with
/// the transposed matrix: `gemv_t(A) == gemv(A^T)`, though the two sum their
/// terms in different orders.
pub proof fn law_gemv_t_is_gemv_of_transpose(
    m: int,
    n: int,
    alpha: i64,
    a: Seq<i64>,
    x: Seq<i64>,
    beta: i64,
    y: Seq<i64>,
)
    requires
        0 <= m,
        0 <= n,
        a.len() == m * n,
    ensures
        gemv_t_spec(m, n, alpha, a, x, beta, y) == gemv_spec(
            n,
            m,
            alpha,
            transpose_spec(a, m, n),
            x,
            beta,
            y,
        ),
{
    let at = transpose_spec(a, m, n);
    let lhs = gemv_t_spec(m, n, alpha, a, x, beta, y);
    let rhs = gemv_spec(n, m, alpha, at, x, beta, y);
    assert forall|j: int| 0 <= j < n implies #[trigger] lhs[j] == rhs[j] by {
        if alpha != 0 {
            let t = column_terms(a, x, n, j);
            let u = dot_terms(at, j * m, x, 0);
            let bc = block_count(m, GEMV_BLOCK_ROWS as int);
            assert(0 <= bc);
            lemma_gemv_t_acc(alpha, beta, y[j], a, x, m, n, j, bc);
            assert((if bc * GEMV_BLOCK_ROWS < m {
                bc * GEMV_BLOCK_ROWS
            } else {
                m
            }) == m) by {
                if m > 0 {
                    let w = GEMV_BLOCK_ROWS as int;
                    vstd::arithmetic::div_mod::lemma_fundamental_div_mod(m + w - 1, w);
                    assert(bc * w >= m) by (nonlinear_arith)
                        requires
                            bc == (m + w - 1) / w,
                            m + w - 1 == w * ((m + w - 1) / w) + (m + w - 1) % w,
                            (m + w - 1) % w < w,
                            w == 64,
                    ;
                }
            }
            assert forall|i: int| 0 <= i < m implies #[trigger] u(i) == t(i + 0) by {
                crate::blas_laws::lemma_transpose_entry(a, m, n, i, j);
            }
            lemma_exact_run_shift(u, t, 0, m, 0);
            lemma_eight_lane(u, m);
            lemma_crop_mul(alpha as int, exact_run(u, 0, m));
            let bs = beta_scaled(y[j], beta);
            lemma_plus(bs, crop(alpha * exact_run(u, 0, m)));
            lemma_crop_small(bs as int);
            lemma_crop_add(bs as int, alpha * exact_run(u, 0, m));
        }
    }
    assert(lhs =~= rhs);
}

/// The terms `x[xo + p * xs] * y[yo + p * ys]` of a strided dot product.
pub open spec fn strided_terms(x: Seq<i64>, xo: int, xs: int, y: Seq<i64>, yo: int, ys: int) -> spec_fn(int) -> i64 {
    |p: int| i64::times_v(x[xo + p * xs], y[yo + p * ys])
}

proof fn lemma_strided(x: Seq<i64>, xo: int, xs: int, y: Seq<i64>, yo: int, ys: int, n: int)
    requires
        n >= 0,
    ensures
        strided_dot(x, xo, xs, y, yo, ys, n) == crop(exact_run(strided_terms(x, xo, xs, y, yo, ys), 0, n)),
    decreases n,
{
    if n == 0 {
        lemma_crop_small(0);
    } else {
        lemma_strided(x, xo, xs, y, yo, ys, n - 1);
        let t = strided_terms(x, xo, xs, y, yo, ys);
        lemma_plus_crop(exact_run(t, 0, n - 1), t(n - 1));
    }
}

/// On `i64` the eight-lane dot product is the sum of the wrapped products,
/// wrapped: the order of summation does not matter.
pub proof fn law_dot_is_the_wrapped_sum(a: Seq<i64>, b: Seq<i64>)
    ensures
        dot_spec(a, b) == signed_crop(exact_run(dot_terms(a, 0, b, 0), 0, a.len() as int)),
{
    lemma_eight_lane(dot_terms(a, 0, b, 0), a.len() as int);
}

/// The entries of `op(A) * op(B)` summed by blocks, in the integers: after
/// `nb` blocks of `kc`, `alpha * (the first min(nb * kc, k) terms) + beta * cv`.
proof fn lemma_blocked(
    kc: int,
    k: int,
    alpha: i64,
    a: Seq<i64>,
    ars: int,
    aps: int,
    b: Seq<i64>,
    bps: int,
    bcs: int,
    beta: i64,
    cv: i64,
    i: int,
    j: int,
    nb: int,
)
    requires
        kc > 0,
        1 <= nb,
        (nb - 1) * kc < k,
    ensures
        blocked_acc(kc, k, alpha, a, ars, aps, b, bps, bcs, beta, cv, i, j, nb) == crop(
            alpha * exact_run(
                strided_terms(a, i * ars, aps, b, j * bcs, bps),
                0,
                if nb * kc < k {
                    nb * kc
                } else {
                    k
                },
            ) + beta * cv,
        ),
    decreases nb,
{
    let t = strided_terms(a, i * ars, aps, b, j * bcs, bps);
    let p0 = (nb - 1) * kc;
    let len = block_len(k, kc, nb - 1);
    let u = strided_terms(a, i * ars + p0 * aps, aps, b, p0 * bps + j * bcs, bps);
    assert(0 <= p0) by (nonlinear_arith)
        requires
            p0 == (nb - 1) * kc,
            nb >= 1,
            kc > 0,
    ;
    assert(p0 + len == if nb * kc < k {
        nb * kc
    } else {
        k
    }) by (nonlinear_arith)
        requires
            p0 == (nb - 1) * kc,
            len == if k - (nb - 1) * kc < kc {
                k - (nb - 1) * kc
            } else {
                kc
            },
    ;
    assert forall|p: int| 0 <= p < len implies #[trigger] u(p) == t(p + p0) by {
        assert(i * ars + p0 * aps + p * aps == i * ars + (p + p0) * aps) by (nonlinear_arith);
        assert(p0 * bps + j * bcs + p * bps == j * bcs + (p + p0) * bps) by (nonlinear_arith);
    }
    lemma_exact_run_shift(u, t, 0, len, p0);
    lemma_strided(a, i * ars + p0 * aps, aps, b, p0 * bps + j * bcs, bps, len);
    let s = exact_run(u, 0, len);
    let sd = strided_dot(a, i * ars + p0 * aps, aps, b, p0 * bps + j * bcs, bps, len);
    assert(sd == crop(s));
    assert(i64::times_v(alpha, sd) == crop(alpha * s)) by {
        lemma_crop_mul(alpha as int, s);
    }
    if nb == 1 {
        assert(p0 == 0) by (nonlinear_arith)
            requires
                p0 == (nb - 1) * kc,
                nb == 1,
        ;
        lemma_crop_small(0);
        assert(i64::times_v(beta, cv) == crop(beta * cv));
        lemma_plus_crops(alpha * s, beta * cv);
        assert(blocked_acc(kc, k, alpha, a, ars, aps, b, bps, bcs, beta, cv, i, j, nb - 1) == cv);
        assert(blocked_acc(kc, k, alpha, a, ars, aps, b, bps, bcs, beta, cv, i, j, nb) == gemm_entry(alpha, beta, cv, sd));
        assert(exact_run(t, 0, p0 + len) == s);
        assert(blocked_acc(kc, k, alpha, a, ars, aps, b, bps, bcs, beta, cv, i, j, nb) == crop(alpha * exact_run(t, 0, p0 + len) + beta * cv));
    } else {
        assert((nb - 1 - 1) * kc < k) by (nonlinear_arith)
            requires
                (nb - 1) * kc < k,
                kc > 0,
        ;
        lemma_blocked(kc, k, alpha, a, ars, aps, b, bps, bcs, beta, cv, i, j, nb - 1);
        let prev = blocked_acc(kc, k, alpha, a, ars, aps, b, bps, bcs, beta, cv, i, j, nb - 1);
        let e_prev = alpha * exact_run(t, 0, p0) + beta * cv;
        assert(prev == crop(e_prev)) by {
            assert((if (nb - 1) * kc < k {
                (nb - 1) * kc
            } else {
                k
            }) == p0);
        }
        assert(i64::times_v(1i64, prev) == prev) by {
            lemma_crop_small(prev as int);
        }
        lemma_crop_small(prev as int);
        lemma_plus_crops(alpha * s, e_prev);
        lemma_exact_run_split(t, 0, p0, p0 + len);
        assert(alpha * s + e_prev == alpha * exact_run(t, 0, p0 + len) + beta * cv) by (nonlinear_arith)
            requires
                e_prev == alpha * exact_run(t, 0, p0) + beta * cv,
                s == exact_run(t, p0, p0 + len),
                exact_run(t, 0, p0) + s == exact_run(t, 0, p0 + len),
        ;
        assert(blocked_acc(kc, k, alpha, a, ars, aps, b, bps, bcs, beta, cv, i, j, nb) == gemm_entry(alpha, 1i64, prev, sd));
        assert(blocked_acc(kc, k, alpha, a, ars, aps, b, bps, bcs, beta, cv, i, j, nb) == crop(alpha * exact_run(t, 0, p0 + len) + beta * cv));
    }
}

/// On `i64` the blocked matrix product computes `alpha * (row i . column j)
/// + beta * C(i, j)` of the wrapped products, wrapped: the blocking does not
/// change the result.
pub proof fn law_blocked_product_is_the_wrapped_product(
    kc: int,
    k: int,
    alpha: i64,
    a: Seq<i64>,
    ars: int,
    aps: int,
    b: Seq<i64>,
    bps: int,
    bcs: int,
    beta: i64,
    cv: i64,
    i: int,
    j: int,
)
    requires
        kc > 0,
        k > 0,
    ensures
        blocked_acc(kc, k, alpha, a, ars, aps, b, bps, bcs, beta, cv, i, j, block_count(k, kc))
            == signed_crop(
            alpha * exact_run(strided_terms(a, i * ars, aps, b, j * bcs, bps), 0, k) + beta * cv,
        ),
{
    let bc = block_count(k, kc);
    vstd::arithmetic::div_mod::lemma_fundamental_div_mod(k + kc - 1, kc);
    assert(1 <= bc && (bc - 1) * kc < k && bc * kc >= k) by (nonlinear_arith)
        requires
            bc == (k + kc - 1) / kc,
            k + kc - 1 == kc * ((k + kc - 1) / kc) + (k + kc - 1) % kc,
            0 <= (k + kc - 1) % kc < kc,
            k > 0,
            kc > 0,
    ;
    lemma_blocked(kc, k, alpha, a, ars, aps, b, bps, bcs, beta, cv, i, j, bc);
}

proof fn lemma_chunks(t: spec_fn(int) -> i64, q: int)
    requires
        q >= 0,
    ensures
        chunks_sum(t, q) == crop(exact_run(t, 0, 8 * q)),
    decreases q,
{
    if q == 0 {
        lemma_crop_small(0);
    } else {
        lemma_chunks(t, q - 1);
        let b = 8 * (q - 1);
        let e = exact_run(t, 0, b);
        lemma_crop_small(t(b) as int);
        lemma_crop_small(t(b + 1) as int);
        lemma_crop_small(t(b + 2) as int);
        lemma_crop_small(t(b + 3) as int);
        lemma_crop_small(t(b + 4) as int);
        lemma_crop_small(t(b + 5) as int);
        lemma_crop_small(t(b + 6) as int);
        lemma_crop_small(t(b + 7) as int);
        let c1 = i64::plus_v(t(b), t(b + 1));
        assert(c1 == crop(t(b) + t(b + 1))) by {
            lemma_plus(t(b), t(b + 1));
        }
        let c2 = i64::plus_v(c1, t(b + 2));
        assert(c2 == crop(t(b) + t(b + 1) + t(b + 2))) by {
            lemma_plus_crop(t(b) + t(b + 1), t(b + 2));
        }
        let c3 = i64::plus_v(c2, t(b + 3));
        assert(c3 == crop(t(b) + t(b + 1) + t(b + 2) + t(b + 3))) by {
            lemma_plus_crop(t(b) + t(b + 1) + t(b + 2), t(b + 3));
        }
        let c4 = i64::plus_v(c3, t(b + 4));
        assert(c4 == crop(t(b) + t(b + 1) + t(b + 2) + t(b + 3) + t(b + 4))) by {
            lemma_plus_crop(t(b) + t(b + 1) + t(b + 2) + t(b + 3), t(b + 4));
        }
        let c5 = i64::plus_v(c4, t(b + 5));
        assert(c5 == crop(t(b) + t(b + 1) + t(b + 2) + t(b + 3) + t(b + 4) + t(b + 5))) by {
            lemma_plus_crop(t(b) + t(b + 1) + t(b + 2) + t(b + 3) + t(b + 4), t(b + 5));
        }
        let c6 = i64::plus_v(c5, t(b + 6));
        assert(c6 == crop(t(b) + t(b + 1) + t(b + 2) + t(b + 3) + t(b + 4) + t(b + 5) + t(b + 6))) by {
            lemma_plus_crop(t(b) + t(b + 1) + t(b + 2) + t(b + 3) + t(b + 4) + t(b + 5), t(b + 6));
        }
        let c7 = i64::plus_v(c6, t(b + 7));
        let g = t(b) + t(b + 1) + t(b + 2) + t(b + 3) + t(b + 4) + t(b + 5) + t(b + 6) + t(b + 7);
        assert(c7 == crop(g)) by {
            lemma_plus_crop(t(b) + t(b + 1) + t(b + 2) + t(b + 3) + t(b + 4) + t(b + 5) + t(b + 6), t(b + 7));
        }
        assert(chunk_value(t, q - 1) == c7);
        lemma_plus_crops(e, g);
        assert(exact_run(t, 0, b + 8) == e + g) by {
            assert(exact_run(t, 0, b + 1) == e + t(b));
            assert(exact_run(t, 0, b + 2) == exact_run(t, 0, b + 1) + t(b + 1));
            assert(exact_run(t, 0, b + 3) == exact_run(t, 0, b + 2) + t(b + 2));
            assert(exact_run(t, 0, b + 4) == exact_run(t, 0, b + 3) + t(b + 3));
            assert(exact_run(t, 0, b + 5) == exact_run(t, 0, b + 4) + t(b + 4));
            assert(exact_run(t, 0, b + 6) == exact_run(t, 0, b + 5) + t(b + 5));
            assert(exact_run(t, 0, b + 7) == exact_run(t, 0, b + 6) + t(b + 6));
            assert(exact_run(t, 0, b + 8) == exact_run(t, 0, b + 7) + t(b + 7));
        }
        assert(8 * q == b + 8);
    }
}

/// On `i64` the group-by-group dot product is the sum of the wrapped
/// products, wrapped, as the eight-lane one is: the two dot products agree
/// on vectors of equal length.
pub proof fn law_chunked_dot_is_the_wrapped_sum(x: Seq<i64>, y: Seq<i64>)
    ensures
        chunked_dot_spec(x, y) == signed_crop(
            exact_run(
                dot_terms(x, 0, y, 0),
                0,
                if x.len() < y.len() {
                    x.len() as int
                } else {
                    y.len() as int
                },
            ),
        ),
        x.len() == y.len() ==> chunked_dot_spec(x, y) == dot_spec(x, y),
{
    let t = dot_terms(x, 0, y, 0);
    let n = if x.len() < y.len() {
        x.len() as int
    } else {
        y.len() as int
    };
    let q = n / 8;
    assert(0 <= 8 * q <= n) by (nonlinear_arith)
        requires
            q == n / 8,
            n >= 0,
    {
        vstd::arithmetic::div_mod::lemma_fundamental_div_mod(n, 8);
    }
    lemma_chunks(t, q);
    lemma_run(t, 8 * q, n, exact_run(t, 0, 8 * q));
    lemma_exact_run_split(t, 0, 8 * q, n);
    law_dot_is_the_wrapped_sum(x, y);
}

} // verus!
