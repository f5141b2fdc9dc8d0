use vstd::prelude::*;

verus! {

/// The element type of the linear-algebra routines.
///
/// The routines never assume more of an element type than the primitive
/// operations below; their contracts say exactly which operations are
/// applied to which values, and in which order.
pub trait Blas: Sized + Copy {
    spec fn zero_v() -> Self;

    spec fn one_v() -> Self;

    spec fn plus_v(a: Self, b: Self) -> Self;

    spec fn minus_v(a: Self, b: Self) -> Self;

    spec fn times_v(a: Self, b: Self) -> Self;

    spec fn root_v(a: Self) -> Self;

    spec fn is_zero_v(a: Self) -> bool;

    spec fn is_one_v(a: Self) -> bool;

    fn zero() -> (r: Self)
        ensures
            r == Self::zero_v(),
    ;

    fn one() -> (r: Self)
        ensures
            r == Self::one_v(),
    ;

    fn plus(a: Self, b: Self) -> (r: Self)
        ensures
            r == Self::plus_v(a, b),
    ;

    fn minus(a: Self, b: Self) -> (r: Self)
        ensures
            r == Self::minus_v(a, b),
    ;

    fn times(a: Self, b: Self) -> (r: Self)
        ensures
            r == Self::times_v(a, b),
    ;

    fn root(a: Self) -> (r: Self)
        ensures
            r == Self::root_v(a),
    ;

    fn is_zero(a: Self) -> (r: bool)
        ensures
            r == Self::is_zero_v(a),
    ;

    fn is_one(a: Self) -> (r: bool)
        ensures
            r == Self::is_one_v(a),
    ;

    /// The block sizes of the blocked matrix products, `(kc, mc, nc, mr,
    /// nr)`: the inner dimension is walked in blocks of `kc`, the result in
    /// blocks of `mc` rows and `nc` columns, and the kernel computes tiles
    /// of `mr x nr` entries.
    spec fn blocking_v() -> (usize, usize, usize, usize, usize);

    fn blocking() -> (r: (usize, usize, usize, usize, usize))
        ensures
            r == Self::blocking_v(),
            0 < r.0 <= 4096,
            0 < r.1 <= 4096,
            0 < r.2 <= 4096,
            0 < r.3 <= 64,
            0 < r.4 <= 64,
    ;
}

/// `sum_{p < n} x[xo + p*xs] * y[yo + p*ys]`, accumulated from zero in
/// increasing `p`.
pub open spec fn strided_dot<T: Blas>(
    x: Seq<T>,
    xo: int,
    xs: int,
    y: Seq<T>,
    yo: int,
    ys: int,
    n: int,
) -> T
    decreases n,
{
    if n <= 0 {
        T::zero_v()
    } else {
        T::plus_v(
            strided_dot(x, xo, xs, y, yo, ys, n - 1),
            T::times_v(x[xo + (n - 1) * xs], y[yo + (n - 1) * ys]),
        )
    }
}

/// The terms `a[ao + i] * b[bo + i]` of a dot product.
pub open spec fn dot_terms<T: Blas>(a: Seq<T>, ao: int, b: Seq<T>, bo: int) -> spec_fn(int) -> T {
    |i: int| T::times_v(a[ao + i], b[bo + i])
}

/// Lane `r` of an eight-lane sum after `q` groups of eight terms:
/// `t(r) + t(8 + r) + ... + t(8 * (q - 1) + r)`, accumulated from zero.
pub open spec fn lane_sum<T: Blas>(t: spec_fn(int) -> T, r: int, q: int) -> T
    decreases q,
{
    if q <= 0 {
        T::zero_v()
    } else {
        T::plus_v(lane_sum(t, r, q - 1), t(8 * (q - 1) + r))
    }
}

/// The eight lanes after `q` groups, added in order: `((l0 + l1) + l2) ...`.
pub open spec fn lanes_total<T: Blas>(t: spec_fn(int) -> T, q: int) -> T {
    T::plus_v(
        T::plus_v(
            T::plus_v(
                T::plus_v(
                    T::plus_v(
                        T::plus_v(T::plus_v(lane_sum(t, 0, q), lane_sum(t, 1, q)), lane_sum(t, 2, q)),
                        lane_sum(t, 3, q),
                    ),
                    lane_sum(t, 4, q),
                ),
                lane_sum(t, 5, q),
            ),
            lane_sum(t, 6, q),
        ),
        lane_sum(t, 7, q),
    )
}

/// `init + t(from) + ... + t(to - 1)`, one term at a time.
pub open spec fn run_sum<T: Blas>(t: spec_fn(int) -> T, from: int, to: int, init: T) -> T
    decreases to - from,
{
    if to <= from {
        init
    } else {
        T::plus_v(run_sum(t, from, to - 1, init), t(to - 1))
    }
}

/// The sum of `t(0) .. t(n - 1)` formed in eight lanes: the first
/// `8 * (n / 8)` terms go to lane `i % 8`, the lanes are added in order, and
/// the remaining terms are then added one at a time.
pub open spec fn eight_lane_sum<T: Blas>(t: spec_fn(int) -> T, n: int) -> T {
    run_sum(t, 8 * (n / 8), n, lanes_total(t, n / 8))
}

/// The dot product of `a` and `b`, summed in eight lanes.
pub open spec fn dot_spec<T: Blas>(a: Seq<T>, b: Seq<T>) -> T {
    eight_lane_sum(dot_terms(a, 0, b, 0), a.len() as int)
}

/// The dot product of `a[ao .. ao + n]` and `b[bo .. bo + n]`, summed in
/// eight lanes.
pub(crate) fn dot_lanes<T: Blas>(a: &[T], ao: usize, b: &[T], bo: usize, n: usize) -> (r: T)
    requires
        ao + n <= a@.len(),
        bo + n <= b@.len(),
    ensures
        r == eight_lane_sum(dot_terms(a@, ao as int, b@, bo as int), n as int),
{
    let ghost t = dot_terms(a@, ao as int, b@, bo as int);
    let a_len = a.len();
    let b_len = b.len();
    let groups = n / 8;
    let mut s0 = T::zero();
    let mut s1 = T::zero();
    let mut s2 = T::zero();
    let mut s3 = T::zero();
    let mut s4 = T::zero();
    let mut s5 = T::zero();
    let mut s6 = T::zero();
    let mut s7 = T::zero();
    let mut g: usize = 0;
    while g < groups
        invariant
            a_len == a@.len(),
            b_len == b@.len(),
            ao + n <= a@.len(),
            bo + n <= b@.len(),
            t == dot_terms(a@, ao as int, b@, bo as int),
            groups == n / 8,
            g <= groups,
            s0 == lane_sum(t, 0, g as int),
            s1 == lane_sum(t, 1, g as int),
            s2 == lane_sum(t, 2, g as int),
            s3 == lane_sum(t, 3, g as int),
            s4 == lane_sum(t, 4, g as int),
            s5 == lane_sum(t, 5, g as int),
            s6 == lane_sum(t, 6, g as int),
            s7 == lane_sum(t, 7, g as int),
        decreases groups - g,
    {
        let i = 8 * g;
        assert(i + 8 <= n);
        s0 = T::plus(s0, T::times(a[ao + i], b[bo + i]));
        s1 = T::plus(s1, T::times(a[ao + i + 1], b[bo + i + 1]));
        s2 = T::plus(s2, T::times(a[ao + i + 2], b[bo + i + 2]));
        s3 = T::plus(s3, T::times(a[ao + i + 3], b[bo + i + 3]));
        s4 = T::plus(s4, T::times(a[ao + i + 4], b[bo + i + 4]));
        s5 = T::plus(s5, T::times(a[ao + i + 5], b[bo + i + 5]));
        s6 = T::plus(s6, T::times(a[ao + i + 6], b[bo + i + 6]));
        s7 = T::plus(s7, T::times(a[ao + i + 7], b[bo + i + 7]));
        g = g + 1;
    }
    let mut total = T::plus(T::plus(T::plus(T::plus(T::plus(T::plus(T::plus(s0, s1), s2), s3), s4), s5), s6), s7);
    let mut i: usize = 8 * groups;
    while i < n
        invariant
            a_len == a@.len(),
            b_len == b@.len(),
            ao + n <= a@.len(),
            bo + n <= b@.len(),
            t == dot_terms(a@, ao as int, b@, bo as int),
            groups == n / 8,
            8 * groups <= i <= n,
            total == run_sum(t, 8 * groups, i as int, lanes_total(t, groups as int)),
        decreases n - i,
    {
        total = T::plus(total, T::times(a[ao + i], b[bo + i]));
        i = i + 1;
    }
    total
}

/// Group `g` of eight terms added left to right:
/// `((t(8g) + t(8g+1)) + ...) + t(8g+7)`.
pub open spec fn chunk_value<T: Blas>(t: spec_fn(int) -> T, g: int) -> T {
    let b = 8 * g;
    T::plus_v(
        T::plus_v(
            T::plus_v(
                T::plus_v(
                    T::plus_v(T::plus_v(T::plus_v(t(b), t(b + 1)), t(b + 2)), t(b + 3)),
                    t(b + 4),
                ),
                t(b + 5),
            ),
            t(b + 6),
        ),
        t(b + 7),
    )
}

/// The first `q` groups of eight, each added as a whole to a running sum
/// that starts at zero.
pub open spec fn chunks_sum<T: Blas>(t: spec_fn(int) -> T, q: int) -> T
    decreases q,
{
    if q <= 0 {
        T::zero_v()
    } else {
        T::plus_v(chunks_sum(t, q - 1), chunk_value(t, q - 1))
    }
}

/// The sum of `t(0) .. t(n - 1)` formed group by group: the groups of eight
/// as `chunks_sum` adds them, then the remaining terms one at a time.
pub open spec fn chunked_sum<T: Blas>(t: spec_fn(int) -> T, n: int) -> T {
    run_sum(t, 8 * (n / 8), n, chunks_sum(t, n / 8))
}

/// The dot product of the common prefix of `x` and `y`, summed group by
/// group.
pub open spec fn chunked_dot_spec<T: Blas>(x: Seq<T>, y: Seq<T>) -> T {
    chunked_sum(
        dot_terms(x, 0, y, 0),
        if x.len() < y.len() {
            x.len() as int
        } else {
            y.len() as int
        },
    )
}

/// Dot product of the common prefix of two vectors (the shorter one's
/// length), eight products at a time: each group of eight products is
/// added up and then added to the running sum; the products left over are
/// added one at a time.
pub fn chunked_dot<T: Blas>(x: &[T], y: &[T]) -> (r: T)
    ensures
        r == chunked_dot_spec(x@, y@),
{
    let n = if x.len() < y.len() {
        x.len()
    } else {
        y.len()
    };
    let ghost t = dot_terms(x@, 0, y@, 0);
    let groups = n / 8;
    let mut sum = T::zero();
    let mut g: usize = 0;
    while g < groups
        invariant
            n <= x@.len(),
            n <= y@.len(),
            t == dot_terms(x@, 0, y@, 0),
            groups == n / 8,
            g <= groups,
            sum == chunks_sum(t, g as int),
        decreases groups - g,
    {
        let b = 8 * g;
        assert(b + 8 <= n);
        let p0 = T::times(x[b], y[b]);
        let p1 = T::times(x[b + 1], y[b + 1]);
        let p2 = T::times(x[b + 2], y[b + 2]);
        let p3 = T::times(x[b + 3], y[b + 3]);
        let p4 = T::times(x[b + 4], y[b + 4]);
        let p5 = T::times(x[b + 5], y[b + 5]);
        let p6 = T::times(x[b + 6], y[b + 6]);
        let p7 = T::times(x[b + 7], y[b + 7]);
        let chunk = T::plus(T::plus(T::plus(T::plus(T::plus(T::plus(T::plus(p0, p1), p2), p3), p4), p5), p6), p7);
        sum = T::plus(sum, chunk);
        g = g + 1;
    }
    let mut i: usize = 8 * groups;
    while i < n
        invariant
            n <= x@.len(),
            n <= y@.len(),
            t == dot_terms(x@, 0, y@, 0),
            groups == n / 8,
            8 * groups <= i <= n,
            sum == run_sum(t, 8 * groups, i as int, chunks_sum(t, groups as int)),
        decreases n - i,
    {
        sum = T::plus(sum, T::times(x[i], y[i]));
        i = i + 1;
    }
    sum
}

/// Dot product of two vectors of equal length, summed in eight lanes: terms
/// `i = r, r + 8, ...` go to lane `r` for the first `8 * (len / 8)` terms,
/// the lanes are added in order, and the rest are added one at a time.
pub fn dot<T: Blas>(a: &[T], b: &[T]) -> (r: T)
    requires
        a@.len() == b@.len(),
    ensures
        r == dot_spec(a@, b@),
{
    dot_lanes(a, 0, b, 0, a.len())
}

/// Whether `n` reads at `o, o + s, .., o + (n-1)*s` stay below `len`.
pub open spec fn strided_in_bounds(len: int, o: int, s: int, n: int) -> bool {
    n <= 0 || (0 <= o && 0 <= s && o + (n - 1) * s < len)
}

pub(crate) proof fn lemma_mul_mono(p: int, q: int, s: int)
    requires
        0 <= p <= q,
        0 <= s,
    ensures
        p * s <= q * s,
{
    assert(p * s <= q * s) by (nonlinear_arith)
        requires
            0 <= p <= q,
            0 <= s,
    ;
}

/// `strided_dot` computed with the same order of operations.
pub(crate) fn strided_dot_exec<T: Blas>(
    x: &[T],
    xo: usize,
    xs: usize,
    y: &[T],
    yo: usize,
    ys: usize,
    n: usize,
) -> (r: T)
    requires
        strided_in_bounds(x@.len() as int, xo as int, xs as int, n as int),
        strided_in_bounds(y@.len() as int, yo as int, ys as int, n as int),
    ensures
        r == strided_dot(x@, xo as int, xs as int, y@, yo as int, ys as int, n as int),
{
    let x_len = x.len();
    let y_len = y.len();
    let mut sum = T::zero();
    let mut p: usize = 0;
    while p < n
        invariant
            x_len == x@.len(),
            y_len == y@.len(),
            strided_in_bounds(x@.len() as int, xo as int, xs as int, n as int),
            strided_in_bounds(y@.len() as int, yo as int, ys as int, n as int),
            p <= n,
            sum == strided_dot(x@, xo as int, xs as int, y@, yo as int, ys as int, p as int),
        decreases n - p,
    {
        proof {
            lemma_mul_mono(p as int, n - 1, xs as int);
            lemma_mul_mono(p as int, n - 1, ys as int);
            assert(xo + (n - 1) * xs < x@.len());
            assert(yo + (n - 1) * ys < y@.len());
        }
        let xi = xo + p * xs;
        let yi = yo + p * ys;
        let t = T::times(x[xi], y[yi]);
        sum = T::plus(sum, t);
        p = p + 1;
    }
    sum
}

/// What `y[i]` becomes when the vector is scaled by `beta`: zero when `beta`
/// is zero, unchanged when it is one, `y[i] * beta` otherwise.
pub open spec fn beta_scaled<T: Blas>(y: T, beta: T) -> T {
    if T::is_zero_v(beta) {
        T::zero_v()
    } else if T::is_one_v(beta) {
        y
    } else {
        T::times_v(y, beta)
    }
}

/// One entry of `alpha * d + beta * y` as the matrix-vector products form it.
pub open spec fn gemv_entry<T: Blas>(alpha: T, beta: T, y: T, d: T) -> T {
    if T::is_zero_v(alpha) {
        beta_scaled(y, beta)
    } else {
        T::plus_v(beta_scaled(y, beta), T::times_v(alpha, d))
    }
}

/// `alpha * A * x + beta * y` for a row-major `m x n` matrix `A`; each
/// row's dot product is summed in eight lanes, as `dot` sums. With no
/// columns `A * x` is zero and `y` is only scaled by `beta`.
pub open spec fn gemv_spec<T: Blas>(
    m: int,
    n: int,
    alpha: T,
    a: Seq<T>,
    x: Seq<T>,
    beta: T,
    y: Seq<T>,
) -> Seq<T> {
    Seq::new(
        m as nat,
        |i: int|
            if n == 0 {
                beta_scaled(y[i], beta)
            } else {
                gemv_entry(alpha, beta, y[i], eight_lane_sum(dot_terms(a, i * n, x, 0), n))
            },
    )
}

/// The rows of `A` that the transposed matrix-vector product takes in at a
/// time.
pub const GEMV_BLOCK_ROWS: usize = 64;

/// Entry `j` of `alpha * A^T * x + beta * y` after the first `nb` blocks of
/// rows: `y[j]` scaled by `beta`, then for each block `alpha` times the
/// block's part of column `j`'s dot product added on.
pub open spec fn gemv_t_acc<T: Blas>(
    alpha: T,
    beta: T,
    yj: T,
    a: Seq<T>,
    x: Seq<T>,
    m: int,
    n: int,
    j: int,
    nb: int,
) -> T
    decreases nb,
{
    if nb <= 0 {
        beta_scaled(yj, beta)
    } else {
        let i0 = (nb - 1) * GEMV_BLOCK_ROWS;
        T::plus_v(
            gemv_t_acc(alpha, beta, yj, a, x, m, n, j, nb - 1),
            T::times_v(
                alpha,
                strided_dot(a, i0 * n + j, n, x, i0, 1, block_len(m, GEMV_BLOCK_ROWS as int, nb - 1)),
            ),
        )
    }
}

/// `alpha * A^T * x + beta * y` for a row-major `m x n` matrix `A`: `y`
/// scaled by `beta`, then, unless `alpha` is zero, the column dot products
/// added block of rows by block of rows.
pub open spec fn gemv_t_spec<T: Blas>(
    m: int,
    n: int,
    alpha: T,
    a: Seq<T>,
    x: Seq<T>,
    beta: T,
    y: Seq<T>,
) -> Seq<T> {
    Seq::new(
        n as nat,
        |j: int|
            if T::is_zero_v(alpha) {
                beta_scaled(y[j], beta)
            } else {
                gemv_t_acc(alpha, beta, y[j], a, x, m, n, j, block_count(m, GEMV_BLOCK_ROWS as int))
            },
    )
}

/// Scales `y` by `beta` in place as the matrix-vector products do.
fn scale_by_beta<T: Blas>(y: &mut [T], beta: T)
    ensures
        final(y)@ == Seq::new(old(y)@.len(), |i: int| beta_scaled(old(y)@[i], beta)),
{
    let ghost y0 = y@;
    let zero_beta = T::is_zero(beta);
    let one_beta = T::is_one(beta);
    let mut i: usize = 0;
    while i < y.len()
        invariant
            y@.len() == y0.len(),
            i <= y@.len(),
            zero_beta == T::is_zero_v(beta),
            one_beta == T::is_one_v(beta),
            forall|k: int| 0 <= k < i ==> y@[k] == beta_scaled(y0[k], beta),
            forall|k: int| i <= k < y@.len() ==> y@[k] == y0[k],
        decreases y@.len() - i,
    {
        if zero_beta {
            y[i] = T::zero();
        } else if !one_beta {
            let v = T::times(y[i], beta);
            y[i] = v;
        }
        i = i + 1;
    }
    assert(y@ =~= Seq::new(y0.len(), |k: int| beta_scaled(y0[k], beta)));
}

/// Computes `y = alpha * A * x + beta * y`, where `A` is an `m x n`
/// row-major matrix, `x` has `n` entries and `y` has `m`.
pub fn gemv<T: Blas>(m: usize, n: usize, alpha: T, a: &[T], x: &[T], beta: T, y: &mut [T])
    requires
        a@.len() == m * n,
        x@.len() == n,
        old(y)@.len() == m,
    ensures
        final(y)@ == gemv_spec(m as int, n as int, alpha, a@, x@, beta, old(y)@),
{
    let ghost y0 = y@;
    scale_by_beta(y, beta);
    let ghost y1 = y@;
    let a_len = a.len();
    if !T::is_zero(alpha) && n > 0 {
        let mut i: usize = 0;
        while i < m
            invariant
                a_len == a@.len(),
                a@.len() == m * n,
                x@.len() == n,
                y@.len() == m,
                y1.len() == m,
                y0.len() == m,
                !T::is_zero_v(alpha),
                n > 0,
                i <= m,
                forall|k: int| 0 <= k < m ==> y1[k] == beta_scaled(y0[k], beta),
                forall|k: int| 0 <= k < i ==> y@[k] == gemv_entry(alpha, beta, y0[k],
                    eight_lane_sum(dot_terms(a@, k * n, x@, 0), n as int)),
                forall|k: int| i <= k < m ==> y@[k] == y1[k],
            decreases m - i,
        {
            proof {
                lemma_mul_mono(i as int, m - 1, n as int);
                assert((m - 1) * n + n == m * n) by (nonlinear_arith);
                assert(i * n + n <= m * n);
            }
            let row = i * n;
            let d = dot_lanes(a, row, x, 0, n);
            let t = T::times(alpha, d);
            assert(y@[i as int] == y1[i as int]);
            let v = T::plus(y[i], t);
            y[i] = v;
            assert(y@[i as int] == gemv_entry(alpha, beta, y0[i as int],
                eight_lane_sum(dot_terms(a@, i * n, x@, 0), n as int)));
            i = i + 1;
        }
    }
    assert(y@ =~= gemv_spec(m as int, n as int, alpha, a@, x@, beta, y0));
}

/// Computes `y = alpha * A^T * x + beta * y`, where `A` is an `m x n`
/// row-major matrix, `x` has `m` entries and `y` has `n`. The rows of `A`
/// are taken in blocks of `GEMV_BLOCK_ROWS`.
pub fn gemv_t<T: Blas>(m: usize, n: usize, alpha: T, a: &[T], x: &[T], beta: T, y: &mut [T])
    requires
        a@.len() == m * n,
        x@.len() == m,
        old(y)@.len() == n,
    ensures
        final(y)@ == gemv_t_spec(m as int, n as int, alpha, a@, x@, beta, old(y)@),
{
    let ghost y0 = y@;
    scale_by_beta(y, beta);
    let ghost bm = block_count(m as int, GEMV_BLOCK_ROWS as int);
    if !T::is_zero(alpha) {
        let a_len = a.len();
        let x_len = x.len();
        let mut ii: usize = 0;
        let mut blk: usize = 0;
        while ii < m
            invariant
                a_len == a@.len(),
                x_len == x@.len(),
                a@.len() == m * n,
                x@.len() == m,
                y@.len() == n,
                y0.len() == n,
                !T::is_zero_v(alpha),
                bm == block_count(m as int, GEMV_BLOCK_ROWS as int),
                ii <= m,
                ii < m ==> ii == blk * GEMV_BLOCK_ROWS,
                ii == m ==> blk == bm,
                forall|k: int| 0 <= k < n ==> #[trigger] y@[k] == gemv_t_acc(alpha, beta, y0[k],
                    a@, x@, m as int, n as int, k, blk as int),
            decreases m - ii,
        {
            proof {
                crate::blocking::lemma_block_step(m as int, GEMV_BLOCK_ROWS as int, blk as int);
            }
            let ib = if GEMV_BLOCK_ROWS < m - ii {
                GEMV_BLOCK_ROWS
            } else {
                m - ii
            };
            assert(ib == block_len(m as int, GEMV_BLOCK_ROWS as int, blk as int));
            let ghost yb = y@;
            let mut j: usize = 0;
            while j < n
                invariant
                    a_len == a@.len(),
                    x_len == x@.len(),
                    a@.len() == m * n,
                    x@.len() == m,
                    y@.len() == n,
                    yb.len() == n,
                    y0.len() == n,
                    !T::is_zero_v(alpha),
                    ii < m,
                    ii == blk * GEMV_BLOCK_ROWS,
                    0 < ib,
                    ii + ib <= m,
                    ib == block_len(m as int, GEMV_BLOCK_ROWS as int, blk as int),
                    forall|k: int| 0 <= k < n ==> #[trigger] yb[k] == gemv_t_acc(alpha, beta, y0[k],
                        a@, x@, m as int, n as int, k, blk as int),
                    j <= n,
                    forall|k: int| 0 <= k < j ==> #[trigger] y@[k] == gemv_t_acc(alpha, beta, y0[k],
                        a@, x@, m as int, n as int, k, blk + 1),
                    forall|k: int| j <= k < n ==> #[trigger] y@[k] == yb[k],
                decreases n - j,
            {
                proof {
                    lemma_mul_mono((ii + ib - 1) as int, m - 1, n as int);
                    assert((m - 1) * n + n == m * n) by (nonlinear_arith);
                    assert(ii * n + j + (ib - 1) * n == (ii + ib - 1) * n + j) by (nonlinear_arith);
                    lemma_mul_mono(0, ii as int, n as int);
                    lemma_mul_mono(0, (ib - 1) as int, n as int);
                }
                let d = strided_dot_exec(a, ii * n + j, n, x, ii, 1, ib);
                let t = T::times(alpha, d);
                let v = T::plus(y[j], t);
                y[j] = v;
                assert(blk + 1 - 1 == blk);
                j = j + 1;
            }
            proof {
                assert(blk <= ii) by (nonlinear_arith)
                    requires
                        ii == blk * GEMV_BLOCK_ROWS,
                ;
            }
            ii = ii + ib;
            blk = blk + 1;
        }
    }
    assert(y@ =~= gemv_t_spec(m as int, n as int, alpha, a@, x@, beta, y0));
}


/// Whether position `idx` of a row-major matrix with leading dimension `ld`
/// lies in its first `m` rows and first `n` columns.
pub open spec fn in_block(idx: int, m: int, n: int, ld: int) -> bool {
    ld > 0 && 0 <= idx && idx / ld < m && idx % ld < n
}

/// Whether an `m x k` operand read at `o[i*rs + p*ps]` stays below `len`.
pub open spec fn operand_in_bounds(len: int, m: int, rs: int, k: int, ps: int) -> bool {
    m <= 0 || k <= 0 || (m - 1) * rs + (k - 1) * ps < len
}

/// `alpha * d + beta * c` as the matrix products form it.
pub open spec fn gemm_entry<T: Blas>(alpha: T, beta: T, c: T, d: T) -> T {
    T::plus_v(T::times_v(alpha, d), T::times_v(beta, c))
}

/// The new value of entry `(i, j)` of C: scaled by `beta` alone when `alpha`
/// is zero or the inner dimension is empty (then `op(A) * op(B)` is zero);
/// otherwise `alpha * (row i of op(A) . column j of op(B)) + beta * C(i,j)`,
/// formed block by block of the inner dimension as `blocked_acc`
/// says. `op(A)(i,p) = a[i*ars + p*aps]`, `op(B)(p,j) = b[p*bps + j*bcs]`.
pub open spec fn gemm_new_entry<T: Blas>(
    k: int,
    alpha: T,
    a: Seq<T>,
    ars: int,
    aps: int,
    b: Seq<T>,
    bps: int,
    bcs: int,
    beta: T,
    cv: T,
    i: int,
    j: int,
) -> T {
    if T::is_zero_v(alpha) || k <= 0 {
        T::times_v(cv, beta)
    } else {
        blocked_acc(
            depth_block::<T>(),
            k,
            alpha,
            a,
            ars,
            aps,
            b,
            bps,
            bcs,
            beta,
            cv,
            i,
            j,
            block_count(k, depth_block::<T>()),
        )
    }
}

/// The depth `kc` of the blocks in which the matrix products walk the inner
/// dimension.
pub open spec fn depth_block<T: Blas>() -> int {
    T::blocking_v().0 as int
}

/// The number of blocks of depth `kc` that cover an inner dimension of `k`.
pub open spec fn block_count(k: int, kc: int) -> int {
    if k <= 0 || kc <= 0 {
        0
    } else {
        (k + kc - 1) / kc
    }
}

/// The length of block `blk`: `kc`, or what is left of `k` for the last.
pub open spec fn block_len(k: int, kc: int, blk: int) -> int {
    if k - blk * kc < kc {
        k - blk * kc
    } else {
        kc
    }
}

/// Entry `(i, j)` after the first `nb` blocks of the inner dimension: each
/// block adds `alpha` times its part of the dot product to the entry scaled
/// by `beta` (first block) or by one (later blocks).
pub open spec fn blocked_acc<T: Blas>(
    kc: int,
    k: int,
    alpha: T,
    a: Seq<T>,
    ars: int,
    aps: int,
    b: Seq<T>,
    bps: int,
    bcs: int,
    beta: T,
    cv: T,
    i: int,
    j: int,
    nb: int,
) -> T
    decreases nb,
{
    if nb <= 0 {
        cv
    } else {
        let p0 = (nb - 1) * kc;
        gemm_entry(
            alpha,
            if nb == 1 {
                beta
            } else {
                T::one_v()
            },
            blocked_acc(kc, k, alpha, a, ars, aps, b, bps, bcs, beta, cv, i, j, nb - 1),
            strided_dot(a, i * ars + p0 * aps, aps, b, p0 * bps + j * bcs, bps, block_len(k, kc, nb - 1)),
        )
    }
}

/// Whether the product leaves C exactly as it was: an empty C, or `alpha`
/// zero with `beta` one.
pub open spec fn gemm_keeps_c<T: Blas>(m: int, n: int, k: int, alpha: T, beta: T) -> bool {
    m == 0 || n == 0 || (T::is_zero_v(alpha) && T::is_one_v(beta))
}

/// `C = alpha * op(A) * op(B) + beta * C` on the `m x n` block of C stored
/// with leading dimension `ldc`; entries outside the block are unchanged.
pub open spec fn gemm_general_spec<T: Blas>(
    m: int,
    n: int,
    k: int,
    alpha: T,
    a: Seq<T>,
    ars: int,
    aps: int,
    b: Seq<T>,
    bps: int,
    bcs: int,
    beta: T,
    c: Seq<T>,
    ldc: int,
) -> Seq<T> {
    if gemm_keeps_c(m, n, k, alpha, beta) {
        c
    } else {
        Seq::new(
            c.len(),
            |idx: int|
                if in_block(idx, m, n, ldc) {
                    gemm_new_entry(k, alpha, a, ars, aps, b, bps, bcs, beta, c[idx], idx / ldc, idx % ldc)
                } else {
                    c[idx]
                },
        )
    }
}

pub(crate) proof fn lemma_block_index(i: int, j: int, ld: int)
    requires
        0 <= i,
        0 <= j < ld,
    ensures
        (i * ld + j) / ld == i,
        (i * ld + j) % ld == j,
{
    vstd::arithmetic::div_mod::lemma_fundamental_div_mod_converse(i * ld + j, ld, i, j);
}

pub(crate) proof fn lemma_block_unique(idx: int, i: int, j: int, ld: int)
    requires
        0 <= i,
        0 <= j < ld,
        0 <= idx,
        idx / ld == i,
        idx % ld == j,
    ensures
        idx == i * ld + j,
{
    vstd::arithmetic::div_mod::lemma_fundamental_div_mod(idx, ld);
    assert(ld * (idx / ld) == i * ld) by (nonlinear_arith)
        requires
            idx / ld == i,
    ;
}

/// The row stride at which C is read and written. With a single row the
/// stride plays no part, and a row wider than `ldc` is laid out from
/// position zero on.
pub open spec fn effective_ldc(m: int, n: int, ldc: int) -> int {
    if m == 1 && ldc < n {
        n
    } else {
        ldc
    }
}

/// The row stride handed to the blocked driver: the effective one where a
/// single row needs it and C holds it, `ldc` otherwise.
fn row_stride(m: usize, n: usize, c_len: usize, ldc: usize) -> (ld: usize)
    ensures
        ld == (if m == 1 && ldc < n && c_len >= n { n } else { ldc }),
{
    if m == 1 && ldc < n && c_len >= n {
        n
    } else {
        ldc
    }
}

/// `C = alpha * A * B + beta * C` with `A` an `m x k` matrix (leading
/// dimension `lda`), `B` a `k x n` matrix (`ldb`) and `C` an `m x n` matrix
/// (`ldc`), all row-major.
pub open spec fn gemm_spec<T: Blas>(
    m: int,
    n: int,
    k: int,
    alpha: T,
    a: Seq<T>,
    lda: int,
    b: Seq<T>,
    ldb: int,
    beta: T,
    c: Seq<T>,
    ldc: int,
) -> Seq<T> {
    gemm_general_spec(m, n, k, alpha, a, lda, 1, b, ldb, 1, beta, c, effective_ldc(m, n, ldc))
}

/// `C = alpha * A^T * B + beta * C` with `A` stored as a `k x m` matrix.
pub open spec fn gemm_tn_spec<T: Blas>(
    m: int,
    n: int,
    k: int,
    alpha: T,
    a: Seq<T>,
    lda: int,
    b: Seq<T>,
    ldb: int,
    beta: T,
    c: Seq<T>,
    ldc: int,
) -> Seq<T> {
    gemm_general_spec(m, n, k, alpha, a, 1, lda, b, ldb, 1, beta, c, effective_ldc(m, n, ldc))
}

/// `C = alpha * A * B^T + beta * C` with `B` stored as an `n x k` matrix.
pub open spec fn gemm_nt_spec<T: Blas>(
    m: int,
    n: int,
    k: int,
    alpha: T,
    a: Seq<T>,
    lda: int,
    b: Seq<T>,
    ldb: int,
    beta: T,
    c: Seq<T>,
    ldc: int,
) -> Seq<T> {
    gemm_general_spec(m, n, k, alpha, a, lda, 1, b, 1, ldb, beta, c, effective_ldc(m, n, ldc))
}

/// `C = alpha * A^T * B^T + beta * C` with `A` stored `k x m` and `B`
/// stored `n x k`.
pub open spec fn gemm_tt_spec<T: Blas>(
    m: int,
    n: int,
    k: int,
    alpha: T,
    a: Seq<T>,
    lda: int,
    b: Seq<T>,
    ldb: int,
    beta: T,
    c: Seq<T>,
    ldc: int,
) -> Seq<T> {
    gemm_general_spec(m, n, k, alpha, a, 1, lda, b, 1, ldb, beta, c, effective_ldc(m, n, ldc))
}

/// General matrix multiplication `C = alpha * A * B + beta * C`.
pub fn gemm<T: Blas>(
    m: usize,
    n: usize,
    k: usize,
    alpha: T,
    a: &[T],
    lda: usize,
    b: &[T],
    ldb: usize,
    beta: T,
    c: &mut [T],
    ldc: usize,
)
    requires
        a@.len() >= m * lda || a@.len() >= k * lda,
        b@.len() >= k * ldb || b@.len() >= n * ldb,
        old(c)@.len() >= m * ldc,
        !gemm_keeps_c(m as int, n as int, k as int, alpha, beta) ==> n <= ldc || (m == 1 && old(c)@.len() >= n),
        !gemm_keeps_c(m as int, n as int, k as int, alpha, beta) && !T::is_zero_v(alpha) ==> {
            &&& operand_in_bounds(a@.len() as int, m as int, lda as int, k as int, 1)
            &&& operand_in_bounds(b@.len() as int, n as int, 1, k as int, ldb as int)
        },
    ensures
        final(c)@ == gemm_spec(
            m as int,
            n as int,
            k as int,
            alpha,
            a@,
            lda as int,
            b@,
            ldb as int,
            beta,
            old(c)@,
            ldc as int,
        ),
{
    let ld = row_stride(m, n, c.len(), ldc);
    crate::blocking::gemm_blocked(m, n, k, alpha, a, lda, 1, b, ldb, 1, beta, c, ld)
}

/// Matrix multiplication with `A` transposed: `C = alpha * A^T * B + beta * C`.
pub fn gemm_tn<T: Blas>(
    m: usize,
    n: usize,
    k: usize,
    alpha: T,
    a: &[T],
    lda: usize,
    b: &[T],
    ldb: usize,
    beta: T,
    c: &mut [T],
    ldc: usize,
)
    requires
        a@.len() >= k * lda,
        b@.len() >= k * ldb || b@.len() >= n * ldb,
        old(c)@.len() >= m * ldc,
        !gemm_keeps_c(m as int, n as int, k as int, alpha, beta) ==> n <= ldc || (m == 1 && old(c)@.len() >= n),
        !gemm_keeps_c(m as int, n as int, k as int, alpha, beta) && !T::is_zero_v(alpha) ==> {
            &&& operand_in_bounds(a@.len() as int, m as int, 1, k as int, lda as int)
            &&& operand_in_bounds(b@.len() as int, n as int, 1, k as int, ldb as int)
        },
    ensures
        final(c)@ == gemm_tn_spec(
            m as int,
            n as int,
            k as int,
            alpha,
            a@,
            lda as int,
            b@,
            ldb as int,
            beta,
            old(c)@,
            ldc as int,
        ),
{
    let ld = row_stride(m, n, c.len(), ldc);
    crate::blocking::gemm_blocked(m, n, k, alpha, a, 1, lda, b, ldb, 1, beta, c, ld)
}

/// Matrix multiplication with `B` transposed: `C = alpha * A * B^T + beta * C`.
pub fn gemm_nt<T: Blas>(
    m: usize,
    n: usize,
    k: usize,
    alpha: T,
    a: &[T],
    lda: usize,
    b: &[T],
    ldb: usize,
    beta: T,
    c: &mut [T],
    ldc: usize,
)
    requires
        a@.len() >= m * lda || a@.len() >= k * lda,
        b@.len() >= n * ldb,
        old(c)@.len() >= m * ldc,
        !gemm_keeps_c(m as int, n as int, k as int, alpha, beta) ==> n <= ldc || (m == 1 && old(c)@.len() >= n),
        !gemm_keeps_c(m as int, n as int, k as int, alpha, beta) && !T::is_zero_v(alpha) ==> {
            &&& operand_in_bounds(a@.len() as int, m as int, lda as int, k as int, 1)
            &&& operand_in_bounds(b@.len() as int, n as int, ldb as int, k as int, 1)
        },
    ensures
        final(c)@ == gemm_nt_spec(
            m as int,
            n as int,
            k as int,
            alpha,
            a@,
            lda as int,
            b@,
            ldb as int,
            beta,
            old(c)@,
            ldc as int,
        ),
{
    let ld = row_stride(m, n, c.len(), ldc);
    crate::blocking::gemm_blocked(m, n, k, alpha, a, lda, 1, b, 1, ldb, beta, c, ld)
}

/// Matrix multiplication with both operands transposed:
/// `C = alpha * A^T * B^T + beta * C`.
pub fn gemm_tt<T: Blas>(
    m: usize,
    n: usize,
    k: usize,
    alpha: T,
    a: &[T],
    lda: usize,
    b: &[T],
    ldb: usize,
    beta: T,
    c: &mut [T],
    ldc: usize,
)
    requires
        a@.len() >= k * lda,
        b@.len() >= n * ldb,
        old(c)@.len() >= m * ldc,
        !gemm_keeps_c(m as int, n as int, k as int, alpha, beta) ==> n <= ldc || (m == 1 && old(c)@.len() >= n),
        !gemm_keeps_c(m as int, n as int, k as int, alpha, beta) && !T::is_zero_v(alpha) ==> {
            &&& operand_in_bounds(a@.len() as int, m as int, 1, k as int, lda as int)
            &&& operand_in_bounds(b@.len() as int, n as int, ldb as int, k as int, 1)
        },
    ensures
        final(c)@ == gemm_tt_spec(
            m as int,
            n as int,
            k as int,
            alpha,
            a@,
            lda as int,
            b@,
            ldb as int,
            beta,
            old(c)@,
            ldc as int,
        ),
{
    let ld = row_stride(m, n, c.len(), ldc);
    crate::blocking::gemm_blocked(m, n, k, alpha, a, 1, lda, b, 1, ldb, beta, c, ld)
}

/// `len` copies of zero.
pub open spec fn zeros<T: Blas>(len: int) -> Seq<T> {
    Seq::new(len as nat, |i: int| T::zero_v())
}

pub(crate) fn zero_vec<T: Blas>(len: usize) -> (v: Vec<T>)
    ensures
        v@ == zeros::<T>(len as int),
{
    let mut v: Vec<T> = Vec::new();
    let mut i: usize = 0;
    while i < len
        invariant
            i <= len,
            v@ == zeros::<T>(i as int),
        decreases len - i,
    {
        v.push(T::zero());
        i = i + 1;
        assert(v@ =~= zeros::<T>(i as int));
    }
    v
}

/// Matrix-vector product `A * x` of a row-major `m x n` matrix.
pub fn matvec<T: Blas>(m: usize, n: usize, a: &[T], x: &[T]) -> (y: Vec<T>)
    requires
        a@.len() == m * n,
        x@.len() == n,
    ensures
        y@ == gemv_spec(m as int, n as int, T::one_v(), a@, x@, T::zero_v(), zeros::<T>(m as int)),
{
    let mut y = zero_vec(m);
    gemv(m, n, T::one(), a, x, T::zero(), y.as_mut_slice());
    y
}

/// Transposed matrix-vector product `A^T * x` of a row-major `m x n` matrix.
pub fn matvec_t<T: Blas>(m: usize, n: usize, a: &[T], x: &[T]) -> (y: Vec<T>)
    requires
        a@.len() == m * n,
        x@.len() == m,
    ensures
        y@ == gemv_t_spec(m as int, n as int, T::one_v(), a@, x@, T::zero_v(), zeros::<T>(n as int)),
{
    let mut y = zero_vec(n);
    gemv_t(m, n, T::one(), a, x, T::zero(), y.as_mut_slice());
    y
}

/// Matrix product `A * B` of a row-major `m x k` and a `k x n` matrix.
pub fn matmul<T: Blas>(m: usize, n: usize, k: usize, a: &[T], b: &[T]) -> (c: Vec<T>)
    requires
        m * n <= usize::MAX,
        a@.len() >= m * k || a@.len() >= k * k,
        b@.len() >= k * n || b@.len() >= n * n,
        operand_in_bounds(a@.len() as int, m as int, k as int, k as int, 1),
        operand_in_bounds(b@.len() as int, n as int, 1, k as int, n as int),
    ensures
        c@ == gemm_spec(m as int, n as int, k as int, T::one_v(), a@, k as int, b@, n as int,
            T::zero_v(), zeros::<T>(m * n), n as int),
{
    let mut c = zero_vec(m * n);
    gemm(m, n, k, T::one(), a, k, b, n, T::zero(), c.as_mut_slice(), n);
    c
}

/// Matrix product `A^T * B` with `A` stored as a `k x m` matrix.
pub fn matmul_tn<T: Blas>(m: usize, n: usize, k: usize, a: &[T], b: &[T]) -> (c: Vec<T>)
    requires
        m * n <= usize::MAX,
        a@.len() >= k * m,
        b@.len() >= k * n || b@.len() >= n * n,
        operand_in_bounds(a@.len() as int, m as int, 1, k as int, m as int),
        operand_in_bounds(b@.len() as int, n as int, 1, k as int, n as int),
    ensures
        c@ == gemm_tn_spec(m as int, n as int, k as int, T::one_v(), a@, m as int, b@, n as int,
            T::zero_v(), zeros::<T>(m * n), n as int),
{
    let mut c = zero_vec(m * n);
    gemm_tn(m, n, k, T::one(), a, m, b, n, T::zero(), c.as_mut_slice(), n);
    c
}

/// Matrix product `A * B^T` with `B` stored as an `n x k` matrix.
pub fn matmul_nt<T: Blas>(m: usize, n: usize, k: usize, a: &[T], b: &[T]) -> (c: Vec<T>)
    requires
        m * n <= usize::MAX,
        a@.len() >= m * k || a@.len() >= k * k,
        b@.len() >= n * k,
        operand_in_bounds(a@.len() as int, m as int, k as int, k as int, 1),
        operand_in_bounds(b@.len() as int, n as int, k as int, k as int, 1),
    ensures
        c@ == gemm_nt_spec(m as int, n as int, k as int, T::one_v(), a@, k as int, b@, k as int,
            T::zero_v(), zeros::<T>(m * n), n as int),
{
    let mut c = zero_vec(m * n);
    gemm_nt(m, n, k, T::one(), a, k, b, k, T::zero(), c.as_mut_slice(), n);
    c
}

/// Matrix product `A^T * B^T` with `A` stored `k x m` and `B` stored `n x k`.
pub fn matmul_tt<T: Blas>(m: usize, n: usize, k: usize, a: &[T], b: &[T]) -> (c: Vec<T>)
    requires
        m * n <= usize::MAX,
        a@.len() >= k * m,
        b@.len() >= n * k,
        operand_in_bounds(a@.len() as int, m as int, 1, k as int, m as int),
        operand_in_bounds(b@.len() as int, n as int, k as int, k as int, 1),
    ensures
        c@ == gemm_tt_spec(m as int, n as int, k as int, T::one_v(), a@, m as int, b@, k as int,
            T::zero_v(), zeros::<T>(m * n), n as int),
{
    let mut c = zero_vec(m * n);
    gemm_tt(m, n, k, T::one(), a, m, b, k, T::zero(), c.as_mut_slice(), n);
    c
}

/// The terms `(a[i] - b[i]) * (a[i] - b[i])` of a squared distance.
pub open spec fn l2sq_terms<T: Blas>(a: Seq<T>, b: Seq<T>) -> spec_fn(int) -> T {
    |i: int| T::times_v(T::minus_v(a[i], b[i]), T::minus_v(a[i], b[i]))
}

/// The squared distance of `a` and `b`: zero for empty vectors, otherwise
/// the squared differences summed in eight lanes.
pub open spec fn l2sq_spec<T: Blas>(a: Seq<T>, b: Seq<T>) -> T {
    if a.len() == 0 {
        T::zero_v()
    } else {
        eight_lane_sum(l2sq_terms(a, b), a.len() as int)
    }
}

/// The sum of squared differences of two vectors of equal length, summed in
/// eight lanes as `dot` sums its products.
pub fn l2sq<T: Blas>(a: &[T], b: &[T]) -> (r: T)
    requires
        a@.len() == b@.len(),
    ensures
        r == l2sq_spec(a@, b@),
{
    let n = a.len();
    if n == 0 {
        return T::zero();
    }
    let ghost t = l2sq_terms(a@, b@);
    let groups = n / 8;
    let mut s0 = T::zero();
    let mut s1 = T::zero();
    let mut s2 = T::zero();
    let mut s3 = T::zero();
    let mut s4 = T::zero();
    let mut s5 = T::zero();
    let mut s6 = T::zero();
    let mut s7 = T::zero();
    let mut g: usize = 0;
    while g < groups
        invariant
            n == a@.len(),
            n == b@.len(),
            t == l2sq_terms(a@, b@),
            groups == n / 8,
            g <= groups,
            s0 == lane_sum(t, 0, g as int),
            s1 == lane_sum(t, 1, g as int),
            s2 == lane_sum(t, 2, g as int),
            s3 == lane_sum(t, 3, g as int),
            s4 == lane_sum(t, 4, g as int),
            s5 == lane_sum(t, 5, g as int),
            s6 == lane_sum(t, 6, g as int),
            s7 == lane_sum(t, 7, g as int),
        decreases groups - g,
    {
        let i = 8 * g;
        assert(i + 8 <= n);
        let d0 = T::minus(a[i], b[i]);
        s0 = T::plus(s0, T::times(d0, d0));
        let d1 = T::minus(a[i + 1], b[i + 1]);
        s1 = T::plus(s1, T::times(d1, d1));
        let d2 = T::minus(a[i + 2], b[i + 2]);
        s2 = T::plus(s2, T::times(d2, d2));
        let d3 = T::minus(a[i + 3], b[i + 3]);
        s3 = T::plus(s3, T::times(d3, d3));
        let d4 = T::minus(a[i + 4], b[i + 4]);
        s4 = T::plus(s4, T::times(d4, d4));
        let d5 = T::minus(a[i + 5], b[i + 5]);
        s5 = T::plus(s5, T::times(d5, d5));
        let d6 = T::minus(a[i + 6], b[i + 6]);
        s6 = T::plus(s6, T::times(d6, d6));
        let d7 = T::minus(a[i + 7], b[i + 7]);
        s7 = T::plus(s7, T::times(d7, d7));
        g = g + 1;
    }
    let mut total = T::plus(T::plus(T::plus(T::plus(T::plus(T::plus(T::plus(s0, s1), s2), s3), s4), s5), s6), s7);
    let mut i: usize = 8 * groups;
    while i < n
        invariant
            n == a@.len(),
            n == b@.len(),
            t == l2sq_terms(a@, b@),
            groups == n / 8,
            8 * groups <= i <= n,
            total == run_sum(t, 8 * groups, i as int, lanes_total(t, groups as int)),
        decreases n - i,
    {
        let d = T::minus(a[i], b[i]);
        total = T::plus(total, T::times(d, d));
        i = i + 1;
    }
    total
}

/// Scales a vector in place: `v[i] = v[i] * s`.
pub fn scale<T: Blas>(v: &mut [T], s: T)
    ensures
        final(v)@ == Seq::new(old(v)@.len(), |i: int| T::times_v(old(v)@[i], s)),
{
    let ghost v0 = v@;
    let mut i: usize = 0;
    while i < v.len()
        invariant
            v@.len() == v0.len(),
            i <= v@.len(),
            forall|k: int| 0 <= k < i ==> v@[k] == T::times_v(v0[k], s),
            forall|k: int| i <= k < v@.len() ==> v@[k] == v0[k],
        decreases v@.len() - i,
    {
        let x = T::times(v[i], s);
        v[i] = x;
        i = i + 1;
    }
    assert(v@ =~= Seq::new(v0.len(), |k: int| T::times_v(v0[k], s)));
}

/// Euclidean distance: the root of the sum of squared differences.
pub fn l2<T: Blas>(a: &[T], b: &[T]) -> (r: T)
    requires
        a@.len() == b@.len(),
    ensures
        r == T::root_v(l2sq_spec(a@, b@)),
{
    let sum = l2sq(a, b);
    T::root(sum)
}


/// `r` is the integer square root of `a`: `r*r <= a < (r+1)*(r+1)`.
pub open spec fn is_floor_root(a: int, r: int) -> bool {
    0 <= r && r * r <= a && a < (r + 1) * (r + 1)
}

proof fn lemma_floor_root_unique(a: int, r1: int, r2: int)
    requires
        is_floor_root(a, r1),
        is_floor_root(a, r2),
    ensures
        r1 == r2,
{
    if r1 < r2 {
        assert((r1 + 1) * (r1 + 1) <= r2 * r2) by (nonlinear_arith)
            requires
                0 <= r1 < r2,
        ;
    }
    if r2 < r1 {
        assert((r2 + 1) * (r2 + 1) <= r1 * r1) by (nonlinear_arith)
            requires
                0 <= r2 < r1,
        ;
    }
}

/// Integer square root by bisection.
fn floor_root(a: i64) -> (r: i64)
    requires
        a > 0,
    ensures
        is_floor_root(a as int, r as int),
{
    let mut lo: i64 = 0;
    let mut hi: i64 = 3037000500;
    assert(a < 3037000500 * 3037000500);
    while hi - lo > 1
        invariant
            0 <= lo < hi <= 3037000500,
            lo * lo <= a,
            a < hi * hi,
        decreases hi - lo,
    {
        let mid = lo + (hi - lo) / 2;
        assert(mid * mid <= 3037000499 * 3037000499) by (nonlinear_arith)
            requires
                0 <= mid <= 3037000499,
        ;
        if (mid as i128) * (mid as i128) <= a as i128 {
            lo = mid;
        } else {
            hi = mid;
        }
    }
    assert(hi == lo + 1);
    lo
}

impl Blas for i64 {
    open spec fn zero_v() -> i64 {
        0
    }

    open spec fn one_v() -> i64 {
        1
    }

    open spec fn plus_v(a: i64, b: i64) -> i64 {
        vstd::wrapping::i64_specs::wrapping_add(a, b)
    }

    open spec fn minus_v(a: i64, b: i64) -> i64 {
        vstd::wrapping::i64_specs::wrapping_sub(a, b)
    }

    open spec fn times_v(a: i64, b: i64) -> i64 {
        vstd::wrapping::i64_specs::wrapping_mul(a, b)
    }

    open spec fn root_v(a: i64) -> i64 {
        if a <= 0 {
            0
        } else {
            choose|r: i64| is_floor_root(a as int, r as int)
        }
    }

    open spec fn is_zero_v(a: i64) -> bool {
        a == 0
    }

    open spec fn is_one_v(a: i64) -> bool {
        a == 1
    }

    fn zero() -> (r: i64) {
        0
    }

    fn one() -> (r: i64) {
        1
    }

    fn plus(a: i64, b: i64) -> (r: i64) {
        a.wrapping_add(b)
    }

    fn minus(a: i64, b: i64) -> (r: i64) {
        a.wrapping_sub(b)
    }

    fn times(a: i64, b: i64) -> (r: i64) {
        a.wrapping_mul(b)
    }

    fn root(a: i64) -> (r: i64) {
        if a <= 0 {
            return 0;
        }
        let r = floor_root(a);
        proof {
            let c = choose|q: i64| is_floor_root(a as int, q as int);
            assert(is_floor_root(a as int, c as int));
            lemma_floor_root_unique(a as int, r as int, c as int);
        }
        r
    }

    fn is_zero(a: i64) -> (r: bool) {
        a == 0
    }

    fn is_one(a: i64) -> (r: bool) {
        a == 1
    }

    open spec fn blocking_v() -> (usize, usize, usize, usize, usize) {
        (256, 120, 1024, 6, 8)
    }

    fn blocking() -> (r: (usize, usize, usize, usize, usize)) {
        let (kc, mc, nc) = crate::gemm_params::compute_cache_params_f64();
        (kc, mc, nc, crate::gemm_params::MR_F64, crate::gemm_params::NR_F64)
    }
}

} // verus!
