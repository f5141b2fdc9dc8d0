//! The blocked matrix product: the inner dimension is walked in blocks of
//! `kc`, the result in blocks of `mc` rows and `nc` columns; each block of
//! the operands is packed into panels, from which a kernel computes tiles of
//! `mr x nr` entries.
use vstd::prelude::*;
use crate::blas::{
    Blas,
    strided_dot,
    strided_dot_exec,
    strided_in_bounds,
    in_block,
    operand_in_bounds,
    gemm_keeps_c,
    gemm_entry,
    gemm_general_spec,
    gemm_new_entry,
    blocked_acc,
    block_count,
    block_len,
    depth_block,
    zero_vec,
    lemma_mul_mono,
    lemma_block_index,
    lemma_block_unique,
};
use crate::blas_laws::{strided_at, lemma_strided_dot_congruent};
use crate::packing::{pack_panels, packed_value, panel_count, lemma_decode};

verus! {

/// Entry `idx - co` of a tile of `mr x nr` entries stored from `co` with
/// leading dimension `ld`.
spec fn in_tile(idx: int, co: int, mr: int, nr: int, ld: int) -> bool {
    co <= idx && in_block(idx - co, mr, nr, ld)
}

/// Computes a tile of C from packed panels: entry `(i, j)` of the `mr x nr`
/// tile stored from `co` becomes `alpha * d + beta * entry`, where `d` is
/// the dot product of row `i` of the A panel (`pa[ao + i + p * aw]`) and
/// column `j` of the B panel (`pb[bo + j + p * bw]`) over `kc` steps.
fn kernel<T: Blas>(
    kc: usize,
    alpha: T,
    pa: &[T],
    ao: usize,
    aw: usize,
    pb: &[T],
    bo: usize,
    bw: usize,
    beta: T,
    c: &mut [T],
    co: usize,
    ldc: usize,
    mr: usize,
    nr: usize,
)
    requires
        0 < kc,
        0 < mr,
        0 < nr <= ldc,
        ao + (mr - 1) + (kc - 1) * aw < pa@.len(),
        bo + (nr - 1) + (kc - 1) * bw < pb@.len(),
        co + (mr - 1) * ldc + nr <= old(c)@.len(),
    ensures
        final(c)@.len() == old(c)@.len(),
        forall|idx: int|
            #![trigger final(c)@[idx]]
            0 <= idx < old(c)@.len() ==> final(c)@[idx] == if in_tile(
                idx,
                co as int,
                mr as int,
                nr as int,
                ldc as int,
            ) {
                gemm_entry(
                    alpha,
                    beta,
                    old(c)@[idx],
                    strided_dot(
                        pa@,
                        ao + (idx - co) / (ldc as int),
                        aw as int,
                        pb@,
                        bo + (idx - co) % (ldc as int),
                        bw as int,
                        kc as int,
                    ),
                )
            } else {
                old(c)@[idx]
            },
{
    let ghost c0 = c@;
    let ghost ldi = ldc as int;
    let ghost coi = co as int;
    let c_len = c.len();
    let pa_len = pa.len();
    let pb_len = pb.len();
    let mut i: usize = 0;
    while i < mr
        invariant
            c_len == c@.len(),
            pa_len == pa@.len(),
            pb_len == pb@.len(),
            c@.len() == c0.len(),
            0 < nr <= ldc,
            ldi == ldc,
            coi == co,
            0 < kc,
            ao + (mr - 1) + (kc - 1) * aw < pa@.len(),
            bo + (nr - 1) + (kc - 1) * bw < pb@.len(),
            co + (mr - 1) * ldc + nr <= c0.len(),
            i <= mr,
            forall|idx: int|
                #![trigger c@[idx]]
                0 <= idx < c0.len() ==> c@[idx] == if in_tile(idx, coi, mr as int, nr as int, ldi)
                    && (idx - coi) / ldi < i {
                    gemm_entry(
                        alpha,
                        beta,
                        c0[idx],
                        strided_dot(pa@, ao + (idx - coi) / ldi, aw as int, pb@, bo + (idx - coi) % ldi, bw as int, kc as int),
                    )
                } else {
                    c0[idx]
                },
        decreases mr - i,
    {
        let mut j: usize = 0;
        while j < nr
            invariant
                c_len == c@.len(),
                pa_len == pa@.len(),
                pb_len == pb@.len(),
                c@.len() == c0.len(),
                0 < nr <= ldc,
                ldi == ldc,
                coi == co,
                0 < kc,
                ao + (mr - 1) + (kc - 1) * aw < pa@.len(),
                bo + (nr - 1) + (kc - 1) * bw < pb@.len(),
                co + (mr - 1) * ldc + nr <= c0.len(),
                i < mr,
                j <= nr,
                forall|idx: int|
                    #![trigger c@[idx]]
                    0 <= idx < c0.len() ==> c@[idx] == if in_tile(idx, coi, mr as int, nr as int, ldi)
                        && ((idx - coi) / ldi < i || ((idx - coi) / ldi == i && (idx - coi) % ldi
                        < j)) {
                        gemm_entry(
                            alpha,
                            beta,
                            c0[idx],
                            strided_dot(pa@, ao + (idx - coi) / ldi, aw as int, pb@, bo + (idx - coi) % ldi, bw as int, kc as int),
                        )
                    } else {
                        c0[idx]
                    },
            decreases nr - j,
        {
            proof {
                lemma_mul_mono(i as int, mr - 1, ldc as int);
                lemma_block_index(i as int, j as int, ldc as int);
                lemma_mul_mono(0, kc - 1, aw as int);
                lemma_mul_mono(0, kc - 1, bw as int);
            }
            let idx = co + i * ldc + j;
            let cv = c[idx];
            assert(cv == c0[idx as int]);
            let d = strided_dot_exec(pa, ao + i, aw, pb, bo + j, bw, kc);
            let t1 = T::times(alpha, d);
            let t2 = T::times(beta, cv);
            let v = T::plus(t1, t2);
            c[idx] = v;
            proof {
                assert((idx - coi) / ldi == i && (idx - coi) % ldi == j);
                assert forall|q: int| #![trigger c@[q]] 0 <= q < c0.len() implies c@[q] == if in_tile(q, coi, mr as int, nr as int, ldi)
                    && ((q - coi) / ldi < i || ((q - coi) / ldi == i && (q - coi) % ldi < j + 1)) {
                    gemm_entry(
                        alpha,
                        beta,
                        c0[q],
                        strided_dot(pa@, ao + (q - coi) / ldi, aw as int, pb@, bo + (q - coi) % ldi, bw as int, kc as int),
                    )
                } else {
                    c0[q]
                } by {
                    if q != idx && in_tile(q, coi, mr as int, nr as int, ldi) && (q - coi) / ldi == i
                        && (q - coi) % ldi == j {
                        lemma_block_unique(q - coi, i as int, j as int, ldi);
                    }
                }
            }
            j = j + 1;
        }
        i = i + 1;
    }
    proof {
        assert forall|q: int| #![trigger c@[q]] 0 <= q < c0.len() implies c@[q] == if in_tile(q, coi, mr as int, nr as int, ldi) {
            gemm_entry(
                alpha,
                beta,
                c0[q],
                strided_dot(pa@, ao + (q - coi) / ldi, aw as int, pb@, bo + (q - coi) % ldi, bw as int, kc as int),
            )
        } else {
            c0[q]
        } by {}
    }
}

/// A packed panel read down one of its rows is the source row it was
/// packed from.
proof fn lemma_packed_row<T>(
    pack: Seq<T>,
    src: Seq<T>,
    base: int,
    rs: int,
    ks: int,
    rows: int,
    depth: int,
    width: int,
    zero: T,
    r0: int,
    w: int,
)
    requires
        width > 0,
        depth > 0,
        0 <= r0,
        r0 % width == 0,
        0 <= w < width,
        r0 + w < rows,
        forall|q: int|
            0 <= q < panel_count(rows, width) * depth * width ==> #[trigger] pack[q] == packed_value(
                src,
                base,
                rs,
                ks,
                rows,
                depth,
                width,
                zero,
                q,
            ),
    ensures
        forall|p: int|
            0 <= p < depth ==> #[trigger] strided_at(pack, r0 * depth + w, width, p) == strided_at(
                src,
                base + (r0 + w) * rs,
                ks,
                p,
            ),
{
    let blk = r0 / width;
    vstd::arithmetic::div_mod::lemma_fundamental_div_mod(r0, width);
    vstd::arithmetic::div_mod::lemma_fundamental_div_mod(rows, width);
    assert(r0 == blk * width) by (nonlinear_arith)
        requires
            r0 == width * (r0 / width) + r0 % width,
            r0 % width == 0,
            blk == r0 / width,
    ;
    assert(blk < panel_count(rows, width)) by (nonlinear_arith)
        requires
            r0 == blk * width,
            r0 < rows,
            rows == width * (rows / width) + rows % width,
            0 <= rows % width < width,
            width > 0,
            panel_count(rows, width) == rows / width + if rows % width != 0 {
                1int
            } else {
                0int
            },
    ;
    assert forall|p: int| 0 <= p < depth implies #[trigger] strided_at(pack, r0 * depth + w, width, p)
        == strided_at(src, base + (r0 + w) * rs, ks, p) by {
        let q = r0 * depth + w + p * width;
        assert(q == (blk * depth + p) * width + w) by (nonlinear_arith)
            requires
                q == r0 * depth + w + p * width,
                r0 == blk * width,
        ;
        lemma_decode(q, blk, p, w, depth, width);
        assert(q < panel_count(rows, width) * depth * width) by (nonlinear_arith)
            requires
                q == (blk * depth + p) * width + w,
                0 <= p < depth,
                0 <= w < width,
                0 <= blk < panel_count(rows, width),
        ;
        assert(0 <= q) by (nonlinear_arith)
            requires
                q == (blk * depth + p) * width + w,
                0 <= p,
                0 <= w,
                0 <= blk,
                depth > 0,
                width > 0,
        ;
        assert(blk * width + w == r0 + w);
    }
}

/// `idx` lies in the tile of `mr x nr` entries of a matrix with leading
/// dimension `ld` whose corner is at row `i0`, column `j0`, exactly when its
/// row and column fall in the tile's ranges.
proof fn lemma_tile_index(idx: int, i0: int, j0: int, mr: int, nr: int, ld: int)
    requires
        0 <= idx,
        0 <= i0,
        0 <= j0,
        j0 + nr <= ld,
        0 < ld,
    ensures
        in_tile(idx, i0 * ld + j0, mr, nr, ld) <==> (i0 <= idx / ld < i0 + mr && j0 <= idx % ld
            < j0 + nr),
        in_tile(idx, i0 * ld + j0, mr, nr, ld) ==> (idx - (i0 * ld + j0)) / ld == idx / ld - i0
            && (idx - (i0 * ld + j0)) % ld == idx % ld - j0,
{
    let i = idx / ld;
    let j = idx % ld;
    vstd::arithmetic::div_mod::lemma_fundamental_div_mod(idx, ld);
    assert(idx == i * ld + j) by (nonlinear_arith)
        requires
            idx == ld * (idx / ld) + idx % ld,
            i == idx / ld,
            j == idx % ld,
    ;
    let d = idx - (i0 * ld + j0);
    if i0 <= i < i0 + mr && j0 <= j < j0 + nr {
        assert(d == (i - i0) * ld + (j - j0)) by (nonlinear_arith)
            requires
                d == idx - (i0 * ld + j0),
                idx == i * ld + j,
        ;
        lemma_block_index(i - i0, j - j0, ld);
        assert(0 <= d) by (nonlinear_arith)
            requires
                d == (i - i0) * ld + (j - j0),
                i >= i0,
                j >= j0,
                ld > 0,
        ;
    }
    if in_tile(idx, i0 * ld + j0, mr, nr, ld) {
        let di = d / ld;
        let dj = d % ld;
        vstd::arithmetic::div_mod::lemma_fundamental_div_mod(d, ld);
        assert(idx == (i0 + di) * ld + (j0 + dj)) by (nonlinear_arith)
            requires
                d == ld * di + dj,
                d == idx - (i0 * ld + j0),
        ;
        lemma_block_index(i0 + di, j0 + dj, ld);
    }
}

/// How many blocks of the inner dimension entry `(i, j)` has taken in,
/// when the product has reached the stage `(jc, ncc, blk, ic, mcc, jr, nrc,
/// ir)` of its loops.
spec fn done_count(i: int, j: int, nb: int, st: (int, int, int, int, int, int, int, int)) -> int {
    let (jc, ncc, blk, ic, mcc, jr, nrc, ir) = st;
    if j < jc {
        nb
    } else if j >= jc + ncc {
        0
    } else if i < ic {
        blk + 1
    } else if i >= ic + mcc {
        blk
    } else if j < jc + jr {
        blk + 1
    } else if j >= jc + jr + nrc {
        blk
    } else if i < ic + ir {
        blk + 1
    } else {
        blk
    }
}

/// The operands of a blocked product `alpha * op(A) * op(B) + beta * C0`.
struct ProductView<T> {
    m: int,
    n: int,
    k: int,
    kc: int,
    ldc: int,
    alpha: T,
    a: Seq<T>,
    ars: int,
    aps: int,
    b: Seq<T>,
    bps: int,
    bcs: int,
    beta: T,
    c0: Seq<T>,
}

/// Entry `idx` of C once the product has reached stage `st`.
spec fn stage_value<T: Blas>(p: ProductView<T>, st: (int, int, int, int, int, int, int, int), idx: int) -> T {
    if in_block(idx, p.m, p.n, p.ldc) {
        blocked_acc(
            p.kc,
            p.k,
            p.alpha,
            p.a,
            p.ars,
            p.aps,
            p.b,
            p.bps,
            p.bcs,
            p.beta,
            p.c0[idx],
            idx / p.ldc,
            idx % p.ldc,
            done_count(idx / p.ldc, idx % p.ldc, block_count(p.k, p.kc), st),
        )
    } else {
        p.c0[idx]
    }
}

/// `c` holds the entries of C at stage `st`.
spec fn at_stage<T: Blas>(p: ProductView<T>, c: Seq<T>, st: (int, int, int, int, int, int, int, int)) -> bool {
    &&& c.len() == p.c0.len()
    &&& forall|idx: int| #![trigger c[idx]] 0 <= idx < c.len() ==> c[idx] == stage_value(p, st, idx)
}

/// Two stages at which every entry has taken in as many blocks hold the
/// same entries.
proof fn lemma_restage<T: Blas>(
    p: ProductView<T>,
    c: Seq<T>,
    s1: (int, int, int, int, int, int, int, int),
    s2: (int, int, int, int, int, int, int, int),
)
    requires
        at_stage(p, c, s1),
        forall|i: int, j: int|
            0 <= i < p.m && 0 <= j < p.n ==> done_count(i, j, block_count(p.k, p.kc), s1)
                == done_count(i, j, block_count(p.k, p.kc), s2),
    ensures
        at_stage(p, c, s2),
{
    assert forall|idx: int| #![trigger c[idx]] 0 <= idx < c.len() implies c[idx] == stage_value(p, s2, idx) by {
        assert(c[idx] == stage_value(p, s1, idx));
        if in_block(idx, p.m, p.n, p.ldc) {
            let i = idx / p.ldc;
            let j = idx % p.ldc;
            assert(done_count(i, j, block_count(p.k, p.kc), s1) == done_count(i, j, block_count(p.k, p.kc), s2));
        }
    }
}

/// The dot products a kernel forms from the packed panels of a tile are the
/// dot products of the tile's rows of `op(A)` and columns of `op(B)` over
/// the current block of the inner dimension.
proof fn lemma_tile_dots<T: Blas>(
    pa: Seq<T>,
    pb: Seq<T>,
    a: Seq<T>,
    ars: int,
    aps: int,
    b: Seq<T>,
    bps: int,
    bcs: int,
    zero: T,
    pc: int,
    kcc: int,
    ic: int,
    mcc: int,
    ir: int,
    mrc: int,
    mr: int,
    jc: int,
    ncc: int,
    jr: int,
    nrc: int,
    nr: int,
)
    requires
        kcc > 0,
        mr > 0,
        nr > 0,
        0 <= ir,
        ir % mr == 0,
        mrc <= mr,
        ir + mrc <= mcc,
        0 <= jr,
        jr % nr == 0,
        nrc <= nr,
        jr + nrc <= ncc,
        forall|q: int|
            0 <= q < panel_count(mcc, mr) * kcc * mr ==> #[trigger] pa[q] == packed_value(
                a,
                ic * ars + pc * aps,
                ars,
                aps,
                mcc,
                kcc,
                mr,
                zero,
                q,
            ),
        forall|q: int|
            0 <= q < panel_count(ncc, nr) * kcc * nr ==> #[trigger] pb[q] == packed_value(
                b,
                pc * bps + jc * bcs,
                bcs,
                bps,
                ncc,
                kcc,
                nr,
                zero,
                q,
            ),
    ensures
        forall|ii: int, jj: int|
            0 <= ii < mrc && 0 <= jj < nrc ==> #[trigger] strided_dot(
                pa,
                ir * kcc + ii,
                mr,
                pb,
                jr * kcc + jj,
                nr,
                kcc,
            ) == strided_dot(a, (ic + ir + ii) * ars + pc * aps, aps, b, pc * bps + (jc + jr + jj) * bcs, bps, kcc),
{
    assert forall|ii: int, jj: int| 0 <= ii < mrc && 0 <= jj < nrc implies #[trigger] strided_dot(
        pa,
        ir * kcc + ii,
        mr,
        pb,
        jr * kcc + jj,
        nr,
        kcc,
    ) == strided_dot(a, (ic + ir + ii) * ars + pc * aps, aps, b, pc * bps + (jc + jr + jj) * bcs, bps, kcc) by {
        lemma_packed_row(pa, a, ic * ars + pc * aps, ars, aps, mcc, kcc, mr, zero, ir, ii);
        lemma_packed_row(pb, b, pc * bps + jc * bcs, bcs, bps, ncc, kcc, nr, zero, jr, jj);
        assert forall|q: int| 0 <= q < kcc implies #[trigger] strided_at(a, (ic + ir + ii) * ars + pc * aps, aps, q)
            == strided_at(a, ic * ars + pc * aps + (ir + ii) * ars, aps, q) by {
            assert((ic + ir + ii) * ars == ic * ars + (ir + ii) * ars) by (nonlinear_arith);
        }
        assert forall|q: int| 0 <= q < kcc implies #[trigger] strided_at(b, pc * bps + (jc + jr + jj) * bcs, bps, q)
            == strided_at(b, pc * bps + jc * bcs + (jr + jj) * bcs, bps, q) by {
            assert((jc + jr + jj) * bcs == jc * bcs + (jr + jj) * bcs) by (nonlinear_arith);
        }
        lemma_strided_dot_congruent(
            pa,
            ir * kcc + ii,
            mr,
            a,
            (ic + ir + ii) * ars + pc * aps,
            aps,
            pb,
            jr * kcc + jj,
            nr,
            b,
            pc * bps + (jc + jr + jj) * bcs,
            bps,
            kcc,
        );
    }
}

/// One kernel call moves the product from stage `(.., ir)` to stage
/// `(.., ir + mrc)`: the entries of its tile take in block `blk`, the others
/// stay.
proof fn lemma_kernel_step<T: Blas>(
    p: ProductView<T>,
    before: Seq<T>,
    after: Seq<T>,
    st: (int, int, int, int, int, int, int, int),
    mrc: int,
    pa: Seq<T>,
    mr: int,
    pb: Seq<T>,
    nr: int,
    beta_use: T,
)
    requires
        at_stage(p, before, st),
        ({
            let (jc, ncc, blk, ic, mcc, jr, nrc, ir) = st;
            &&& 0 <= jc && 0 < ncc && jc + ncc <= p.n
            &&& p.n <= p.ldc
            &&& 0 <= ic && 0 < mcc && ic + mcc <= p.m
            &&& 0 <= jr && 0 < nrc && jr + nrc <= ncc
            &&& 0 <= ir && 0 < mrc && ir + mrc <= mcc
            &&& p.kc > 0
            &&& 0 <= blk
            &&& blk * p.kc < p.k
            &&& beta_use == if blk == 0 {
                p.beta
            } else {
                T::one_v()
            }
            &&& forall|ii: int, jj: int|
                0 <= ii < mrc && 0 <= jj < nrc ==> #[trigger] strided_dot(
                    pa,
                    ir * block_len(p.k, p.kc, blk) + ii,
                    mr,
                    pb,
                    jr * block_len(p.k, p.kc, blk) + jj,
                    nr,
                    block_len(p.k, p.kc, blk),
                ) == strided_dot(
                    p.a,
                    (ic + ir + ii) * p.ars + (blk * p.kc) * p.aps,
                    p.aps,
                    p.b,
                    (blk * p.kc) * p.bps + (jc + jr + jj) * p.bcs,
                    p.bps,
                    block_len(p.k, p.kc, blk),
                )
            &&& after.len() == before.len()
            &&& forall|idx: int|
                #![trigger after[idx]]
                0 <= idx < before.len() ==> after[idx] == if in_tile(
                    idx,
                    (ic + ir) * p.ldc + jc + jr,
                    mrc,
                    nrc,
                    p.ldc,
                ) {
                    gemm_entry(
                        p.alpha,
                        beta_use,
                        before[idx],
                        strided_dot(
                            pa,
                            ir * block_len(p.k, p.kc, blk) + (idx - ((ic + ir) * p.ldc + jc + jr))
                                / p.ldc,
                            mr,
                            pb,
                            jr * block_len(p.k, p.kc, blk) + (idx - ((ic + ir) * p.ldc + jc + jr))
                                % p.ldc,
                            nr,
                            block_len(p.k, p.kc, blk),
                        ),
                    )
                } else {
                    before[idx]
                }
        }),
    ensures
        at_stage(p, after, (st.0, st.1, st.2, st.3, st.4, st.5, st.6, st.7 + mrc)),
{
    let (jc, ncc, blk, ic, mcc, jr, nrc, ir) = st;
    let st2 = (jc, ncc, blk, ic, mcc, jr, nrc, ir + mrc);
    let nb = block_count(p.k, p.kc);
    let kcc = block_len(p.k, p.kc, blk);
    let co = (ic + ir) * p.ldc + jc + jr;
    assert forall|idx: int| #![trigger after[idx]] 0 <= idx < after.len() implies after[idx]
        == stage_value(p, st2, idx) by {
        assert(before[idx] == stage_value(p, st, idx));
        lemma_tile_index(idx, ic + ir, jc + jr, mrc, nrc, p.ldc);
        let i = idx / p.ldc;
        let j = idx % p.ldc;
        if in_tile(idx, co, mrc, nrc, p.ldc) {
            assert(in_block(idx, p.m, p.n, p.ldc));
            assert(done_count(i, j, nb, st) == blk);
            assert(done_count(i, j, nb, st2) == blk + 1);
            let ii = i - (ic + ir);
            let jj = j - (jc + jr);
            assert(strided_dot(pa, ir * kcc + ii, mr, pb, jr * kcc + jj, nr, kcc) == strided_dot(
                p.a,
                (ic + ir + ii) * p.ars + (blk * p.kc) * p.aps,
                p.aps,
                p.b,
                (blk * p.kc) * p.bps + (jc + jr + jj) * p.bcs,
                p.bps,
                kcc,
            ));
            assert(blk + 1 - 1 == blk);
        } else {
            if in_block(idx, p.m, p.n, p.ldc) {
                assert(done_count(i, j, nb, st) == done_count(i, j, nb, st2));
            }
        }
    }
}

/// A tile of a panel starting at row `ir` (a multiple of `mr`) of a block
/// of `mcc <= mc` rows lies in a buffer of `(mc / mr + 1) * mr * kc`
/// elements, and so does the whole packed block.
proof fn lemma_panel_fits(ir: int, mrc: int, mr: int, mcc: int, mc: int, kcc: int, kc: int)
    requires
        mr > 0,
        0 <= ir < mcc <= mc,
        ir % mr == 0,
        0 < mrc <= mr,
        0 < kcc <= kc,
    ensures
        ir * kcc + (mrc - 1) + (kcc - 1) * mr < (mc / mr + 1) * mr * kc,
        panel_count(mcc, mr) * kcc * mr <= (mc / mr + 1) * mr * kc,
{
    vstd::arithmetic::div_mod::lemma_fundamental_div_mod(ir, mr);
    vstd::arithmetic::div_mod::lemma_fundamental_div_mod(mcc, mr);
    vstd::arithmetic::div_mod::lemma_div_is_ordered(mcc, mc, mr);
    vstd::arithmetic::div_mod::lemma_div_is_ordered(ir, mcc - 1, mr);
    vstd::arithmetic::div_mod::lemma_fundamental_div_mod(mcc - 1, mr);
    let pi = ir / mr;
    let pcnt = panel_count(mcc, mr);
    assert(pcnt <= mc / mr + 1) by {
        if mcc % mr != 0 {
            assert(pcnt == mcc / mr + 1);
        } else {
            assert(pcnt == mcc / mr);
        }
    }
    assert(ir == pi * mr) by (nonlinear_arith)
        requires
            ir == mr * (ir / mr) + ir % mr,
            ir % mr == 0,
            pi == ir / mr,
    ;
    assert(pi + 1 <= mc / mr + 1) by {
        assert(pi <= (mcc - 1) / mr);
        vstd::arithmetic::div_mod::lemma_div_is_ordered(mcc - 1, mc, mr);
    }
    assert(ir * kcc + (mrc - 1) + (kcc - 1) * mr < (pi + 1) * mr * kcc) by (nonlinear_arith)
        requires
            ir == pi * mr,
            0 < mrc <= mr,
            0 < kcc,
    ;
    assert((pi + 1) * mr * kcc <= (mc / mr + 1) * mr * kc) by (nonlinear_arith)
        requires
            pi + 1 <= mc / mr + 1,
            0 <= pi,
            0 < kcc <= kc,
            mr > 0,
    ;
    assert(pcnt * kcc * mr <= (mc / mr + 1) * mr * kc) by (nonlinear_arith)
        requires
            pcnt <= mc / mr + 1,
            0 <= pcnt,
            0 < kcc <= kc,
            mr > 0,
    ;
}

/// Stepping over block `blk` of the inner dimension: either a whole block
/// of `kc` with more to come, or the rest, after which all blocks are done.
pub(crate) proof fn lemma_block_step(k: int, kc: int, blk: int)
    requires
        kc > 0,
        0 <= blk,
        blk * kc < k,
    ensures
        blk * kc + block_len(k, kc, blk) < k ==> block_len(k, kc, blk) == kc,
        blk * kc + block_len(k, kc, blk) < k ==> blk * kc + block_len(k, kc, blk) == (blk + 1) * kc,
        blk * kc + block_len(k, kc, blk) >= k ==> block_count(k, kc) == blk + 1,
        0 < block_len(k, kc, blk) <= kc,
{
    if k - blk * kc <= kc {
        let r = k - 1 - blk * kc;
        assert(k + kc - 1 == (blk + 1) * kc + r) by (nonlinear_arith)
            requires
                r == k - 1 - blk * kc,
        ;
        vstd::arithmetic::div_mod::lemma_fundamental_div_mod_converse(k + kc - 1, kc, blk + 1, r);
    }
    assert((blk + 1) * kc == blk * kc + kc) by (nonlinear_arith);
}

/// Scales the `m x n` block of C by `beta`: `C(i, j) = C(i, j) * beta`.
fn scale_block<T: Blas>(m: usize, n: usize, beta: T, c: &mut [T], ldc: usize)
    requires
        0 < n <= ldc,
        old(c)@.len() >= m * ldc,
    ensures
        final(c)@.len() == old(c)@.len(),
        forall|idx: int|
            #![trigger final(c)@[idx]]
            0 <= idx < old(c)@.len() ==> final(c)@[idx] == if in_block(
                idx,
                m as int,
                n as int,
                ldc as int,
            ) {
                T::times_v(old(c)@[idx], beta)
            } else {
                old(c)@[idx]
            },
{
    let ghost c0 = c@;
    let ghost ldi = ldc as int;
    let c_len = c.len();
    let mut i: usize = 0;
    while i < m
        invariant
            c_len == c@.len(),
            c@.len() == c0.len(),
            c0.len() >= m * ldc,
            0 < n <= ldc,
            ldi == ldc,
            i <= m,
            forall|idx: int|
                #![trigger c@[idx]]
                0 <= idx < c0.len() ==> c@[idx] == if in_block(idx, m as int, n as int, ldi) && idx
                    / ldi < i {
                    T::times_v(c0[idx], beta)
                } else {
                    c0[idx]
                },
        decreases m - i,
    {
        let mut j: usize = 0;
        while j < n
            invariant
                c_len == c@.len(),
                c@.len() == c0.len(),
                c0.len() >= m * ldc,
                0 < n <= ldc,
                ldi == ldc,
                i < m,
                j <= n,
                forall|idx: int|
                    #![trigger c@[idx]]
                    0 <= idx < c0.len() ==> c@[idx] == if in_block(idx, m as int, n as int, ldi) && (
                    idx / ldi < i || (idx / ldi == i && idx % ldi < j)) {
                        T::times_v(c0[idx], beta)
                    } else {
                        c0[idx]
                    },
            decreases n - j,
        {
            proof {
                lemma_mul_mono(i as int, m - 1, ldc as int);
                assert((m - 1) * ldc + ldc == m * ldc) by (nonlinear_arith);
                lemma_block_index(i as int, j as int, ldc as int);
            }
            let idx = i * ldc + j;
            let cv = c[idx];
            let v = T::times(cv, beta);
            c[idx] = v;
            proof {
                assert forall|q: int| #![trigger c@[q]] 0 <= q < c0.len() implies c@[q] == if in_block(q, m as int, n as int, ldi) && (
                    q / ldi < i || (q / ldi == i && q % ldi < j + 1)) {
                    T::times_v(c0[q], beta)
                } else {
                    c0[q]
                } by {
                    if q != idx && in_block(q, m as int, n as int, ldi) && q / ldi == i && q % ldi == j {
                        lemma_block_unique(q, i as int, j as int, ldi);
                    }
                }
            }
            j = j + 1;
        }
        i = i + 1;
    }
}

/// `C = alpha * op(A) * op(B) + beta * C` on the `m x n` block of C, with
/// `op(A)(i, p) = a[i*ars + p*aps]` and `op(B)(p, j) = b[p*bps + j*bcs]`:
/// the blocked algorithm, with the block sizes of the element type.
pub(crate) fn gemm_blocked<T: Blas>(
    m: usize,
    n: usize,
    k: usize,
    alpha: T,
    a: &[T],
    ars: usize,
    aps: usize,
    b: &[T],
    bps: usize,
    bcs: usize,
    beta: T,
    c: &mut [T],
    ldc: usize,
)
    requires
        old(c)@.len() >= m * ldc,
        !gemm_keeps_c(m as int, n as int, k as int, alpha, beta) ==> n <= ldc,
        !gemm_keeps_c(m as int, n as int, k as int, alpha, beta) && !T::is_zero_v(alpha)
            ==> operand_in_bounds(a@.len() as int, m as int, ars as int, k as int, aps as int),
        !gemm_keeps_c(m as int, n as int, k as int, alpha, beta) && !T::is_zero_v(alpha)
            ==> operand_in_bounds(b@.len() as int, n as int, bcs as int, k as int, bps as int),
    ensures
        final(c)@ == gemm_general_spec(
            m as int,
            n as int,
            k as int,
            alpha,
            a@,
            ars as int,
            aps as int,
            b@,
            bps as int,
            bcs as int,
            beta,
            old(c)@,
            ldc as int,
        ),
{
    let alpha_zero = T::is_zero(alpha);
    if m == 0 || n == 0 || (alpha_zero && T::is_one(beta)) {
        return;
    }
    let ghost c0 = c@;
    if alpha_zero || k == 0 {
        scale_block(m, n, beta, c, ldc);
        proof {
            let target = gemm_general_spec(m as int, n as int, k as int, alpha, a@, ars as int, aps as int, b@, bps as int, bcs as int, beta, c0, ldc as int);
            assert forall|q: int| 0 <= q < c0.len() implies #[trigger] c@[q] == target[q] by {}
            assert(c@ =~= target);
        }
        return;
    }
    let (kc, mc, nc, mr, nr) = T::blocking();
    let ghost p = ProductView {
        m: m as int,
        n: n as int,
        k: k as int,
        kc: kc as int,
        ldc: ldc as int,
        alpha,
        a: a@,
        ars: ars as int,
        aps: aps as int,
        b: b@,
        bps: bps as int,
        bcs: bcs as int,
        beta,
        c0,
    };
    let ghost nb = block_count(k as int, kc as int);
    let a_len = a.len();
    let b_len = b.len();
    let c_len = c.len();
    let zero = T::zero();
    proof {
        vstd::arithmetic::div_mod::lemma_div_is_ordered_by_denominator(mc as int, 1, mr as int);
        vstd::arithmetic::div_mod::lemma_div_is_ordered_by_denominator(nc as int, 1, nr as int);
        assert((mc / mr + 1) * mr * kc <= 4097 * 64 * 4096) by (nonlinear_arith)
            requires
                mc / mr <= mc <= 4096,
                0 < mr <= 64,
                0 < kc <= 4096,
        ;
        assert((nc / nr + 1) * nr * kc <= 4097 * 64 * 4096) by (nonlinear_arith)
            requires
                nc / nr <= nc <= 4096,
                0 < nr <= 64,
                0 < kc <= 4096,
        ;
        assert((mc / mr + 1) * mr <= 4097 * 64) by (nonlinear_arith)
            requires
                mc / mr <= mc <= 4096,
                0 < mr <= 64,
        ;
        assert((nc / nr + 1) * nr <= 4097 * 64) by (nonlinear_arith)
            requires
                nc / nr <= nc <= 4096,
                0 < nr <= 64,
        ;
    }
    let pa_len = (mc / mr + 1) * mr * kc;
    let pb_len = (nc / nr + 1) * nr * kc;
    let mut pa: Vec<T> = zero_vec(pa_len);
    let mut pb: Vec<T> = zero_vec(pb_len);
    proof {
        assert(at_stage(p, c@, (0, 0, 0, 0, 0, 0, 0, 0)));
    }
    let mut jc: usize = 0;
    while jc < n
        invariant
            a_len == a@.len(),
            b_len == b@.len(),
            c_len == c@.len(),
            p.m == m && p.n == n && p.k == k && p.kc == kc && p.ldc == ldc,
            p.alpha == alpha && p.beta == beta && p.a == a@ && p.b == b@,
            p.ars == ars && p.aps == aps && p.bps == bps && p.bcs == bcs,
            p.c0 == c0,
            nb == block_count(k as int, kc as int),
            0 < kc <= 4096 && 0 < mc <= 4096 && 0 < nc <= 4096 && 0 < mr <= 64 && 0 < nr <= 64,
            pa_len == (mc / mr + 1) * mr * kc,
            pb_len == (nc / nr + 1) * nr * kc,
            pa@.len() == pa_len,
            pb@.len() == pb_len,
            zero == T::zero_v(),
            0 < m,
            0 < n <= ldc,
            0 < k,
            c0.len() >= m * ldc,
            operand_in_bounds(a@.len() as int, m as int, ars as int, k as int, aps as int),
            operand_in_bounds(b@.len() as int, n as int, bcs as int, k as int, bps as int),
            jc <= n,
            at_stage(p, c@, (jc as int, 0, 0, 0, 0, 0, 0, 0)),
        decreases n - jc,
    {
        let ncc = if nc < n - jc {
            nc
        } else {
            n - jc
        };
        proof {
            lemma_restage(p, c@, (jc as int, 0, 0, 0, 0, 0, 0, 0), (jc as int, ncc as int, 0, 0, 0, 0, 0, 0));
        }
        let mut pc: usize = 0;
        let mut blk: usize = 0;
        while pc < k
            invariant
                a_len == a@.len(),
                b_len == b@.len(),
                c_len == c@.len(),
                p.m == m && p.n == n && p.k == k && p.kc == kc && p.ldc == ldc,
                p.alpha == alpha && p.beta == beta && p.a == a@ && p.b == b@,
                p.ars == ars && p.aps == aps && p.bps == bps && p.bcs == bcs,
                p.c0 == c0,
                nb == block_count(k as int, kc as int),
                0 < kc <= 4096 && 0 < mc <= 4096 && 0 < nc <= 4096 && 0 < mr <= 64 && 0 < nr <= 64,
                pa_len == (mc / mr + 1) * mr * kc,
                pb_len == (nc / nr + 1) * nr * kc,
                pa@.len() == pa_len,
                pb@.len() == pb_len,
                zero == T::zero_v(),
                0 < m,
                0 < n <= ldc,
                0 < k,
                c0.len() >= m * ldc,
                operand_in_bounds(a@.len() as int, m as int, ars as int, k as int, aps as int),
                operand_in_bounds(b@.len() as int, n as int, bcs as int, k as int, bps as int),
                jc < n,
                0 < ncc <= nc,
                jc + ncc <= n,
                pc <= k,
                pc < k ==> pc == blk * kc,
                pc == k ==> blk == nb,
                at_stage(p, c@, (jc as int, ncc as int, blk as int, 0, 0, 0, 0, 0)),
            decreases k - pc,
        {
            proof {
                lemma_block_step(k as int, kc as int, blk as int);
            }
            let kcc = if kc < k - pc {
                kc
            } else {
                k - pc
            };
            assert(kcc == block_len(k as int, kc as int, blk as int));
            let beta_use = if pc == 0 {
                beta
            } else {
                T::one()
            };
            proof {
                if pc == 0 {
                    assert(blk == 0) by (nonlinear_arith)
                        requires
                            0 == blk * kc,
                            kc > 0,
                    ;
                } else {
                    assert(blk != 0);
                }
                lemma_panel_fits(0, nr as int, nr as int, ncc as int, nc as int, kcc as int, kc as int);
                lemma_mul_mono((jc + ncc - 1) as int, n - 1, bcs as int);
                lemma_mul_mono((pc + kcc - 1) as int, k - 1, bps as int);
                assert(pc * bps + jc * bcs + (ncc - 1) * bcs + (kcc - 1) * bps == (jc + ncc - 1)
                    * bcs + (pc + kcc - 1) * bps) by (nonlinear_arith);
                lemma_mul_mono(0, pc as int, bps as int);
                lemma_mul_mono(0, jc as int, bcs as int);
                lemma_mul_mono(0, (ncc - 1) as int, bcs as int);
                lemma_mul_mono(0, (kcc - 1) as int, bps as int);
            }
            let b_base = pc * bps + jc * bcs;
            pack_panels(pb.as_mut_slice(), b, b_base, bcs, bps, ncc, kcc, nr, zero);
            let mut ic: usize = 0;
            while ic < m
                invariant
                    a_len == a@.len(),
                    b_len == b@.len(),
                    c_len == c@.len(),
                    p.m == m && p.n == n && p.k == k && p.kc == kc && p.ldc == ldc,
                    p.alpha == alpha && p.beta == beta && p.a == a@ && p.b == b@,
                    p.ars == ars && p.aps == aps && p.bps == bps && p.bcs == bcs,
                    p.c0 == c0,
                    nb == block_count(k as int, kc as int),
                    0 < kc <= 4096 && 0 < mc <= 4096 && 0 < nc <= 4096 && 0 < mr <= 64 && 0 < nr <= 64,
                    pa_len == (mc / mr + 1) * mr * kc,
                    pb_len == (nc / nr + 1) * nr * kc,
                    pa@.len() == pa_len,
                    pb@.len() == pb_len,
                    zero == T::zero_v(),
                    0 < m,
                    0 < n <= ldc,
                    0 < k,
                    c0.len() >= m * ldc,
                    operand_in_bounds(a@.len() as int, m as int, ars as int, k as int, aps as int),
                    operand_in_bounds(b@.len() as int, n as int, bcs as int, k as int, bps as int),
                    jc < n,
                    0 < ncc <= nc,
                    jc + ncc <= n,
                    pc < k,
                    pc == blk * kc,
                    kcc == block_len(k as int, kc as int, blk as int),
                    0 < kcc <= kc,
                    pc + kcc <= k,
                    beta_use == if blk == 0 {
                        beta
                    } else {
                        T::one_v()
                    },
                    b_base == pc * bps + jc * bcs,
                    forall|q: int|
                        0 <= q < panel_count(ncc as int, nr as int) * kcc * nr ==> #[trigger] pb@[q]
                            == packed_value(b@, b_base as int, bcs as int, bps as int, ncc as int, kcc as int, nr as int, zero, q),
                    ic <= m,
                    at_stage(p, c@, (jc as int, ncc as int, blk as int, ic as int, 0, 0, 0, 0)),
                decreases m - ic,
            {
                let mcc = if mc < m - ic {
                    mc
                } else {
                    m - ic
                };
                proof {
                    lemma_panel_fits(0, mr as int, mr as int, mcc as int, mc as int, kcc as int, kc as int);
                    lemma_mul_mono((ic + mcc - 1) as int, m - 1, ars as int);
                    lemma_mul_mono((pc + kcc - 1) as int, k - 1, aps as int);
                    assert(ic * ars + pc * aps + (mcc - 1) * ars + (kcc - 1) * aps == (ic + mcc - 1)
                        * ars + (pc + kcc - 1) * aps) by (nonlinear_arith);
                    lemma_mul_mono(0, ic as int, ars as int);
                    lemma_mul_mono(0, pc as int, aps as int);
                    lemma_mul_mono(0, (mcc - 1) as int, ars as int);
                    lemma_mul_mono(0, (kcc - 1) as int, aps as int);
                }
                let a_base = ic * ars + pc * aps;
                pack_panels(pa.as_mut_slice(), a, a_base, ars, aps, mcc, kcc, mr, zero);
                proof {
                    lemma_restage(
                        p,
                        c@,
                        (jc as int, ncc as int, blk as int, ic as int, 0, 0, 0, 0),
                        (jc as int, ncc as int, blk as int, ic as int, mcc as int, 0, 0, 0),
                    );
                }
                let mut jr: usize = 0;
                while jr < ncc
                    invariant
                        a_len == a@.len(),
                        b_len == b@.len(),
                        c_len == c@.len(),
                        p.m == m && p.n == n && p.k == k && p.kc == kc && p.ldc == ldc,
                        p.alpha == alpha && p.beta == beta && p.a == a@ && p.b == b@,
                        p.ars == ars && p.aps == aps && p.bps == bps && p.bcs == bcs,
                        p.c0 == c0,
                        nb == block_count(k as int, kc as int),
                        0 < kc <= 4096 && 0 < mc <= 4096 && 0 < nc <= 4096 && 0 < mr <= 64 && 0 < nr <= 64,
                        pa_len == (mc / mr + 1) * mr * kc,
                        pb_len == (nc / nr + 1) * nr * kc,
                        pa@.len() == pa_len,
                        pb@.len() == pb_len,
                        0 < m,
                        0 < n <= ldc,
                        0 < k,
                        c0.len() >= m * ldc,
                        jc < n,
                        0 < ncc <= nc,
                        jc + ncc <= n,
                        pc < k,
                        pc == blk * kc,
                        kcc == block_len(k as int, kc as int, blk as int),
                        0 < kcc <= kc,
                        beta_use == if blk == 0 {
                            beta
                        } else {
                            T::one_v()
                        },
                        b_base == pc * bps + jc * bcs,
                        forall|q: int|
                            0 <= q < panel_count(ncc as int, nr as int) * kcc * nr ==> #[trigger] pb@[q]
                                == packed_value(b@, b_base as int, bcs as int, bps as int, ncc as int, kcc as int, nr as int, zero, q),
                        ic < m,
                        0 < mcc <= mc,
                        ic + mcc <= m,
                        a_base == ic * ars + pc * aps,
                        forall|q: int|
                            0 <= q < panel_count(mcc as int, mr as int) * kcc * mr ==> #[trigger] pa@[q]
                                == packed_value(a@, a_base as int, ars as int, aps as int, mcc as int, kcc as int, mr as int, zero, q),
                        jr <= ncc,
                        jr < ncc ==> jr % nr == 0,
                        at_stage(p, c@, (jc as int, ncc as int, blk as int, ic as int, mcc as int, jr as int, 0, 0)),
                    decreases ncc - jr,
                {
                    let nrc = if nr < ncc - jr {
                        nr
                    } else {
                        ncc - jr
                    };
                    proof {
                        lemma_restage(
                            p,
                            c@,
                            (jc as int, ncc as int, blk as int, ic as int, mcc as int, jr as int, 0, 0),
                            (jc as int, ncc as int, blk as int, ic as int, mcc as int, jr as int, nrc as int, 0),
                        );
                    }
                    let mut ir: usize = 0;
                    while ir < mcc
                        invariant
                            c_len == c@.len(),
                            p.m == m && p.n == n && p.k == k && p.kc == kc && p.ldc == ldc,
                            p.alpha == alpha && p.beta == beta && p.a == a@ && p.b == b@,
                            p.ars == ars && p.aps == aps && p.bps == bps && p.bcs == bcs,
                            p.c0 == c0,
                            0 < kc <= 4096 && 0 < mc <= 4096 && 0 < nc <= 4096 && 0 < mr <= 64 && 0 < nr <= 64,
                            pa_len == (mc / mr + 1) * mr * kc,
                            pb_len == (nc / nr + 1) * nr * kc,
                            pa@.len() == pa_len,
                            pb@.len() == pb_len,
                            0 < m,
                            0 < n <= ldc,
                            0 < k,
                            c0.len() >= m * ldc,
                            jc < n,
                            0 < ncc <= nc,
                            jc + ncc <= n,
                            pc < k,
                            pc == blk * kc,
                            kcc == block_len(k as int, kc as int, blk as int),
                            0 < kcc <= kc,
                            beta_use == if blk == 0 {
                                beta
                            } else {
                                T::one_v()
                            },
                            b_base == pc * bps + jc * bcs,
                            forall|q: int|
                                0 <= q < panel_count(ncc as int, nr as int) * kcc * nr ==> #[trigger] pb@[q]
                                    == packed_value(b@, b_base as int, bcs as int, bps as int, ncc as int, kcc as int, nr as int, zero, q),
                            ic < m,
                            0 < mcc <= mc,
                            ic + mcc <= m,
                            a_base == ic * ars + pc * aps,
                            forall|q: int|
                                0 <= q < panel_count(mcc as int, mr as int) * kcc * mr ==> #[trigger] pa@[q]
                                    == packed_value(a@, a_base as int, ars as int, aps as int, mcc as int, kcc as int, mr as int, zero, q),
                            jr < ncc,
                            jr % nr == 0,
                            0 < nrc <= nr,
                            jr + nrc <= ncc,
                            ir <= mcc,
                            ir < mcc ==> ir % mr == 0,
                            at_stage(p, c@, (jc as int, ncc as int, blk as int, ic as int, mcc as int, jr as int, nrc as int, ir as int)),
                        decreases mcc - ir,
                    {
                        let mrc = if mr < mcc - ir {
                            mr
                        } else {
                            mcc - ir
                        };
                        proof {
                            lemma_panel_fits(ir as int, mrc as int, mr as int, mcc as int, mc as int, kcc as int, kc as int);
                            lemma_panel_fits(jr as int, nrc as int, nr as int, ncc as int, nc as int, kcc as int, kc as int);
                            lemma_mul_mono((ic + ir + mrc - 1) as int, m - 1, ldc as int);
                            assert((m - 1) * ldc + ldc == m * ldc) by (nonlinear_arith);
                            assert((ic + ir) * ldc + (mrc - 1) * ldc == (ic + ir + mrc - 1) * ldc) by (nonlinear_arith);
                            lemma_mul_mono(0, (mrc - 1) as int, ldc as int);
                            lemma_tile_dots(
                                pa@,
                                pb@,
                                a@,
                                ars as int,
                                aps as int,
                                b@,
                                bps as int,
                                bcs as int,
                                zero,
                                pc as int,
                                kcc as int,
                                ic as int,
                                mcc as int,
                                ir as int,
                                mrc as int,
                                mr as int,
                                jc as int,
                                ncc as int,
                                jr as int,
                                nrc as int,
                                nr as int,
                            );
                        }
                        let ghost before = c@;
                        let co = (ic + ir) * ldc + jc + jr;
                        kernel(kcc, alpha, pa.as_slice(), ir * kcc, mr, pb.as_slice(), jr * kcc, nr, beta_use, c, co, ldc, mrc, nrc);
                        proof {
                            lemma_kernel_step(
                                p,
                                before,
                                c@,
                                (jc as int, ncc as int, blk as int, ic as int, mcc as int, jr as int, nrc as int, ir as int),
                                mrc as int,
                                pa@,
                                mr as int,
                                pb@,
                                nr as int,
                                beta_use,
                            );
                            if ir + mrc < mcc {
                                assert(mrc == mr);
                                vstd::arithmetic::div_mod::lemma_mod_add_multiples_vanish(ir as int, mr as int);
                            }
                        }
                        ir = ir + mrc;
                    }
                    proof {
                        lemma_restage(
                            p,
                            c@,
                            (jc as int, ncc as int, blk as int, ic as int, mcc as int, jr as int, nrc as int, mcc as int),
                            (jc as int, ncc as int, blk as int, ic as int, mcc as int, (jr + nrc) as int, 0, 0),
                        );
                        if jr + nrc < ncc {
                            assert(nrc == nr);
                            vstd::arithmetic::div_mod::lemma_mod_add_multiples_vanish(jr as int, nr as int);
                        }
                    }
                    jr = jr + nrc;
                }
                proof {
                    lemma_restage(
                        p,
                        c@,
                        (jc as int, ncc as int, blk as int, ic as int, mcc as int, ncc as int, 0, 0),
                        (jc as int, ncc as int, blk as int, (ic + mcc) as int, 0, 0, 0, 0),
                    );
                }
                ic = ic + mcc;
            }
            proof {
                lemma_restage(
                    p,
                    c@,
                    (jc as int, ncc as int, blk as int, m as int, 0, 0, 0, 0),
                    (jc as int, ncc as int, (blk + 1) as int, 0, 0, 0, 0, 0),
                );
            }
            assert(blk <= pc) by (nonlinear_arith)
                requires
                    pc == blk * kc,
                    kc >= 1,
            ;
            pc = pc + kcc;
            blk = blk + 1;
        }
        proof {
            lemma_restage(
                p,
                c@,
                (jc as int, ncc as int, nb, 0, 0, 0, 0, 0),
                ((jc + ncc) as int, 0, 0, 0, 0, 0, 0, 0),
            );
        }
        jc = jc + ncc;
    }
    proof {
        let target = gemm_general_spec(m as int, n as int, k as int, alpha, a@, ars as int, aps as int, b@, bps as int, bcs as int, beta, c0, ldc as int);
        assert(kc as int == depth_block::<T>());
        assert forall|q: int| 0 <= q < c0.len() implies #[trigger] c@[q] == target[q] by {
            assert(c@[q] == stage_value(p, (n as int, 0, 0, 0, 0, 0, 0, 0), q));
        }
        assert(c@ =~= target);
    }
}

} // verus!
