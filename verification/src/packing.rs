//! Packing of matrix blocks into contiguous panels, the layout the blocked
//! matrix products feed to their register kernels.
use vstd::prelude::*;

verus! {

/// Entry `q` of a packed buffer: with `q = (blk * depth + k) * width + w`,
/// the element in row `r = blk * width + w` and step `k` of the source,
/// `src[base + r * rs + k * ks]`, or `zero` for the rows past `rows` that
/// pad the last panel.
pub open spec fn packed_value<T>(
    src: Seq<T>,
    base: int,
    rs: int,
    ks: int,
    rows: int,
    depth: int,
    width: int,
    zero: T,
    q: int,
) -> T {
    let t = q / width;
    let w = q % width;
    let blk = t / depth;
    let k = t % depth;
    let r = blk * width + w;
    if r < rows {
        src[base + r * rs + k * ks]
    } else {
        zero
    }
}

/// The number of panels of `width` rows that cover `rows` rows.
pub open spec fn panel_count(rows: int, width: int) -> int {
    rows / width + if rows % width != 0 {
        1int
    } else {
        0int
    }
}

pub(crate) proof fn lemma_decode(q: int, blk: int, k: int, w: int, depth: int, width: int)
    requires
        0 <= blk,
        0 <= k < depth,
        0 <= w < width,
        q == (blk * depth + k) * width + w,
    ensures
        q / width == blk * depth + k,
        q % width == w,
        (q / width) / depth == blk,
        (q / width) % depth == k,
{
    vstd::arithmetic::div_mod::lemma_fundamental_div_mod_converse(q, width, blk * depth + k, w);
    vstd::arithmetic::div_mod::lemma_fundamental_div_mod_converse(blk * depth + k, depth, blk, k);
}

/// Copies `rows x depth` elements of `src` (element `(r, k)` at
/// `base + r * rs + k * ks`) into `pack` panel by panel: each panel holds
/// `width` rows, step after step, and the rows missing from the last panel
/// are filled with `zero`.
pub(crate) fn pack_panels<T: Copy>(
    pack: &mut [T],
    src: &[T],
    base: usize,
    rs: usize,
    ks: usize,
    rows: usize,
    depth: usize,
    width: usize,
    zero: T,
)
    requires
        width > 0,
        panel_count(rows as int, width as int) * depth * width <= old(pack)@.len(),
        rows > 0 && depth > 0 ==> base + (rows - 1) * rs + (depth - 1) * ks < src@.len(),
    ensures
        final(pack)@.len() == old(pack)@.len(),
        forall|q: int|
            0 <= q < panel_count(rows as int, width as int) * depth * width ==> #[trigger] final(pack)@[q] == packed_value(
                src@,
                base as int,
                rs as int,
                ks as int,
                rows as int,
                depth as int,
                width as int,
                zero,
                q,
            ),
        forall|q: int|
            panel_count(rows as int, width as int) * depth * width <= q < old(pack)@.len()
                ==> #[trigger] final(pack)@[q] == old(pack)@[q],
{
    let ghost p0 = pack@;
    let ghost total = panel_count(rows as int, width as int) * depth * width;
    let src_len = src.len();
    assert(rows % width != 0 ==> rows / width < usize::MAX) by (nonlinear_arith)
        requires
            width > 0,
    {
        if rows % width != 0 {
            assert(width >= 2);
        }
    }
    let nb = rows / width + if rows % width != 0 {
        1
    } else {
        0
    };
    assert(nb == panel_count(rows as int, width as int));
    let mut idx: usize = 0;
    let mut blk: usize = 0;
    assert(0 * depth * width == 0) by (nonlinear_arith);
    while blk < nb
        invariant
            src_len == src@.len(),
            width > 0,
            nb == panel_count(rows as int, width as int),
            total == nb * depth * width,
            total <= p0.len(),
            pack@.len() == p0.len(),
            rows > 0 && depth > 0 ==> base + (rows - 1) * rs + (depth - 1) * ks < src@.len(),
            blk <= nb,
            idx == blk * depth * width,
            forall|q: int|
                0 <= q < idx ==> #[trigger] pack@[q] == packed_value(
                    src@,
                    base as int,
                    rs as int,
                    ks as int,
                    rows as int,
                    depth as int,
                    width as int,
                    zero,
                    q,
                ),
            forall|q: int| idx <= q < p0.len() ==> #[trigger] pack@[q] == p0[q],
        decreases nb - blk,
    {
        proof {
            assert((blk + 1) * depth * width <= nb * depth * width) by (nonlinear_arith)
                requires
                    blk + 1 <= nb,
            ;
            vstd::arithmetic::div_mod::lemma_fundamental_div_mod(rows as int, width as int);
            let ri = rows as int;
            let wi = width as int;
            let bi = blk as int;
            let ni = nb as int;
            assert(bi * wi < ri) by (nonlinear_arith)
                requires
                    bi < ni,
                    ni == ri / wi + if ri % wi != 0 {
                        1int
                    } else {
                        0int
                    },
                    ri == wi * (ri / wi) + ri % wi,
                    0 <= ri % wi,
                    wi > 0,
                    bi >= 0,
            ;
        }
        let r0 = blk * width;
        let remaining = if rows - r0 < width {
            rows - r0
        } else {
            width
        };
        let mut k: usize = 0;
        while k < depth
            invariant
                src_len == src@.len(),
                width > 0,
                total == nb * depth * width,
                total <= p0.len(),
                pack@.len() == p0.len(),
                rows > 0 && depth > 0 ==> base + (rows - 1) * rs + (depth - 1) * ks < src@.len(),
                blk < nb,
                (blk + 1) * depth * width <= total,
                r0 == blk * width,
                r0 < rows,
                remaining == if rows - r0 < width {
                    rows - r0
                } else {
                    width as int
                },
                k <= depth,
                idx == (blk * depth + k) * width,
                forall|q: int|
                    0 <= q < idx ==> #[trigger] pack@[q] == packed_value(
                        src@,
                        base as int,
                        rs as int,
                        ks as int,
                        rows as int,
                        depth as int,
                        width as int,
                        zero,
                        q,
                    ),
                forall|q: int| idx <= q < p0.len() ==> #[trigger] pack@[q] == p0[q],
            decreases depth - k,
        {
            let mut w: usize = 0;
            while w < width
                invariant
                    src_len == src@.len(),
                    width > 0,
                    total == nb * depth * width,
                    total <= p0.len(),
                    pack@.len() == p0.len(),
                    rows > 0 && depth > 0 ==> base + (rows - 1) * rs + (depth - 1) * ks
                        < src@.len(),
                    blk < nb,
                    (blk + 1) * depth * width <= total,
                    r0 == blk * width,
                    r0 < rows,
                    remaining == if rows - r0 < width {
                        rows - r0
                    } else {
                        width as int
                    },
                    k < depth,
                    w <= width,
                    idx == (blk * depth + k) * width + w,
                    forall|q: int|
                        0 <= q < idx ==> #[trigger] pack@[q] == packed_value(
                            src@,
                            base as int,
                            rs as int,
                            ks as int,
                            rows as int,
                            depth as int,
                            width as int,
                            zero,
                            q,
                        ),
                    forall|q: int| idx <= q < p0.len() ==> #[trigger] pack@[q] == p0[q],
                decreases width - w,
            {
                proof {
                    lemma_decode(idx as int, blk as int, k as int, w as int, depth as int, width as int);
                    assert((blk * depth + k) * width + w < (blk + 1) * depth * width) by (
                    nonlinear_arith)
                        requires
                            k < depth,
                            w < width,
                    ;
                }
                let v = if w < remaining {
                    proof {
                        assert((r0 + w) * rs <= (rows - 1) * rs) by (nonlinear_arith)
                            requires
                                r0 + w <= rows - 1,
                        ;
                        assert(k * ks <= (depth - 1) * ks) by (nonlinear_arith)
                            requires
                                k <= depth - 1,
                        ;
                    }
                    src[base + (r0 + w) * rs + k * ks]
                } else {
                    zero
                };
                pack[idx] = v;
                idx += 1;
                w += 1;
            }
            assert(idx == (blk * depth + k + 1) * width) by (nonlinear_arith)
                requires
                    idx == (blk * depth + k) * width + width,
            ;
            k += 1;
        }
        blk += 1;
        assert(idx == blk * depth * width) by (nonlinear_arith)
            requires
                idx == ((blk - 1) * depth + depth) * width,
        ;
    }
}

/// Packs the `mc x kc` block of A at `(row_offset, col_offset)` (row-major,
/// leading dimension `lda`) into panels of `mr` rows.
pub fn pack_a<T: Copy>(
    pack: &mut [T],
    a: &[T],
    lda: usize,
    mc: usize,
    kc: usize,
    row_offset: usize,
    col_offset: usize,
    mr: usize,
    zero: T,
)
    requires
        mr > 0,
        panel_count(mc as int, mr as int) * kc * mr <= old(pack)@.len(),
        mc > 0 && kc > 0 ==> (row_offset + mc - 1) * lda + col_offset + kc - 1 < a@.len(),
    ensures
        final(pack)@.len() == old(pack)@.len(),
        forall|q: int|
            0 <= q < panel_count(mc as int, mr as int) * kc * mr ==> #[trigger] final(pack)@[q]
                == packed_value(
                a@,
                row_offset * lda + col_offset,
                lda as int,
                1,
                mc as int,
                kc as int,
                mr as int,
                zero,
                q,
            ),
        forall|q: int|
            panel_count(mc as int, mr as int) * kc * mr <= q < old(pack)@.len() ==> #[trigger] final(pack)@[q] == old(pack)@[q],
{
    if mc == 0 || kc == 0 {
        proof {
            if mc == 0 {
                vstd::arithmetic::div_mod::lemma_fundamental_div_mod_converse(0, mr as int, 0, 0);
            }
        }
        assert(panel_count(mc as int, mr as int) * kc * mr == 0) by (nonlinear_arith)
            requires
                mc == 0 || kc == 0,
                mc == 0 ==> panel_count(mc as int, mr as int) == 0,
        ;
        return pack_panels(pack, a, 0, lda, 1, mc, kc, mr, zero);
    }
    let a_len = a.len();
    proof {
        assert((row_offset + mc - 1) * lda == row_offset * lda + (mc - 1) * lda) by (
        nonlinear_arith);
        assert(0 <= (mc - 1) * lda) by (nonlinear_arith)
            requires
                mc >= 1,
        ;
    }
    pack_panels(pack, a, row_offset * lda + col_offset, lda, 1, mc, kc, mr, zero)
}


/// Packs the `kc x nc` block of B at `(row_offset, col_offset)` (row-major,
/// leading dimension `ldb`) into panels of `nr` columns.
pub fn pack_b<T: Copy>(
    pack: &mut [T],
    b: &[T],
    ldb: usize,
    kc: usize,
    nc: usize,
    row_offset: usize,
    col_offset: usize,
    nr: usize,
    zero: T,
)
    requires
        nr > 0,
        panel_count(nc as int, nr as int) * kc * nr <= old(pack)@.len(),
        nc > 0 && kc > 0 ==> (row_offset + kc - 1) * ldb + col_offset + nc - 1 < b@.len(),
    ensures
        final(pack)@.len() == old(pack)@.len(),
        forall|q: int|
            0 <= q < panel_count(nc as int, nr as int) * kc * nr ==> #[trigger] final(pack)@[q]
                == packed_value(
                b@,
                row_offset * ldb + col_offset,
                1,
                ldb as int,
                nc as int,
                kc as int,
                nr as int,
                zero,
                q,
            ),
        forall|q: int|
            panel_count(nc as int, nr as int) * kc * nr <= q < old(pack)@.len() ==> #[trigger] final(pack)@[q] == old(pack)@[q],
{
    if nc == 0 || kc == 0 {
        proof {
            if nc == 0 {
                vstd::arithmetic::div_mod::lemma_fundamental_div_mod_converse(0, nr as int, 0, 0);
            }
        }
        assert(panel_count(nc as int, nr as int) * kc * nr == 0) by (nonlinear_arith)
            requires
                nc == 0 || kc == 0,
                nc == 0 ==> panel_count(nc as int, nr as int) == 0,
        ;
        return pack_panels(pack, b, 0, 1, ldb, nc, kc, nr, zero);
    }
    let src_len = b.len();
    proof {
        assert((row_offset + kc - 1) * ldb == row_offset * ldb + (kc - 1) * ldb) by (nonlinear_arith);
        assert(0 <= (kc - 1) * ldb) by (nonlinear_arith)
            requires
                nc >= 1,
                kc >= 1,
        ;
    }
    pack_panels(pack, b, row_offset * ldb + col_offset, 1, ldb, nc, kc, nr, zero)
}

/// Packs the `mc x kc` block of A^T at `(row_offset, col_offset)`, reading
/// A row-major with leading dimension `lda`, into panels of `mr` rows.
pub fn pack_a_trans<T: Copy>(
    pack: &mut [T],
    a: &[T],
    lda: usize,
    mc: usize,
    kc: usize,
    row_offset: usize,
    col_offset: usize,
    mr: usize,
    zero: T,
)
    requires
        mr > 0,
        panel_count(mc as int, mr as int) * kc * mr <= old(pack)@.len(),
        mc > 0 && kc > 0 ==> (col_offset + kc - 1) * lda + row_offset + mc - 1 < a@.len(),
    ensures
        final(pack)@.len() == old(pack)@.len(),
        forall|q: int|
            0 <= q < panel_count(mc as int, mr as int) * kc * mr ==> #[trigger] final(pack)@[q]
                == packed_value(
                a@,
                col_offset * lda + row_offset,
                1,
                lda as int,
                mc as int,
                kc as int,
                mr as int,
                zero,
                q,
            ),
        forall|q: int|
            panel_count(mc as int, mr as int) * kc * mr <= q < old(pack)@.len() ==> #[trigger] final(pack)@[q] == old(pack)@[q],
{
    if mc == 0 || kc == 0 {
        proof {
            if mc == 0 {
                vstd::arithmetic::div_mod::lemma_fundamental_div_mod_converse(0, mr as int, 0, 0);
            }
        }
        assert(panel_count(mc as int, mr as int) * kc * mr == 0) by (nonlinear_arith)
            requires
                mc == 0 || kc == 0,
                mc == 0 ==> panel_count(mc as int, mr as int) == 0,
        ;
        return pack_panels(pack, a, 0, 1, lda, mc, kc, mr, zero);
    }
    let src_len = a.len();
    proof {
        assert((col_offset + kc - 1) * lda == col_offset * lda + (kc - 1) * lda) by (nonlinear_arith);
        assert(0 <= (kc - 1) * lda) by (nonlinear_arith)
            requires
                mc >= 1,
                kc >= 1,
        ;
    }
    pack_panels(pack, a, col_offset * lda + row_offset, 1, lda, mc, kc, mr, zero)
}

/// Packs the `kc x nc` block of B^T at `(row_offset, col_offset)`, reading
/// B row-major with leading dimension `ldb`, into panels of `nr` columns.
pub fn pack_b_trans<T: Copy>(
    pack: &mut [T],
    b: &[T],
    ldb: usize,
    kc: usize,
    nc: usize,
    row_offset: usize,
    col_offset: usize,
    nr: usize,
    zero: T,
)
    requires
        nr > 0,
        panel_count(nc as int, nr as int) * kc * nr <= old(pack)@.len(),
        nc > 0 && kc > 0 ==> (col_offset + nc - 1) * ldb + row_offset + kc - 1 < b@.len(),
    ensures
        final(pack)@.len() == old(pack)@.len(),
        forall|q: int|
            0 <= q < panel_count(nc as int, nr as int) * kc * nr ==> #[trigger] final(pack)@[q]
                == packed_value(
                b@,
                col_offset * ldb + row_offset,
                ldb as int,
                1,
                nc as int,
                kc as int,
                nr as int,
                zero,
                q,
            ),
        forall|q: int|
            panel_count(nc as int, nr as int) * kc * nr <= q < old(pack)@.len() ==> #[trigger] final(pack)@[q] == old(pack)@[q],
{
    if nc == 0 || kc == 0 {
        proof {
            if nc == 0 {
                vstd::arithmetic::div_mod::lemma_fundamental_div_mod_converse(0, nr as int, 0, 0);
            }
        }
        assert(panel_count(nc as int, nr as int) * kc * nr == 0) by (nonlinear_arith)
            requires
                nc == 0 || kc == 0,
                nc == 0 ==> panel_count(nc as int, nr as int) == 0,
        ;
        return pack_panels(pack, b, 0, ldb, 1, nc, kc, nr, zero);
    }
    let src_len = b.len();
    proof {
        assert((col_offset + nc - 1) * ldb == col_offset * ldb + (nc - 1) * ldb) by (nonlinear_arith);
        assert(0 <= (nc - 1) * ldb) by (nonlinear_arith)
            requires
                nc >= 1,
                kc >= 1,
        ;
    }
    pack_panels(pack, b, col_offset * ldb + row_offset, ldb, 1, nc, kc, nr, zero)
}

} // verus!
