//! Cache-blocking parameters for the blocked matrix products.
use vstd::prelude::*;

verus! {

/// Level 2 cache size in bytes.
pub const L2_CACHE_SIZE: usize = 262144;

/// Level 3 cache size in bytes.
pub const L3_CACHE_SIZE: usize = 8388608;

/// Rows of the double-precision register tile on x86 targets.
pub const MR_F64: usize = 6;

/// Columns of the double-precision register tile on x86 targets.
pub const NR_F64: usize = 8;

/// Rows of the single-precision register tile on x86 targets.
pub const MR_F32: usize = 12;

/// Columns of the single-precision register tile on x86 targets.
pub const NR_F32: usize = 16;

/// Rows of the double-precision register tile on aarch64 targets.
pub const MR_F64_AARCH64: usize = 8;

/// Columns of the double-precision register tile on aarch64 targets.
pub const NR_F64_AARCH64: usize = 6;

/// Rows of the double-precision register tile on other targets.
pub const MR_F64_OTHER: usize = 4;

/// Columns of the double-precision register tile on other targets.
pub const NR_F64_OTHER: usize = 4;

/// The blocking `(kc, mc, nc)` for elements of `elem` bytes: `kc` given,
/// `mc` the rows of `kc`-long panels that fit in the level 2 cache beside an
/// `nr`-wide panel, rounded down to a multiple of `mr`, and `nc` the columns
/// that fit in the level 3 cache beside the `mc x kc` block, rounded down to
/// a multiple of `nr`; each then capped.
pub open spec fn cache_params(
    elem: int,
    kc: int,
    mr: int,
    nr: int,
    kc_cap: int,
    mc_cap: int,
    nc_cap: int,
) -> (int, int, int) {
    let mc0 = ((L2_CACHE_SIZE as int / elem) - kc * nr) / kc;
    let mc = (mc0 / mr) * mr;
    let nc0 = ((L3_CACHE_SIZE as int / elem) - mc * kc) / kc;
    let nc = (nc0 / nr) * nr;
    (
        if kc < kc_cap {
            kc
        } else {
            kc_cap
        },
        if mc < mc_cap {
            mc
        } else {
            mc_cap
        },
        if nc < nc_cap {
            nc
        } else {
            nc_cap
        },
    )
}

/// The double-precision blocking: `kc = 256`, with `mc` and `nc` derived
/// from the cache sizes.
pub fn compute_cache_params_f64() -> (r: (usize, usize, usize))
    ensures
        (r.0 as int, r.1 as int, r.2 as int) == cache_params(8, 256, 6, 8, 512, 256, 1024),
        r == (256usize, 120usize, 1024usize),
{
    let kc: usize = 256;
    let mc = ((L2_CACHE_SIZE / 8) - kc * NR_F64) / kc;
    let mc = (mc / MR_F64) * MR_F64;
    let nc = ((L3_CACHE_SIZE / 8) - mc * kc) / kc;
    let nc = (nc / NR_F64) * NR_F64;
    (kc.min(512), mc.min(256), nc.min(1024))
}

/// The single-precision blocking: `kc = 512`, with `mc` and `nc` derived
/// from the cache sizes.
pub fn compute_cache_params_f32() -> (r: (usize, usize, usize))
    ensures
        (r.0 as int, r.1 as int, r.2 as int) == cache_params(4, 512, 12, 16, 1024, 512, 2048),
        r == (512usize, 108usize, 2048usize),
{
    let kc: usize = 512;
    let mc = ((L2_CACHE_SIZE / 4) - kc * NR_F32) / kc;
    let mc = (mc / MR_F32) * MR_F32;
    let nc = ((L3_CACHE_SIZE / 4) - mc * kc) / kc;
    let nc = (nc / NR_F32) * NR_F32;
    (kc.min(1024), mc.min(512), nc.min(2048))
}

/// The double-precision blocking for a register tile of `mr x nr`:
/// `kc = 256`, with `mc` and `nc` derived from the cache sizes.
pub fn cache_params_f64_for_tile(mr: usize, nr: usize) -> (r: (usize, usize, usize))
    requires
        0 < mr <= 64,
        0 < nr <= 64,
    ensures
        (r.0 as int, r.1 as int, r.2 as int) == cache_params(8, 256, mr as int, nr as int, 512, 256, 1024),
{
    let kc: usize = 256;
    let mc0 = ((L2_CACHE_SIZE / 8) - kc * nr) / kc;
    assert(mc0 <= 128);
    proof {
        vstd::arithmetic::div_mod::lemma_fundamental_div_mod(mc0 as int, mr as int);
        vstd::arithmetic::div_mod::lemma_div_pos_is_pos(mc0 as int, mr as int);
        assert((mc0 / mr) * mr <= mc0) by (nonlinear_arith)
            requires
                mc0 == mr * (mc0 / mr) + mc0 % mr,
                mc0 % mr >= 0,
        ;
    }
    let mc = (mc0 / mr) * mr;
    let nc0 = ((L3_CACHE_SIZE / 8) - mc * kc) / kc;
    proof {
        vstd::arithmetic::div_mod::lemma_fundamental_div_mod(nc0 as int, nr as int);
        vstd::arithmetic::div_mod::lemma_div_pos_is_pos(nc0 as int, nr as int);
        assert((nc0 / nr) * nr <= nc0) by (nonlinear_arith)
            requires
                nc0 == nr * (nc0 / nr) + nc0 % nr,
                nc0 % nr >= 0,
        ;
    }
    let nc = (nc0 / nr) * nr;
    (kc.min(512), mc.min(256), nc.min(1024))
}

/// The single-precision blocking for a register tile of `mr x nr`:
/// `kc = 512`, with `mc` and `nc` derived from the cache sizes.
pub fn cache_params_f32_for_tile(mr: usize, nr: usize) -> (r: (usize, usize, usize))
    requires
        0 < mr <= 128,
        0 < nr <= 64,
    ensures
        (r.0 as int, r.1 as int, r.2 as int) == cache_params(4, 512, mr as int, nr as int, 1024, 512, 2048),
{
    let kc: usize = 512;
    let mc0 = ((L2_CACHE_SIZE / 4) - kc * nr) / kc;
    assert(mc0 <= 128);
    proof {
        vstd::arithmetic::div_mod::lemma_fundamental_div_mod(mc0 as int, mr as int);
        vstd::arithmetic::div_mod::lemma_div_pos_is_pos(mc0 as int, mr as int);
        assert((mc0 / mr) * mr <= mc0) by (nonlinear_arith)
            requires
                mc0 == mr * (mc0 / mr) + mc0 % mr,
                mc0 % mr >= 0,
        ;
    }
    let mc = (mc0 / mr) * mr;
    let nc0 = ((L3_CACHE_SIZE / 4) - mc * kc) / kc;
    proof {
        vstd::arithmetic::div_mod::lemma_fundamental_div_mod(nc0 as int, nr as int);
        vstd::arithmetic::div_mod::lemma_div_pos_is_pos(nc0 as int, nr as int);
        assert((nc0 / nr) * nr <= nc0) by (nonlinear_arith)
            requires
                nc0 == nr * (nc0 / nr) + nc0 % nr,
                nc0 % nr >= 0,
        ;
    }
    let nc = (nc0 / nr) * nr;
    (kc.min(1024), mc.min(512), nc.min(2048))
}

} // verus!
