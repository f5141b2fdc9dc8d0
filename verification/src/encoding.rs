//! Bit codes of orderings: the set of the nearest pivots of a point as a
//! 64-bit mask, and the pairwise order of a vector as a `u128`.
use vstd::prelude::*;

verus! {

/// Whether bit `b` of `x` is set.
pub open spec fn bit_u64(x: u64, b: int) -> bool {
    0 <= b < 64 && (x >> (b as u64)) & 1u64 == 1u64
}

/// Whether `b` is among the first `take` entries of `order`.
pub open spec fn among_first(order: Seq<usize>, take: int, b: int) -> bool {
    exists|t: int| 0 <= t < take && t < order.len() && order[t] == b
}

proof fn lemma_or_shifted_bit(mask: u64, x: u64)
    requires
        x < 64,
    ensures
        forall|b: u64| #![trigger ((mask | (1u64 << x)) >> b)]
            b < 64 ==> ((((mask | (1u64 << x)) >> b) & 1u64 == 1u64) == (((mask >> b) & 1u64
                == 1u64) || b == x)),
{
    assert forall|b: u64| #![trigger ((mask | (1u64 << x)) >> b)] b < 64 implies ((((mask | (1u64
        << x)) >> b) & 1u64 == 1u64) == (((mask >> b) & 1u64 == 1u64) || b == x)) by {
        assert(b < 64 && x < 64 ==> ((((mask | (1u64 << x)) >> b) & 1u64 == 1u64) == (((mask
            >> b) & 1u64 == 1u64) || b == x))) by (bit_vector);
    }
}

/// The mask of the entries among the first `take` of `order`: bit `b` is set
/// exactly when `b` occurs there. `order` lists pivot numbers from the
/// nearest pivot on.
pub fn selection_mask(order: &[usize], take: usize) -> (mask: u64)
    requires
        forall|t: int| 0 <= t < order@.len() && t < take ==> order@[t] < 64,
    ensures
        forall|b: int| 0 <= b < 64 ==> (bit_u64(mask, b) <==> among_first(order@, take as int, b)),
{
    let n = order.len();
    let stop = if take < n {
        take
    } else {
        n
    };
    let mut mask: u64 = 0;
    let mut t: usize = 0;
    assert forall|b: u64| b < 64 implies (0u64 >> b) & 1u64 != 1u64 by {
        assert(b < 64 ==> (0u64 >> b) & 1u64 != 1u64) by (bit_vector);
    }
    while t < stop
        invariant
            n == order@.len(),
            stop <= n,
            stop <= take,
            t <= stop,
            forall|i: int| 0 <= i < order@.len() && i < take ==> order@[i] < 64,
            forall|b: int| 0 <= b < 64 ==> (bit_u64(mask, b) <==> among_first(order@, t as int, b)),
        decreases stop - t,
    {
        let x = order[t] as u64;
        proof {
            lemma_or_shifted_bit(mask, x);
            assert forall|b: int| 0 <= b < 64 implies (bit_u64(mask | (1u64 << x), b)
                <==> among_first(order@, t + 1, b)) by {
                let bb = b as u64;
                assert(((mask | (1u64 << x)) >> bb) & 1u64 == 1u64 <==> (((mask >> bb) & 1u64
                    == 1u64) || bb == x));
                assert(bit_u64(mask | (1u64 << x), b) <==> (bit_u64(mask, b) || bb == x));
                assert(bit_u64(mask, b) <==> among_first(order@, t as int, b));
                if among_first(order@, t + 1, b) {
                    let w = choose|w: int| 0 <= w < t + 1 && w < order@.len() && order@[w] == b;
                    if w < t {
                        assert(among_first(order@, t as int, b));
                    } else {
                        assert(bb == x);
                    }
                }
                if among_first(order@, t as int, b) {
                    let w = choose|w: int| 0 <= w < t && w < order@.len() && order@[w] == b;
                    assert(0 <= w < t + 1 && w < order@.len() && order@[w] == b);
                }
                if b == x {
                    assert(0 <= t < t + 1 && t < order@.len() && order@[t as int] == b);
                }
            }
        }
        mask = mask | (1u64 << x);
        t = t + 1;
    }
    proof {
        assert forall|b: int| 0 <= b < 64 implies (among_first(order@, t as int, b)
            <==> among_first(order@, take as int, b)) by {
            if among_first(order@, take as int, b) {
                let w = choose|w: int| 0 <= w < take && w < order@.len() && order@[w] == b;
                assert(0 <= w < t && w < order@.len() && order@[w] == b);
            }
        }
    }
    mask
}

/// Whether bit `b` of `x` is set.
pub open spec fn bit_u128(x: u128, b: int) -> bool {
    0 <= b < 128 && (x >> (b as u128)) & 1u128 == 1u128
}

/// Row `i` of the pairwise order of `v`: whether `v[i] > v[j]`, for
/// `j = i+1 .. n-1`.
pub open spec fn key_row(v: Seq<u64>, i: int) -> Seq<bool> {
    Seq::new(
        if v.len() - 1 - i > 0 {
            (v.len() - 1 - i) as nat
        } else {
            0nat
        },
        |d: int| v[i] > v[i + 1 + d],
    )
}

/// Rows `0 .. i-1` of the pairwise order of `v`, row after row.
pub open spec fn key_rows_before(v: Seq<u64>, i: int) -> Seq<bool>
    decreases i,
{
    if i <= 0 {
        Seq::empty()
    } else {
        key_rows_before(v, i - 1) + key_row(v, i - 1)
    }
}

/// For every pair of positions `i < j` of `v`, in lexicographic order,
/// whether `v[i] > v[j]`.
pub open spec fn key_pairs(v: Seq<u64>) -> Seq<bool> {
    key_rows_before(v, v.len() as int)
}

/// Whether every pair past the first 128, in lexicographic order, is in
/// order (`v[i] <= v[j]`): then the set bits of the code fit in a `u128`.
pub open spec fn order_code_fits(v: Seq<u64>) -> bool {
    forall|b: int| 128 <= b < key_pairs(v).len() ==> !#[trigger] key_pairs(v)[b]
}

/// The rows before `i` begin the rows before any later `n`.
proof fn lemma_rows_before_prefix(v: Seq<u64>, i: int, n: int)
    requires
        0 <= i <= n,
    ensures
        key_rows_before(v, i).len() <= key_rows_before(v, n).len(),
        forall|b: int|
            0 <= b < key_rows_before(v, i).len() ==> #[trigger] key_rows_before(v, n)[b]
                == key_rows_before(v, i)[b],
    decreases n - i,
{
    if i < n {
        lemma_rows_before_prefix(v, i, n - 1);
    }
}

proof fn lemma_or_shifted_bit_u128(code: u128, x: u128)
    requires
        x < 128,
    ensures
        forall|b: u128| #![trigger ((code | (1u128 << x)) >> b)]
            b < 128 ==> ((((code | (1u128 << x)) >> b) & 1u128 == 1u128) == (((code >> b) & 1u128
                == 1u128) || b == x)),
{
    assert forall|b: u128| #![trigger ((code | (1u128 << x)) >> b)] b < 128 implies ((((code | (
    1u128 << x)) >> b) & 1u128 == 1u128) == (((code >> b) & 1u128 == 1u128) || b == x)) by {
        assert(b < 128 && x < 128 ==> ((((code | (1u128 << x)) >> b) & 1u128 == 1u128) == (((code
            >> b) & 1u128 == 1u128) || b == x))) by (bit_vector);
    }
}

/// Packs the pairwise order of `keys` into a `u128`, least significant bit
/// first: the pairs `i < j` are numbered in lexicographic order, and the bit
/// of a pair is set when `keys[i] > keys[j]`. `None` when a pair numbered
/// 128 or later is out of order, whose bit a `u128` cannot hold.
pub fn order_code_u128(keys: &[u64]) -> (code: Option<u128>)
    ensures
        code is Some <==> order_code_fits(keys@),
        code matches Some(c) ==> forall|b: int|
            0 <= b < 128 ==> (bit_u128(c, b) <==> (b < key_pairs(keys@).len() && key_pairs(keys@)[b])),
{
    let n = keys.len();
    let ghost v = keys@;
    let mut code: u128 = 0;
    let mut p: usize = 0;
    let mut i: usize = 0;
    proof {
        assert forall|b: u128| b < 128 implies (0u128 >> b) & 1u128 != 1u128 by {
            assert(b < 128 ==> (0u128 >> b) & 1u128 != 1u128) by (bit_vector);
        }
    }
    while i < n
        invariant
            n == v.len(),
            v == keys@,
            i <= n,
            p == if key_rows_before(v, i as int).len() < 128 {
                key_rows_before(v, i as int).len() as int
            } else {
                128
            },
            forall|b: int| 0 <= b < 128 ==> (bit_u128(code, b) <==> (b < key_rows_before(v, i as int).len() && key_rows_before(
                v,
                i as int,
            )[b])),
            forall|b: int| 128 <= b < key_rows_before(v, i as int).len() ==> !#[trigger] key_rows_before(v, i as int)[b],
        decreases n - i,
    {
        let mut j: usize = i + 1;
        proof {
            assert(key_rows_before(v, i as int) + key_row(v, i as int).take(0) =~= key_rows_before(
                v,
                i as int,
            ));
        }
        while j < n
            invariant
                n == v.len(),
                v == keys@,
                i < n,
                i + 1 <= j <= n,
                p == if (key_rows_before(v, i as int) + key_row(v, i as int).take(j - i - 1)).len() < 128 {
                    (key_rows_before(v, i as int) + key_row(v, i as int).take(j - i - 1)).len() as int
                } else {
                    128
                },
                forall|b: int| 0 <= b < 128 ==> (bit_u128(code, b) <==> (b < (key_rows_before(
                    v,
                    i as int,
                ) + key_row(v, i as int).take(j - i - 1)).len() && (key_rows_before(
                    v,
                    i as int,
                ) + key_row(v, i as int).take(j - i - 1))[b])),
                forall|b: int| 128 <= b < (key_rows_before(v, i as int) + key_row(v, i as int).take(j - i - 1)).len()
                    ==> !#[trigger] (key_rows_before(v, i as int) + key_row(v, i as int).take(j - i - 1))[b],
            decreases n - j,
        {
            let ghost prefix = key_rows_before(v, i as int) + key_row(v, i as int).take(j - i - 1);
            let ghost next = key_rows_before(v, i as int) + key_row(v, i as int).take(j - i);
            let greater = keys[i] > keys[j];
            proof {
                assert(next =~= prefix.push(greater));
            }
            if greater {
                if p >= 128 {
                    proof {
                        let b = prefix.len() as int;
                        assert(next[b] == greater);
                        lemma_rows_before_prefix(v, i + 1, n as int);
                        assert(key_rows_before(v, i + 1) == key_rows_before(v, i as int) + key_row(v, i as int));
                        assert(next =~= key_rows_before(v, i + 1).subrange(0, b + 1)) by {
                            assert(key_row(v, i as int).take(j - i) =~= key_row(v, i as int).subrange(0, j - i));
                        }
                        assert(key_rows_before(v, i + 1)[b] == next[b]);
                        assert(key_pairs(v)[b]);
                        assert(!order_code_fits(v));
                    }
                    return None;
                }
                let x = p as u128;
                let ghost old_code = code;
                code = code | (1u128 << x);
                proof {
                    lemma_or_shifted_bit_u128(old_code, x);
                    assert forall|b: int| 0 <= b < 128 implies (bit_u128(code, b) <==> (b < next.len()
                        && next[b])) by {
                        let bb = b as u128;
                        assert(((old_code | (1u128 << x)) >> bb) & 1u128 == 1u128 <==> (((old_code
                            >> bb) & 1u128 == 1u128) || bb == x));
                        assert(bit_u128(old_code, b) <==> (b < prefix.len() && prefix[b]));
                        if b < prefix.len() {
                            assert(next[b] == prefix[b]);
                        }
                        if b == prefix.len() {
                            assert(next[b]);
                        }
                    }
                }
            } else {
                assert forall|b: int| 0 <= b < 128 implies (bit_u128(code, b) <==> (b < next.len()
                    && next[b])) by {
                    assert(bit_u128(code, b) <==> (b < prefix.len() && prefix[b]));
                    if b < prefix.len() {
                        assert(next[b] == prefix[b]);
                    }
                    if b == prefix.len() {
                        assert(!next[b]);
                    }
                }
            }
            assert forall|b: int| 128 <= b < next.len() implies !#[trigger] next[b] by {
                if b < prefix.len() {
                    assert(next[b] == prefix[b]);
                }
            }
            if p < 128 {
                p = p + 1;
            }
            j = j + 1;
            assert(next =~= key_rows_before(v, i as int) + key_row(v, i as int).take(j - i - 1));
        }
        assert(key_row(v, i as int).take(n - i - 1) =~= key_row(v, i as int));
        i = i + 1;
    }
    Some(code)
}

/// The range `start .. end` of chunk `i` when a point of `len` coordinates
/// is cut into `n_chunks` chunks of `len / n_chunks` coordinates, the last
/// chunk taking the remainder too.
pub fn chunk_range(len: usize, n_chunks: usize, i: usize) -> (r: (usize, usize))
    requires
        0 < n_chunks,
        i < n_chunks,
    ensures
        r.0 == i * (len / n_chunks),
        r.1 == if i == n_chunks - 1 {
            len as int
        } else {
            r.0 + len / n_chunks
        },
        r.0 <= r.1 <= len,
{
    let chunk_size = len / n_chunks;
    proof {
        vstd::arithmetic::div_mod::lemma_fundamental_div_mod(len as int, n_chunks as int);
        assert(i * chunk_size + chunk_size <= n_chunks * chunk_size) by (nonlinear_arith)
            requires
                i < n_chunks,
                chunk_size >= 0,
        ;
        assert(n_chunks * chunk_size <= len) by (nonlinear_arith)
            requires
                len == n_chunks * chunk_size + len % n_chunks,
                len % n_chunks >= 0,
        ;
    }
    let start = i * chunk_size;
    let end = if i == n_chunks - 1 {
        len
    } else {
        start + chunk_size
    };
    (start, end)
}

} // verus!
