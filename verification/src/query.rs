//! Hamming distances between 512-bit codes, and the candidates a query
//! code keeps.
use vstd::prelude::*;

verus! {

/// The number of set bits of `x`.
pub open spec fn popcount(x: u64) -> nat
    decreases x,
{
    if x == 0 {
        0
    } else {
        (x % 2) as nat + popcount(x / 2)
    }
}

/// Calls `u64::count_ones`: the number of set bits of `x`.
#[verifier::external_body]
fn count_ones_u64(x: u64) -> (r: u32)
    ensures
        r as nat == popcount(x),
{
    x.count_ones()
}

proof fn lemma_popcount_bound(x: u64)
    ensures
        popcount(x) <= 64,
{
    vstd::arithmetic::power2::lemma2_to64();
    lemma_popcount_bound_bits(x, 64);
}

proof fn lemma_popcount_bound_bits(x: u64, b: nat)
    requires
        (x as int) < vstd::arithmetic::power2::pow2(b),
    ensures
        popcount(x) <= b,
    decreases b,
{
    vstd::arithmetic::power2::lemma2_to64();
    if x != 0 {
        if b == 0 {
            assert(false);
        } else {
            vstd::arithmetic::power2::lemma_pow2_unfold(b);
            lemma_popcount_bound_bits((x / 2) as u64, (b - 1) as nat);
        }
    }
}

/// The number of bit positions in which two 512-bit codes differ.
pub open spec fn hamming_spec(x: Seq<u64>, y: Seq<u64>) -> nat {
    popcount(x[0] ^ y[0]) + popcount(x[1] ^ y[1]) + popcount(x[2] ^ y[2]) + popcount(x[3] ^ y[3])
        + popcount(x[4] ^ y[4]) + popcount(x[5] ^ y[5]) + popcount(x[6] ^ y[6]) + popcount(
        x[7] ^ y[7],
    )
}

/// The Hamming distance of two codes of eight 64-bit words.
pub fn hamming_distance(x: &[u64; 8], y: &[u64; 8]) -> (d: u32)
    ensures
        d as nat == hamming_spec(x@, y@),
{
    let diff1 = x[0] ^ y[0];
    let diff2 = x[1] ^ y[1];
    let diff3 = x[2] ^ y[2];
    let diff4 = x[3] ^ y[3];
    let diff5 = x[4] ^ y[4];
    let diff6 = x[5] ^ y[5];
    let diff7 = x[6] ^ y[6];
    let diff8 = x[7] ^ y[7];
    proof {
        lemma_popcount_bound(diff1);
        lemma_popcount_bound(diff2);
        lemma_popcount_bound(diff3);
        lemma_popcount_bound(diff4);
        lemma_popcount_bound(diff5);
        lemma_popcount_bound(diff6);
        lemma_popcount_bound(diff7);
        lemma_popcount_bound(diff8);
    }
    count_ones_u64(diff1) + count_ones_u64(diff2) + count_ones_u64(diff3) + count_ones_u64(diff4)
        + count_ones_u64(diff5) + count_ones_u64(diff6) + count_ones_u64(diff7) + count_ones_u64(
        diff8,
    )
}

/// A code is at distance zero from itself.
pub proof fn law_hamming_to_self_is_zero(x: Seq<u64>)
    requires
        x.len() == 8,
    ensures
        hamming_spec(x, x) == 0,
{
    assert forall|w: u64| w ^ w == 0 by {
        assert(w ^ w == 0) by (bit_vector);
    }
    assert(popcount(0) == 0);
}

/// The Hamming distance does not depend on the order of its arguments.
pub proof fn law_hamming_is_symmetric(x: Seq<u64>, y: Seq<u64>)
    requires
        x.len() == 8,
        y.len() == 8,
    ensures
        hamming_spec(x, y) == hamming_spec(y, x),
{
    assert forall|a: u64, b: u64| #[trigger] (a ^ b) == b ^ a by {
        assert(a ^ b == b ^ a) by (bit_vector);
    }
}

proof fn lemma_popcount_step(x: u64)
    ensures
        popcount(x) == (x % 2) as nat + popcount((x / 2) as u64),
{
    if x == 0 {
        assert(popcount(0) == 0);
    }
}

/// Flipping bit `b` of a word adds one set bit when the bit was clear and
/// removes one when it was set.
proof fn lemma_popcount_flip(w: u64, b: u64)
    requires
        b < 64,
    ensures
        (w >> b) & 1 == 0 ==> popcount(w ^ (1u64 << b)) == popcount(w) + 1,
        (w >> b) & 1 == 1 ==> popcount(w ^ (1u64 << b)) + 1 == popcount(w),
    decreases b,
{
    let v = w ^ (1u64 << b);
    lemma_popcount_step(w);
    lemma_popcount_step(v);
    if b == 0 {
        assert(v % 2 == 1 - w % 2 && v / 2 == w / 2 && (w >> b) & 1 == w % 2) by (bit_vector)
            requires
                v == w ^ (1u64 << b),
                b == 0,
        ;
    } else {
        let h = (w / 2) as u64;
        assert(v % 2 == w % 2 && v / 2 == h ^ (1u64 << ((b - 1) as u64)) && (w >> b) & 1 == (h >> ((
        b - 1) as u64)) & 1) by (bit_vector)
            requires
                v == w ^ (1u64 << b),
                h == w / 2,
                0 < b < 64,
        ;
        lemma_popcount_flip(h, (b - 1) as u64);
    }
}

/// Flipping one bit of one code moves the distance by exactly one: it grows
/// by one when the two codes agreed on that bit and shrinks by one when they
/// differed. With `law_hamming_to_self_is_zero` this fixes the distance as
/// the number of bit positions, over all eight words, in which the codes
/// differ.
pub proof fn law_hamming_flip_one_bit(x: Seq<u64>, y: Seq<u64>, k: int, b: u64)
    requires
        x.len() == 8,
        y.len() == 8,
        0 <= k < 8,
        b < 64,
    ensures
        (x[k] >> b) & 1 == (y[k] >> b) & 1 ==> hamming_spec(x, y.update(k, y[k] ^ (1u64 << b)))
            == hamming_spec(x, y) + 1,
        (x[k] >> b) & 1 != (y[k] >> b) & 1 ==> hamming_spec(x, y.update(k, y[k] ^ (1u64 << b))) + 1
            == hamming_spec(x, y),
{
    let y2 = y.update(k, y[k] ^ (1u64 << b));
    let xk = x[k];
    let yk = y[k];
    let d = xk ^ yk;
    let d2 = xk ^ (yk ^ (1u64 << b));
    assert(d2 == d ^ (1u64 << b) && (((d >> b) & 1 == 0) <==> ((xk >> b) & 1 == (yk >> b) & 1))
        && ((d >> b) & 1 == 0 || (d >> b) & 1 == 1)) by (bit_vector)
        requires
            d == xk ^ yk,
            d2 == xk ^ (yk ^ (1u64 << b)),
            b < 64,
    ;
    lemma_popcount_flip(d, b);
    assert(y2[k] == yk ^ (1u64 << b));
    assert forall|j: int| 0 <= j < 8 && j != k implies #[trigger] y2[j] == y[j] by {}
    assert(y2[0] == y[0] || k == 0);
    assert(y2[1] == y[1] || k == 1);
    assert(y2[2] == y[2] || k == 2);
    assert(y2[3] == y[3] || k == 3);
    assert(y2[4] == y[4] || k == 4);
    assert(y2[5] == y[5] || k == 5);
    assert(y2[6] == y[6] || k == 6);
    assert(y2[7] == y[7] || k == 7);
}

/// The positions, in increasing order, of the codes in `codex` that lie
/// closer than `min_bits` to `query`.
pub open spec fn is_candidate_list(codex: Seq<[u64; 8]>, query: [u64; 8], min_bits: u32, r: Seq<usize>) -> bool {
    &&& forall|i: int| 0 <= i < r.len() ==> #[trigger] r[i] < codex.len()
    &&& forall|i: int, j: int| 0 <= i < j < r.len() ==> r[i] < r[j]
    &&& forall|p: int|
        0 <= p < codex.len() ==> (r.contains(p as usize) <==> #[trigger] hamming_spec(
            codex[p]@,
            query@,
        ) < min_bits)
}

/// Keeps the positions of the codes that differ from `query` in fewer than
/// `min_bits` bits, in increasing order.
pub fn hamming_candidates(codex: &[[u64; 8]], query: &[u64; 8], min_bits: u32) -> (r: Vec<usize>)
    ensures
        is_candidate_list(codex@, *query, min_bits, r@),
{
    let mut r: Vec<usize> = Vec::new();
    let mut p: usize = 0;
    while p < codex.len()
        invariant
            p <= codex@.len(),
            forall|i: int| 0 <= i < r@.len() ==> #[trigger] r@[i] < p,
            forall|i: int, j: int| 0 <= i < j < r@.len() ==> r@[i] < r@[j],
            forall|q: int|
                0 <= q < p ==> (r@.contains(q as usize) <==> #[trigger] hamming_spec(
                    codex@[q]@,
                    query@,
                ) < min_bits),
        decreases codex@.len() - p,
    {
        let d = hamming_distance(&codex[p], query);
        let ghost before = r@;
        if d < min_bits {
            r.push(p);
            assert forall|q: int|
                0 <= q < p + 1 implies (r@.contains(q as usize) <==> #[trigger] hamming_spec(
                codex@[q]@,
                query@,
            ) < min_bits) by {
                if q < p {
                    if before.contains(q as usize) {
                        let w = choose|w: int| 0 <= w < before.len() && before[w] == q as usize;
                        assert(r@[w] == q as usize);
                    }
                    if r@.contains(q as usize) {
                        let w = choose|w: int| 0 <= w < r@.len() && r@[w] == q as usize;
                        assert(w < before.len());
                        assert(before[w] == q as usize);
                    }
                } else {
                    assert(r@[before.len() as int] == p);
                }
            }
        } else {
            assert forall|q: int|
                0 <= q < p + 1 implies (r@.contains(q as usize) <==> #[trigger] hamming_spec(
                codex@[q]@,
                query@,
            ) < min_bits) by {
                if q == p {
                    if r@.contains(q as usize) {
                        let w = choose|w: int| 0 <= w < r@.len() && r@[w] == q as usize;
                        assert(r@[w] < p);
                    }
                }
            }
        }
        p += 1;
    }
    r
}

} // verus!
