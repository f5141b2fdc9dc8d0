//! Random bit masks: a chosen number of distinct bits of a `u128`.
use vstd::prelude::*;
use rand::seq::SliceRandom;
use rand::Rng;
use crate::bit_tricks::{bit_of, count_set_bits, unit_weights, lemma_weight_clear_bit, lemma_high_bits_zero};

verus! {

broadcast use vstd::seq_lib::group_to_multiset_ensures;

#[verifier::external_type_specification]
#[verifier::external_body]
pub struct ExThreadRng(rand::rngs::ThreadRng);

/// Calls `rand::thread_rng`: a handle on the thread's random generator.
#[verifier::external_body]
pub(crate) fn thread_rng() -> rand::rngs::ThreadRng {
    rand::thread_rng()
}

/// Calls `SliceRandom::shuffle`: the entries are put in a random order; the
/// same entries remain, each as often as before.
#[verifier::external_body]
pub(crate) fn shuffle(v: &mut Vec<usize>, rng: &mut rand::rngs::ThreadRng)
    ensures
        final(v)@.to_multiset() == old(v)@.to_multiset(),
{
    v.shuffle(rng)
}

/// Calls `Rng::gen_range` on `0..bound`: some number below `bound`.
#[verifier::external_body]
pub(crate) fn gen_below(rng: &mut rand::rngs::ThreadRng, bound: u32) -> (r: u32)
    requires
        bound > 0,
    ensures
        r < bound,
{
    rng.gen_range(0..bound)
}

/// A mask of `min(num_ones, 128)` distinct bits chosen at random.
pub fn random_u128_mask(num_ones: usize) -> (bits: u128)
    ensures
        count_set_bits(bits) == if num_ones < 128 {
            num_ones as int
        } else {
            128
        },
{
    let mut rng = thread_rng();
    let mut indices: Vec<usize> = Vec::new();
    let mut k: usize = 0;
    while k < 128
        invariant
            k <= 128,
            indices@ == Seq::new(k as nat, |i: int| i as usize),
        decreases 128 - k,
    {
        indices.push(k);
        k += 1;
        assert(indices@ =~= Seq::new(k as nat, |i: int| i as usize));
    }
    let ghost ordered = indices@;
    assert(ordered.no_duplicates());
    shuffle(&mut indices, &mut rng);
    proof {
        ordered.lemma_multiset_has_no_duplicates();
        indices@.lemma_multiset_has_no_duplicates_conv();
        assert forall|q: int| 0 <= q < indices@.len() implies #[trigger] indices@[q] < 128 by {
            assert(indices@.to_multiset().contains(indices@[q]));
            assert(ordered.to_multiset().contains(indices@[q]));
            assert(ordered.contains(indices@[q]));
        }
        assert(indices@.len() == 128) by {
            assert(indices@.to_multiset().len() == ordered.to_multiset().len());
        }
    }
    indices.truncate(num_ones);
    let chosen = indices;
    let mut bits: u128 = 0;
    let mut q: usize = 0;
    proof {
        assert(0u128 >> 0u128 == 0) by (bit_vector);
        lemma_high_bits_zero(0, unit_weights(), 0);
        assert forall|j: int| 0 <= j < 128 implies !#[trigger] bit_of(0u128, j) by {
            let jj = j as u128;
            assert(jj < 128 ==> (0u128 >> jj) & 1u128 == 0u128) by (bit_vector);
        }
    }
    while q < chosen.len()
        invariant
            q <= chosen@.len(),
            chosen@.no_duplicates(),
            forall|r: int| 0 <= r < chosen@.len() ==> #[trigger] chosen@[r] < 128,
            forall|j: int|
                0 <= j < 128 ==> #[trigger] bit_of(bits, j) == chosen@.take(q as int).contains(
                    j as usize,
                ),
            count_set_bits(bits) == q,
        decreases chosen@.len() - q,
    {
        let i = chosen[q];
        let t = i as u128;
        let old_bits = bits;
        assert(!bit_of(old_bits, i as int)) by {
            let pre = chosen@.take(q as int);
            if pre.contains(i) {
                let w = choose|w: int| 0 <= w < pre.len() && pre[w] == i;
                assert(chosen@[w] == chosen@[q as int]);
            }
        }
        bits |= 1u128 << t;
        proof {
            assert(t < 128 && (old_bits >> t) & 1u128 != 1u128 ==> ((old_bits | (1u128 << t)) >> t)
                & 1u128 == 1u128) by (bit_vector);
            assert forall|j: int| 0 <= j < 128 implies #[trigger] bit_of(old_bits, j) == (bit_of(
                bits,
                j,
            ) && j != t) by {
                let jj = j as u128;
                assert(t < 128 && jj < 128 ==> ((((old_bits | (1u128 << t)) >> jj) & 1u128 == 1u128)
                    == ((old_bits >> jj) & 1u128 == 1u128 || jj == t))) by (bit_vector);
            }
            lemma_weight_clear_bit(bits, old_bits, t as int, unit_weights(), 128);
            assert(chosen@.take(q + 1) =~= chosen@.take(q as int).push(i));
            assert forall|j: int| 0 <= j < 128 implies #[trigger] bit_of(bits, j) == chosen@.take(
                q + 1,
            ).contains(j as usize) by {
                let jj = j as u128;
                assert(t < 128 && jj < 128 ==> ((((old_bits | (1u128 << t)) >> jj) & 1u128 == 1u128)
                    == ((old_bits >> jj) & 1u128 == 1u128 || jj == t))) by (bit_vector);
                let pre = chosen@.take(q as int);
                let post = chosen@.take(q + 1);
                assert(bit_of(old_bits, j) == pre.contains(j as usize));
                assert(bit_of(bits, j) == (bit_of(old_bits, j) || j == t));
                assert(post[q as int] == i);
                if pre.contains(j as usize) {
                    let w = choose|w: int| 0 <= w < pre.len() && pre[w] == j as usize;
                    assert(post[w] == j as usize);
                }
                if post.contains(j as usize) {
                    let w = choose|w: int| 0 <= w < post.len() && post[w] == j as usize;
                    if w < q {
                        assert(pre[w] == j as usize);
                    }
                }
                if j == t {
                    assert(chosen@.take(q + 1)[q as int] == j as usize);
                }
            }
        }
        q += 1;
    }
    bits
}

} // verus!
