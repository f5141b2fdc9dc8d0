//! A hash table keyed by a selection of bits of a 128-bit code.
use vstd::prelude::*;
use std::collections::{HashMap, HashSet};
use crate::bit_tricks::bit_of;
use crate::buckets::file_value;
use vstd::arithmetic::power2::{pow2, lemma2_to64, lemma_pow2_unfold, lemma_pow2_strictly_increases};
use vstd::bits::{lemma_u64_shl_is_mul, lemma_u64_pow2_no_overflow};

verus! {

broadcast use vstd::std_specs::hash::group_hash_axioms;

/// Whether `mask_key(values, target)` is defined: every selected position is
/// a bit of a `u128`, and every selected bit that is set lands in the 64-bit
/// key.
pub open spec fn mask_key_defined(values: Seq<usize>, target: u128) -> bool {
    forall|i: int|
        0 <= i < values.len() ==> #[trigger] values[i] < 128 && (bit_of(target, values[i] as int)
            ==> i < 64)
}

/// `sum_{i < n, bit values[i] of target set} 2^i`.
pub open spec fn mask_key_below(values: Seq<usize>, target: u128, n: int) -> nat
    decreases n,
{
    if n <= 0 {
        0
    } else {
        mask_key_below(values, target, n - 1) + if bit_of(target, values[n - 1] as int) {
            pow2((n - 1) as nat)
        } else {
            0
        }
    }
}

/// The key of `target`: bit `i` of the key is bit `values[i]` of `target`.
pub open spec fn mask_key_spec(values: Seq<usize>, target: u128) -> nat {
    mask_key_below(values, target, values.len() as int)
}

/// Gathers the bits of `target` at the positions listed in `values`: bit
/// `i` of the key is bit `values[i]` of `target`.
pub fn mask_key(values: &[usize], target: u128) -> (key: u64)
    requires
        mask_key_defined(values@, target),
    ensures
        key as nat == mask_key_spec(values@, target),
{
    let mut result: u64 = 0;
    let mut index: usize = 0;
    proof {
        lemma2_to64();
    }
    while index < values.len()
        invariant
            index <= values@.len(),
            mask_key_defined(values@, target),
            result as nat == mask_key_below(values@, target, index as int),
            index <= 64 ==> result < pow2(index as nat),
        decreases values@.len() - index,
    {
        let val = values[index];
        let v = val as u128;
        assert(values@[index as int] < 128);
        assert(v < 128 ==> ((target & (1u128 << v)) != 0 <==> (target >> v) & 1u128 == 1u128))
            by (bit_vector);
        proof {
            if index < 64 {
                lemma_pow2_strictly_increases(index as nat, (index + 1) as nat);
            }
        }
        if (target & (1u128 << v)) != 0 {
            let ix = index as u64;
            proof {
                assert(bit_of(target, values@[index as int] as int));
                assert(index < 64);
                lemma_u64_pow2_no_overflow(ix as nat);
                lemma_u64_shl_is_mul(1u64, ix);
                lemma_pow2_unfold((index + 1) as nat);
            }
            assert(ix < 64 && result < (1u64 << ix) ==> result | (1u64 << ix) == result + (1u64
                << ix)) by (bit_vector);
            result |= 1u64 << ix;
        }
        index += 1;
    }
    result
}

/// A hash table that files values under the key `mask_key(mask, input)`;
/// each key holds a set of values.
pub struct MaskMap {
    mask: Vec<usize>,
    hashmap: HashMap<u64, HashSet<usize>>,
}

impl MaskMap {
    /// The bit positions the keys are made of.
    pub closed spec fn mask_view(&self) -> Seq<usize> {
        self.mask@
    }

    /// For each key, the set of values filed under it.
    pub closed spec fn sets(&self) -> Map<u64, Set<usize>> {
        self.hashmap@.map_values(|s: HashSet<usize>| s@)
    }

    /// Makes an empty table that keys inputs by the bits listed in `mask`.
    pub fn new(mask: Vec<usize>) -> (m: Self)
        ensures
            m.mask_view() == mask@,
            m.sets() == Map::<u64, Set<usize>>::empty(),
    {
        let m = MaskMap { mask, hashmap: HashMap::new() };
        assert(m.sets() =~= Map::<u64, Set<usize>>::empty());
        m
    }

    /// The set of values filed under the key of `key`, if there is one.
    pub fn get(&self, key: u128) -> (r: Option<&HashSet<usize>>)
        requires
            mask_key_defined(self.mask_view(), key),
        ensures
            ({
                let k = mask_key_spec(self.mask_view(), key) as u64;
                match r {
                    Some(s) => self.sets().contains_key(k) && s@ == self.sets()[k],
                    None => !self.sets().contains_key(k),
                }
            }),
    {
        let k: u64 = mask_key(self.mask.as_slice(), key);
        self.hashmap.get(&k)
    }

    /// Adds `value` to the set filed under the key of `input`.
    pub fn insert(&mut self, input: u128, value: usize)
        requires
            mask_key_defined(old(self).mask_view(), input),
        ensures
            final(self).mask_view() == old(self).mask_view(),
            ({
                let k = mask_key_spec(old(self).mask_view(), input) as u64;
                final(self).sets() == file_value(old(self).sets(), k, value)
            }),
    {
        let k: u64 = mask_key(self.mask.as_slice(), input);
        let ghost before = self.sets();
        let set = match self.hashmap.remove(&k) {
            Some(mut s) => {
                s.insert(value);
                s
            },
            None => {
                let mut s: HashSet<usize> = HashSet::new();
                s.insert(value);
                s
            },
        };
        self.hashmap.insert(k, set);
        assert(self.sets() =~= file_value(before, k, value));
    }
}

/// Two inputs that agree on the masked bits share a key: the table cannot
/// tell them apart.
pub proof fn law_masked_bits_decide_the_key(mask: Seq<usize>, a: u128, b: u128)
    requires
        forall|i: int| 0 <= i < mask.len() ==> bit_of(a, #[trigger] mask[i] as int) == bit_of(
            b,
            mask[i] as int,
        ),
    ensures
        mask_key_spec(mask, a) == mask_key_spec(mask, b),
{
    lemma_key_below_agree(mask, a, b, mask.len() as int);
}

proof fn lemma_key_below_agree(mask: Seq<usize>, a: u128, b: u128, n: int)
    requires
        n <= mask.len(),
        forall|i: int| 0 <= i < mask.len() ==> bit_of(a, #[trigger] mask[i] as int) == bit_of(
            b,
            mask[i] as int,
        ),
    ensures
        mask_key_below(mask, a, n) == mask_key_below(mask, b, n),
    decreases n,
{
    if n > 0 {
        lemma_key_below_agree(mask, a, b, n - 1);
        assert(bit_of(a, mask[n - 1] as int) == bit_of(b, mask[n - 1] as int));
    }
}

} // verus!
