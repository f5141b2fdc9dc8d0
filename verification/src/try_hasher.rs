//! A hash table keyed by the input XOR-ed with a random mask.
use vstd::prelude::*;
use crate::random_mask::random_u128_mask;
use crate::slot_map::SlotMap;
use crate::bit_tricks::count_set_bits;
use crate::hashers::mask_bit_count;

verus! {

/// A table keyed by `input ^ mask`.
pub struct IndexHasher<T> {
    mask: u128,
    map: SlotMap<T>,
}

impl<T> IndexHasher<T> {
    /// The mask.
    pub closed spec fn mask_view(&self) -> u128 {
        self.mask
    }

    /// The values held, by key.
    pub closed spec fn view(&self) -> Map<u128, T> {
        self.map@
    }

    /// The table is in order.
    pub closed spec fn wf(&self) -> bool {
        self.map.wf()
    }

    /// An empty table with a random mask of `n_bits` set bits (all 128 when
    /// `n_bits` is larger).
    pub fn new(n_bits: usize) -> (h: IndexHasher<T>)
        ensures
            h.wf(),
            h@ == Map::<u128, T>::empty(),
            count_set_bits(h.mask_view()) == mask_bit_count(n_bits),
    {
        IndexHasher { mask: random_u128_mask(n_bits), map: SlotMap::new() }
    }

    /// Holds `value` under `input ^ mask`, in place of any value held there.
    pub fn insert(&mut self, input: u128, value: T)
        requires
            old(self).wf(),
        ensures
            final(self).wf(),
            final(self).mask_view() == old(self).mask_view(),
            final(self)@ == old(self)@.insert(input ^ old(self).mask_view(), value),
    {
        let key = input ^ self.mask;
        self.map.insert(key, value);
    }

    /// The value held under `input ^ mask`, if there is one.
    pub fn get(&self, input: u128) -> (r: Option<&T>)
        requires
            self.wf(),
        ensures
            match r {
                Some(v) => self@.contains_key(input ^ self.mask_view()) && *v == self@[input
                    ^ self.mask_view()],
                None => !self@.contains_key(input ^ self.mask_view()),
            },
    {
        let key = input ^ self.mask;
        self.map.get(key)
    }
}

/// Inputs are keyed one to one: two inputs share a key only when they are
/// the same input.
pub proof fn law_xor_keys_are_distinct(mask: u128, a: u128, b: u128)
    requires
        a ^ mask == b ^ mask,
    ensures
        a == b,
{
    assert(a ^ mask == b ^ mask ==> a == b) by (bit_vector);
}

} // verus!
