//! Hash tables keyed through a random bit mask: by the masked bits of the
//! input, or by how many bytes of the input differ from the mask.
use vstd::prelude::*;
use std::collections::{HashMap, HashSet};
use crate::random_mask::random_u128_mask;
use crate::slot_map::SlotMap;
use crate::bit_tricks::count_set_bits;
use crate::buckets::file_value;

verus! {

broadcast use vstd::std_specs::hash::group_hash_axioms;

/// The number of positions at which two byte strings differ.
pub open spec fn mismatch_count(a: Seq<u8>, b: Seq<u8>) -> nat
    decreases a.len(),
{
    if a.len() == 0 {
        0
    } else {
        mismatch_count(a.drop_last(), b.drop_last()) + if a.last() != b.last() {
            1nat
        } else {
            0nat
        }
    }
}

/// Calls `triple_accel::hamming`: the number of positions at which two
/// byte strings of equal length differ.
#[verifier::external_body]
fn byte_hamming(a: &[u8], b: &[u8]) -> (r: u32)
    requires
        a@.len() == b@.len(),
    ensures
        r as nat == mismatch_count(a@, b@),
{
    triple_accel::hamming(a, b)
}

/// The number of set bits a random mask of `n_bits` bits has.
pub open spec fn mask_bit_count(n_bits: usize) -> int {
    if n_bits < 128 {
        n_bits as int
    } else {
        128
    }
}

/// The key under which `DistHash` files `input`: the number of bytes in
/// which the input, little-endian, differs from the mask.
pub open spec fn dist_key(mask: Seq<u8>, input: u128) -> u8 {
    mismatch_count(mask, vstd::bytes::spec_u128_to_le_bytes(input)) as u8
}

/// A table keyed by the byte distance between the input and a random mask.
pub struct DistHash<T> {
    mask: Vec<u8>,
    map: HashMap<u8, T>,
}

impl<T> DistHash<T> {
    /// The mask's bytes, little-endian.
    pub closed spec fn mask_view(&self) -> Seq<u8> {
        self.mask@
    }

    /// The values held, by key.
    pub closed spec fn view(&self) -> Map<u8, T> {
        self.map@
    }

    /// An empty table whose mask is a random `u128` with `n_bits` set bits
    /// (all 128 when `n_bits` is larger).
    pub fn new(n_bits: usize) -> (h: DistHash<T>)
        ensures
            h@ == Map::<u8, T>::empty(),
            h.mask_view().len() == 16,
            exists|m: u128|
                count_set_bits(m) == mask_bit_count(n_bits) && h.mask_view()
                    == vstd::bytes::spec_u128_to_le_bytes(m),
    {
        let m = random_u128_mask(n_bits);
        let mask = vstd::bytes::u128_to_le_bytes(m);
        DistHash { mask, map: HashMap::new() }
    }

    /// Holds `value` under the key of `input`, in place of any value held
    /// there before.
    pub fn insert(&mut self, input: u128, value: T)
        requires
            old(self).mask_view().len() == 16,
        ensures
            final(self).mask_view() == old(self).mask_view(),
            final(self)@ == old(self)@.insert(dist_key(old(self).mask_view(), input), value),
    {
        let input_bytes = vstd::bytes::u128_to_le_bytes(input);
        let key = byte_hamming(self.mask.as_slice(), input_bytes.as_slice()) as u8;
        self.map.insert(key, value);
    }

    /// The value held under the key of `input`, if there is one.
    pub fn get(&self, input: u128) -> (r: Option<&T>)
        requires
            self.mask_view().len() == 16,
        ensures
            match r {
                Some(v) => self@.contains_key(dist_key(self.mask_view(), input)) && *v
                    == self@[dist_key(self.mask_view(), input)],
                None => !self@.contains_key(dist_key(self.mask_view(), input)),
            },
    {
        let input_bytes = vstd::bytes::u128_to_le_bytes(input);
        let key = byte_hamming(self.mask.as_slice(), input_bytes.as_slice()) as u8;
        self.map.get(&key)
    }
}

/// A table that keeps, for each value of the masked bits of its inputs,
/// the set of values filed under it.
pub struct MainHash {
    mask: u128,
    map: SlotMap<HashSet<usize>>,
}

impl MainHash {
    /// The mask.
    pub closed spec fn mask_view(&self) -> u128 {
        self.mask
    }

    /// The set of values filed under each key.
    pub closed spec fn view(&self) -> Map<u128, Set<usize>> {
        self.map@.map_values(|s: HashSet<usize>| s@)
    }

    /// The table is in order.
    pub closed spec fn wf(&self) -> bool {
        self.map.wf()
    }

    /// An empty table with a random mask of `n_bits` set bits (all 128 when
    /// `n_bits` is larger).
    pub fn new(n_bits: usize) -> (h: MainHash)
        ensures
            h.wf(),
            h@ == Map::<u128, Set<usize>>::empty(),
            count_set_bits(h.mask_view()) == mask_bit_count(n_bits),
    {
        let h = MainHash { mask: random_u128_mask(n_bits), map: SlotMap::new() };
        assert(h@ =~= Map::<u128, Set<usize>>::empty());
        h
    }

    /// Adds `value` to the set filed under `input & mask`.
    pub fn insert(&mut self, input: u128, value: usize)
        requires
            old(self).wf(),
        ensures
            final(self).wf(),
            final(self).mask_view() == old(self).mask_view(),
            final(self)@ == file_value(old(self)@, input & old(self).mask_view(), value),
    {
        let ghost before = self@;
        let key = input & self.mask;
        let mut set = match self.map.replace(key, HashSet::new()) {
            Some(s) => s,
            None => HashSet::new(),
        };
        set.insert(value);
        self.map.insert(key, set);
        assert(self@ =~= file_value(before, key, value));
    }

    /// The set of values filed under `input & mask`, if there is one.
    pub fn get(&self, input: u128) -> (r: Option<&HashSet<usize>>)
        requires
            self.wf(),
        ensures
            match r {
                Some(s) => self@.contains_key(input & self.mask_view()) && s@ == self@[input
                    & self.mask_view()],
                None => !self@.contains_key(input & self.mask_view()),
            },
    {
        let key = input & self.mask;
        self.map.get(key)
    }
}

/// A table keyed by the masked bits of its inputs.
pub struct MaskHash<T> {
    mask: u128,
    map: SlotMap<T>,
}

impl<T> MaskHash<T> {
    /// The mask.
    pub closed spec fn mask_view(&self) -> u128 {
        self.mask
    }

    /// The values held, by key.
    pub closed spec fn view(&self) -> Map<u128, T> {
        self.map@
    }

    /// The table is in order.
    pub closed spec fn wf(&self) -> bool {
        self.map.wf()
    }

    /// An empty table with a random mask of `n_bits` set bits (all 128 when
    /// `n_bits` is larger).
    pub fn new(n_bits: usize) -> (h: MaskHash<T>)
        ensures
            h.wf(),
            h@ == Map::<u128, T>::empty(),
            count_set_bits(h.mask_view()) == mask_bit_count(n_bits),
    {
        MaskHash { mask: random_u128_mask(n_bits), map: SlotMap::new() }
    }

    /// Holds `value` under `input & mask`, in place of any value held there.
    pub fn insert(&mut self, input: u128, value: T)
        requires
            old(self).wf(),
        ensures
            final(self).wf(),
            final(self).mask_view() == old(self).mask_view(),
            final(self)@ == old(self)@.insert(input & old(self).mask_view(), value),
    {
        let key = input & self.mask;
        self.map.insert(key, value);
    }

    /// The value held under `input & mask`, if there is one.
    pub fn get(&self, input: u128) -> (r: Option<&T>)
        requires
            self.wf(),
        ensures
            match r {
                Some(v) => self@.contains_key(input & self.mask_view()) && *v == self@[input
                    & self.mask_view()],
                None => !self@.contains_key(input & self.mask_view()),
            },
    {
        let key = input & self.mask;
        self.map.get(key)
    }
}

} // verus!
