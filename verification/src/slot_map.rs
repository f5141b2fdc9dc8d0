//! A map from 128-bit keys to values: a `hashbrown::HashMap` from each key
//! to the slot of its value in a vector.
use vstd::prelude::*;

verus! {

/// Keys and the slots they point to, held in a
/// `hashbrown::HashMap<u128, usize>`; what it holds is `key_slots_contents`.
#[verifier::external_body]
pub struct KeySlots {
    map: hashbrown::HashMap<u128, usize>,
}

/// The key-to-slot pairs that a `KeySlots` holds.
pub uninterp spec fn key_slots_contents(m: KeySlots) -> Map<u128, usize>;

impl KeySlots {
    /// Calls `hashbrown::HashMap::new`: no key is held.
    #[verifier::external_body]
    fn new() -> (slots: KeySlots)
        ensures
            key_slots_contents(slots) =~= Map::empty(),
    {
        KeySlots { map: hashbrown::HashMap::new() }
    }

    /// Calls `hashbrown::HashMap::get`: the slot of `key`, if it is held.
    #[verifier::external_body]
    fn get(&self, key: u128) -> (r: Option<usize>)
        ensures
            r == if key_slots_contents(*self).contains_key(key) {
                Some(key_slots_contents(*self)[key])
            } else {
                None::<usize>
            },
    {
        self.map.get(&key).copied()
    }

    /// Calls `hashbrown::HashMap::insert`: `key` now points to `slot`; the
    /// other keys are unchanged.
    #[verifier::external_body]
    fn insert(&mut self, key: u128, slot: usize)
        ensures
            key_slots_contents(*final(self)) == key_slots_contents(*old(self)).insert(key, slot),
    {
        self.map.insert(key, slot);
    }
}

/// A map from 128-bit keys to values of type `T`.
pub struct SlotMap<T> {
    slots: KeySlots,
    values: Vec<T>,
}

impl<T> SlotMap<T> {
    /// Every key points to a slot of its own that holds a value.
    pub closed spec fn wf(&self) -> bool {
        let c = key_slots_contents(self.slots);
        &&& forall|k: u128| #[trigger] c.contains_key(k) ==> c[k] < self.values@.len()
        &&& forall|k1: u128, k2: u128|
            #[trigger] c.contains_key(k1) && #[trigger] c.contains_key(k2) && k1 != k2 ==> c[k1]
                != c[k2]
    }

    /// The key-value pairs held.
    pub closed spec fn view(&self) -> Map<u128, T> {
        Map::new(
            |k: u128| key_slots_contents(self.slots).contains_key(k),
            |k: u128| self.values@[key_slots_contents(self.slots)[k] as int],
        )
    }

    /// An empty map.
    pub fn new() -> (m: Self)
        ensures
            m.wf(),
            m@ == Map::<u128, T>::empty(),
    {
        let m = SlotMap { slots: KeySlots::new(), values: Vec::new() };
        assert(m@ =~= Map::<u128, T>::empty());
        m
    }

    /// The value held for `key`, if there is one.
    pub fn get(&self, key: u128) -> (r: Option<&T>)
        requires
            self.wf(),
        ensures
            match r {
                Some(v) => self@.contains_key(key) && *v == self@[key],
                None => !self@.contains_key(key),
            },
    {
        match self.slots.get(key) {
            Some(s) => Some(&self.values[s]),
            None => None,
        }
    }

    /// Holds `value` for `key`, in place of any value held for it before.
    pub fn insert(&mut self, key: u128, value: T)
        requires
            old(self).wf(),
        ensures
            final(self).wf(),
            final(self)@ == old(self)@.insert(key, value),
    {
        let ghost before = self@;
        match self.slots.get(key) {
            Some(s) => {
                self.values.set(s, value);
            },
            None => {
                let s = self.values.len();
                self.values.push(value);
                self.slots.insert(key, s);
            },
        }
        assert(self@ =~= before.insert(key, value));
    }

    /// Holds `value` for `key` and hands back the value held for it before,
    /// if there was one.
    pub fn replace(&mut self, key: u128, value: T) -> (r: Option<T>)
        requires
            old(self).wf(),
        ensures
            final(self).wf(),
            final(self)@ == old(self)@.insert(key, value),
            r == if old(self)@.contains_key(key) {
                Some(old(self)@[key])
            } else {
                None::<T>
            },
    {
        let ghost before = self@;
        match self.slots.get(key) {
            Some(s) => {
                let mut v = value;
                std::mem::swap(&mut v, &mut self.values[s]);
                assert(self@ =~= before.insert(key, value));
                Some(v)
            },
            None => {
                let s = self.values.len();
                self.values.push(value);
                self.slots.insert(key, s);
                assert(self@ =~= before.insert(key, value));
                None
            },
        }
    }
}

} // verus!
