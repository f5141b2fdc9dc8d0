//! A set of data-point ids held in a `hashbrown::HashSet`.
use vstd::prelude::*;

verus! {

/// A set of data-point ids. The ids live in a `hashbrown::HashSet<usize>`;
/// what the set holds is `point_set_contents`.
#[verifier::external_body]
pub struct PointSet {
    set: hashbrown::HashSet<usize>,
}

/// The ids that a `PointSet` holds.
pub uninterp spec fn point_set_contents(s: PointSet) -> Set<usize>;

impl PointSet {
    /// Calls `hashbrown::HashSet::new`; the new set holds nothing.
    #[verifier::external_body]
    pub(crate) fn new() -> (s: PointSet)
        ensures
            point_set_contents(s) == Set::<usize>::empty(),
    {
        PointSet { set: hashbrown::HashSet::new() }
    }

    /// Calls `hashbrown::HashSet::insert`: afterwards the set also holds
    /// `id`; the result says whether it was not there before.
    #[verifier::external_body]
    pub(crate) fn insert(&mut self, id: usize) -> (fresh: bool)
        ensures
            point_set_contents(*final(self)) == point_set_contents(*old(self)).insert(id),
            fresh == !point_set_contents(*old(self)).contains(id),
    {
        self.set.insert(id)
    }

    /// Calls `hashbrown::HashSet::contains`: whether the set holds `id`.
    #[verifier::external_body]
    pub fn contains(&self, id: usize) -> (r: bool)
        ensures
            r == point_set_contents(*self).contains(id),
    {
        self.set.contains(&id)
    }

    /// Calls `hashbrown::HashSet::len`: the number of ids held.
    #[verifier::external_body]
    pub fn len(&self) -> (n: usize)
        ensures
            n as nat == point_set_contents(*self).len(),
    {
        self.set.len()
    }

    /// Walks the set with `hashbrown::HashSet::iter`: every id it holds,
    /// each once, in the order of the walk (which is not stated).
    #[verifier::external_body]
    pub fn to_vec(&self) -> (v: Vec<usize>)
        ensures
            v@.to_set() == point_set_contents(*self),
            v@.no_duplicates(),
    {
        self.set.iter().copied().collect()
    }
}

} // verus!
