//! A multi-table index from permutation codes to the data points filed
//! under them.
use vstd::prelude::*;
use std::collections::HashMap;
use crate::point_set::{PointSet, point_set_contents};
use crate::buckets::{file_point, bucket_set, table_buckets, file_in_table, collect_bucket};

verus! {

broadcast use vstd::std_specs::hash::group_hash_axioms;

/// An index with one hash table per entry of its hash sequence; every
/// table files each inserted point under the point's permutation code.
pub struct Index {
    maps: Vec<HashMap<u128, Vec<usize>>>,
    hash_sequence: Vec<u32>,
}

impl Index {
    /// The hash sequence the index was made with.
    pub closed spec fn hash_sequence_view(&self) -> Seq<u32> {
        self.hash_sequence@
    }

    /// The number of tables.
    pub closed spec fn n_tables(&self) -> nat {
        self.maps@.len()
    }

    /// The buckets that every table holds: for each code, the points filed
    /// under it in insertion order.
    pub closed spec fn buckets(&self) -> Map<u128, Seq<usize>> {
        if self.maps@.len() > 0 {
            table_buckets(self.maps@[0])
        } else {
            Map::empty()
        }
    }

    /// One table per entry of the hash sequence, and all tables alike.
    pub closed spec fn wf(&self) -> bool {
        &&& self.maps@.len() == self.hash_sequence@.len()
        &&& forall|t: int|
            0 <= t < self.maps@.len() ==> #[trigger] table_buckets(self.maps@[t])
                == self.buckets()
    }

    /// Makes an empty index with one table per entry of `hash_sequence`.
    pub fn new(hash_sequence: Vec<u32>) -> (index: Self)
        ensures
            index.wf(),
            index.hash_sequence_view() == hash_sequence@,
            index.n_tables() == hash_sequence@.len(),
            index.buckets() == Map::<u128, Seq<usize>>::empty(),
    {
        let mut maps: Vec<HashMap<u128, Vec<usize>>> = Vec::new();
        let mut t: usize = 0;
        while t < hash_sequence.len()
            invariant
                t <= hash_sequence@.len(),
                maps@.len() == t,
                forall|s: int| 0 <= s < t ==> #[trigger] table_buckets(maps@[s]) == Map::<
                    u128,
                    Seq<usize>,
                >::empty(),
            decreases hash_sequence@.len() - t,
        {
            let m: HashMap<u128, Vec<usize>> = HashMap::new();
            assert(table_buckets(m) =~= Map::<u128, Seq<usize>>::empty());
            maps.push(m);
            t = t + 1;
        }
        let index = Index { maps, hash_sequence };
        assert(index.buckets() =~= Map::<u128, Seq<usize>>::empty());
        index
    }

    /// Files `data_point` under `permutation` in every table.
    pub fn insert(&mut self, permutation: u128, data_point: usize)
        requires
            old(self).wf(),
        ensures
            final(self).wf(),
            final(self).hash_sequence_view() == old(self).hash_sequence_view(),
            final(self).n_tables() == old(self).n_tables(),
            final(self).buckets() == if old(self).n_tables() > 0 {
                file_point(old(self).buckets(), permutation, data_point)
            } else {
                old(self).buckets()
            },
    {
        let ghost before = self.buckets();
        let ghost after = file_point(before, permutation, data_point);
        let n = self.maps.len();
        let mut t: usize = 0;
        while t < n
            invariant
                n == self.maps@.len(),
                n == old(self).maps@.len(),
                self.hash_sequence == old(self).hash_sequence,
                self.maps@.len() == self.hash_sequence@.len(),
                before == old(self).buckets(),
                after == file_point(before, permutation, data_point),
                t <= n,
                forall|s: int| 0 <= s < t ==> #[trigger] table_buckets(self.maps@[s]) == after,
                forall|s: int| t <= s < n ==> #[trigger] table_buckets(self.maps@[s]) == before,
            decreases n - t,
        {
            let mut table: HashMap<u128, Vec<usize>> = HashMap::new();
            std::mem::swap(&mut table, &mut self.maps[t]);
            assert(table_buckets(table) == before);
            file_in_table(&mut table, permutation, data_point);
            self.maps.set(t, table);
            t = t + 1;
        }
        if n > 0 {
            assert(table_buckets(self.maps@[0]) == after);
        }
    }

    /// The points filed under `permutation` in any table.
    pub fn query(&mut self, permutation: u128) -> (candidates: PointSet)
        requires
            old(self).wf(),
        ensures
            *final(self) == *old(self),
            point_set_contents(candidates) == if old(self).n_tables() > 0 {
                bucket_set(old(self).buckets(), permutation)
            } else {
                Set::<usize>::empty()
            },
    {
        let ghost want = if self.n_tables() > 0 {
            bucket_set(self.buckets(), permutation)
        } else {
            Set::<usize>::empty()
        };
        let mut candidates = PointSet::new();
        let n = self.maps.len();
        let mut t: usize = 0;
        while t < n
            invariant
                self.wf(),
                n == self.maps@.len(),
                t <= n,
                want == if self.n_tables() > 0 {
                    bucket_set(self.buckets(), permutation)
                } else {
                    Set::<usize>::empty()
                },
                t == 0 ==> point_set_contents(candidates) == Set::<usize>::empty(),
                t > 0 ==> point_set_contents(candidates) == want,
            decreases n - t,
        {
            assert(table_buckets(self.maps@[t as int]) == self.buckets());
            collect_bucket(&self.maps[t], &permutation, &mut candidates);
            assert(point_set_contents(candidates) =~= want);
            t = t + 1;
        }
        candidates
    }
}

} // verus!
