//! Indexes that file each point under randomly chosen windows of bits of
//! its permutation code, one window per table. A fresh window is drawn on
//! every call, for inserts and queries alike.
use vstd::prelude::*;
use std::collections::HashMap;
use crate::point_set::{PointSet, point_set_contents};
use crate::buckets::{file_point, bucket_set, table_buckets, file_in_table, collect_bucket};
use crate::random_mask::{thread_rng, gen_below};

verus! {

broadcast use vstd::std_specs::hash::group_hash_axioms;

/// The union of the buckets of `keys[t]` in `tables[t]`, for `t < n`.
pub open spec fn union_of_buckets<K>(tables: Seq<Map<K, Seq<usize>>>, keys: Seq<K>, n: int) -> Set<
    usize,
>
    decreases n,
{
    if n <= 0 {
        Set::empty()
    } else {
        union_of_buckets(tables, keys, n - 1).union(bucket_set(tables[n - 1], keys[n - 1]))
    }
}

proof fn lemma_union_of_buckets_prefix<K>(
    tables: Seq<Map<K, Seq<usize>>>,
    keys: Seq<K>,
    longer: Seq<K>,
    n: int,
)
    requires
        0 <= n <= keys.len(),
        n <= longer.len(),
        forall|i: int| 0 <= i < n ==> keys[i] == longer[i],
    ensures
        union_of_buckets(tables, keys, n) == union_of_buckets(tables, longer, n),
    decreases n,
{
    if n > 0 {
        lemma_union_of_buckets_prefix(tables, keys, longer, n - 1);
    }
}

/// A point filed, in each of the first `n` tables, under that table's key is
/// among the points that a lookup of the same keys in those tables gathers.
pub proof fn law_filed_point_is_gathered<K>(
    before: Seq<Map<K, Seq<usize>>>,
    after: Seq<Map<K, Seq<usize>>>,
    keys: Seq<K>,
    point: usize,
    n: int,
)
    requires
        0 < n <= after.len(),
        n <= before.len(),
        n <= keys.len(),
        forall|t: int| 0 <= t < n ==> #[trigger] after[t] == file_point(before[t], keys[t], point),
    ensures
        union_of_buckets(after, keys, n).contains(point),
{
    crate::buckets::law_filed_point_is_found(before[n - 1], keys[n - 1], point);
    assert(after[n - 1] == file_point(before[n - 1], keys[n - 1], point));
    assert(bucket_set(after[n - 1], keys[n - 1]).contains(point));
}

/// Under the windows at the shifts an insert drew, a lookup finds the
/// inserted point again; under other windows it may not.
pub proof fn law_found_under_the_insert_windows_u8(
    before: Seq<Map<u8, Seq<usize>>>,
    after: Seq<Map<u8, Seq<usize>>>,
    code: u128,
    point: usize,
    shifts: Seq<u32>,
)
    requires
        filed_at_shifts_u8(before, after, code, point, shifts),
        shifts.len() > 0,
    ensures
        union_of_buckets(after, windows_u8(code, shifts), shifts.len() as int).contains(point),
{
    let keys = windows_u8(code, shifts);
    assert forall|t: int| 0 <= t < shifts.len() implies #[trigger] after[t] == file_point(
        before[t],
        keys[t],
        point,
    ) by {
        assert(after[t] == file_point(before[t], select_u8(code, shifts[t]), point));
    }
    law_filed_point_is_gathered(before, after, keys, point, shifts.len() as int);
}

/// Under the windows at the shifts an insert drew, a lookup finds the
/// inserted point again; under other windows it may not.
pub proof fn law_found_under_the_insert_windows_u16(
    before: Seq<Map<u16, Seq<usize>>>,
    after: Seq<Map<u16, Seq<usize>>>,
    code: u128,
    point: usize,
    shifts: Seq<u32>,
)
    requires
        filed_at_shifts_u16(before, after, code, point, shifts),
        shifts.len() > 0,
    ensures
        union_of_buckets(after, windows_u16(code, shifts), shifts.len() as int).contains(point),
{
    let keys = windows_u16(code, shifts);
    assert forall|t: int| 0 <= t < shifts.len() implies #[trigger] after[t] == file_point(
        before[t],
        keys[t],
        point,
    ) by {
        assert(after[t] == file_point(before[t], select_u16(code, shifts[t]), point));
    }
    law_filed_point_is_gathered(before, after, keys, point, shifts.len() as int);
}

/// Under the windows at the shifts an insert drew, a lookup finds the
/// inserted point again; under other windows it may not.
pub proof fn law_found_under_the_insert_windows_u64(
    before: Seq<Map<u64, Seq<usize>>>,
    after: Seq<Map<u64, Seq<usize>>>,
    code: u128,
    point: usize,
    shifts: Seq<u32>,
)
    requires
        filed_at_shifts_u64(before, after, code, point, shifts),
        shifts.len() > 0,
    ensures
        union_of_buckets(after, windows_u64(code, shifts), shifts.len() as int).contains(point),
{
    let keys = windows_u64(code, shifts);
    assert forall|t: int| 0 <= t < shifts.len() implies #[trigger] after[t] == file_point(
        before[t],
        keys[t],
        point,
    ) by {
        assert(after[t] == file_point(before[t], select_u64(code, shifts[t]), point));
    }
    law_filed_point_is_gathered(before, after, keys, point, shifts.len() as int);
}

/// Every shift is below `bound`.
pub open spec fn shifts_below(shifts: Seq<u32>, bound: u32) -> bool {
    forall|t: int| 0 <= t < shifts.len() ==> #[trigger] shifts[t] < bound
}

/// The `8`-bit window of `v` that starts at bit `shift`.
pub open spec fn select_u8(v: u128, shift: u32) -> u8 {
    ((v >> (shift as u128)) & 0xFFu128) as u8
}

/// The windows of `code` that start at the given shifts.
pub open spec fn windows_u8(code: u128, shifts: Seq<u32>) -> Seq<u8> {
    Seq::new(shifts.len(), |t: int| select_u8(code, shifts[t]))
}

/// `after` is `before` with `point` filed, in table `t`, under the window
/// of `code` at `shifts[t]`, each shift below 120.
pub open spec fn filed_at_shifts_u8(
    before: Seq<Map<u8, Seq<usize>>>,
    after: Seq<Map<u8, Seq<usize>>>,
    code: u128,
    point: usize,
    shifts: Seq<u32>,
) -> bool {
    &&& shifts.len() == before.len()
    &&& after.len() == before.len()
    &&& shifts_below(shifts, 120u32)
    &&& forall|t: int|
        0 <= t < before.len() ==> #[trigger] after[t] == file_point(
            before[t],
            select_u8(code, shifts[t]),
            point,
        )
}

/// Draws a window of `8` bits of a code at a random position below
/// 120.
pub struct Select8Bits;

impl Select8Bits {
    /// The window of `8` bits of `v` that starts at a random bit below
    /// 120.
    pub fn hash(&self, v: u128) -> (r: u8)
        ensures
            exists|s: u32| s < 120u32 && r == select_u8(v, s),
    {
        let mut rng = thread_rng();
        let shift = gen_below(&mut rng, 120u32);
        let sh = shift as u128;
        assert(sh < 120u32 ==> (((v & (0xFFFF_FFFFu128 << sh)) >> sh) as u8) == (((v >> sh)
            & 0xFFu128) as u8)) by (bit_vector);
        let mask = 0xFFFF_FFFFu128 << sh;
        let r = ((v & mask) >> sh) as u8;
        assert(r == select_u8(v, shift));
        r
    }
}

/// An index of `n_hashes` tables; each table files a point under a random
/// `8`-bit window of its code.
pub struct Index8 {
    maps: Vec<HashMap<u8, Vec<usize>>>,
    functions: Vec<Box<Select8Bits>>,
    n_hashes: usize,
}

impl Index8 {
    /// The number of tables.
    pub closed spec fn n_hashes_view(&self) -> nat {
        self.n_hashes as nat
    }

    /// The buckets of each table.
    pub closed spec fn tables(&self) -> Seq<Map<u8, Seq<usize>>> {
        self.maps@.map_values(|m: HashMap<u8, Vec<usize>>| table_buckets(m))
    }

    /// One table and one window drawer per hash.
    pub closed spec fn wf(&self) -> bool {
        &&& self.maps@.len() == self.n_hashes
        &&& self.functions@.len() == self.n_hashes
    }

    /// An index of `n_hashes` empty tables.
    pub fn new(n_hashes: usize) -> (index: Self)
        ensures
            index.wf(),
            index.n_hashes_view() == n_hashes,
            index.tables() == Seq::new(n_hashes as nat, |t: int| Map::<u8, Seq<usize>>::empty()),
    {
        let mut functions: Vec<Box<Select8Bits>> = Vec::new();
        let mut maps: Vec<HashMap<u8, Vec<usize>>> = Vec::new();
        let mut t: usize = 0;
        while t < n_hashes
            invariant
                t <= n_hashes,
                maps@.len() == t,
                functions@.len() == t,
                forall|s: int| 0 <= s < t ==> #[trigger] table_buckets(maps@[s]) == Map::<
                    u8,
                    Seq<usize>,
                >::empty(),
            decreases n_hashes - t,
        {
            functions.push(Box::new(Select8Bits));
            let m: HashMap<u8, Vec<usize>> = HashMap::new();
            assert(table_buckets(m) =~= Map::<u8, Seq<usize>>::empty());
            maps.push(m);
            t = t + 1;
        }
        let index = Index8 { maps, functions, n_hashes };
        assert(index.tables() =~= Seq::new(
            n_hashes as nat,
            |t: int| Map::<u8, Seq<usize>>::empty(),
        ));
        index
    }

    /// Files `data_point` in every table, each under a freshly drawn window
    /// of `permutation`.
    pub fn insert(&mut self, permutation: u128, data_point: usize)
        requires
            old(self).wf(),
        ensures
            final(self).wf(),
            final(self).n_hashes_view() == old(self).n_hashes_view(),
            exists|shifts: Seq<u32>|
                #[trigger] filed_at_shifts_u8(
                    old(self).tables(),
                    final(self).tables(),
                    permutation,
                    data_point,
                    shifts,
                ),
    {
        let ghost before = self.tables();
        let ghost mut shifts: Seq<u32> = Seq::empty();
        let n = self.n_hashes;
        let mut i: usize = 0;
        while i < n
            invariant
                self.wf(),
                n == self.n_hashes,
                n == old(self).n_hashes,
                before == old(self).tables(),
                before.len() == n,
                i <= n,
                shifts.len() == i,
                shifts_below(shifts, 120u32),
                forall|t: int|
                    0 <= t < i ==> #[trigger] table_buckets(self.maps@[t]) == file_point(
                        before[t],
                        select_u8(permutation, shifts[t]),
                        data_point,
                    ),
                forall|t: int| i <= t < n ==> #[trigger] table_buckets(self.maps@[t]) == before[t],
            decreases n - i,
        {
            let hash = self.functions[i].hash(permutation);
            let ghost maps0 = self.maps@;
            let mut table: HashMap<u8, Vec<usize>> = HashMap::new();
            std::mem::swap(&mut table, &mut self.maps[i]);
            assert(table_buckets(table) == before[i as int]);
            file_in_table(&mut table, hash, data_point);
            self.maps.set(i, table);
            let ghost old_shifts = shifts;
            proof {
                let s = choose|s: u32| s < 120u32 && hash == select_u8(permutation, s);
                shifts = shifts.push(s);
            }
            assert forall|t: int| 0 <= t < i + 1 implies #[trigger] shifts[t] < 120u32 by {
                if t < i {
                    assert(shifts[t] == old_shifts[t]);
                }
            }
            assert forall|t: int| 0 <= t < i + 1 implies #[trigger] table_buckets(self.maps@[t])
                == file_point(before[t], select_u8(permutation, shifts[t]), data_point) by {
                if t < i {
                    assert(shifts[t] == old_shifts[t]);
                    assert(self.maps@[t] == maps0[t]);
                    assert(table_buckets(maps0[t]) == file_point(
                        before[t],
                        select_u8(permutation, old_shifts[t]),
                        data_point,
                    ));
                } else {
                    assert(table_buckets(self.maps@[t]) == file_point(before[t], hash, data_point));
                }
            }
            i = i + 1;
        }
        assert forall|t: int| 0 <= t < before.len() implies #[trigger] self.tables()[t]
            == file_point(before[t], select_u8(permutation, shifts[t]), data_point) by {
            assert(self.tables()[t] == table_buckets(self.maps@[t]));
        }
        assert(filed_at_shifts_u8(before, self.tables(), permutation, data_point, shifts));
    }

    /// The points filed, in each table, under a freshly drawn window of
    /// `permutation`.
    pub fn query(&mut self, permutation: u128) -> (candidates: PointSet)
        requires
            old(self).wf(),
        ensures
            *final(self) == *old(self),
            exists|shifts: Seq<u32>|
                {
                    &&& shifts.len() == old(self).tables().len()
                    &&& shifts_below(shifts, 120u32)
                    &&& point_set_contents(candidates) == union_of_buckets(
                        old(self).tables(),
                        #[trigger] windows_u8(permutation, shifts),
                        shifts.len() as int,
                    )
                },
    {
        let mut candidates = PointSet::new();
        let ghost mut shifts: Seq<u32> = Seq::empty();
        let n = self.n_hashes;
        let mut i: usize = 0;
        while i < n
            invariant
                self.wf(),
                *self == *old(self),
                n == self.n_hashes,
                i <= n,
                shifts.len() == i,
                shifts_below(shifts, 120u32),
                point_set_contents(candidates) == union_of_buckets(
                    self.tables(),
                    windows_u8(permutation, shifts),
                    i as int,
                ),
            decreases n - i,
        {
            let hash = self.functions[i].hash(permutation);
            let ghost old_shifts = shifts;
            collect_bucket(&self.maps[i], &hash, &mut candidates);
            proof {
                let s = choose|s: u32| s < 120u32 && hash == select_u8(permutation, s);
                shifts = shifts.push(s);
                assert forall|t: int| 0 <= t < i + 1 implies #[trigger] shifts[t] < 120u32 by {
                    if t < i {
                        assert(shifts[t] == old_shifts[t]);
                    }
                }
                let ws = windows_u8(permutation, shifts);
                let old_ws = windows_u8(permutation, old_shifts);
                assert forall|t: int| 0 <= t < i implies old_ws[t] == ws[t] by {
                    assert(shifts[t] == old_shifts[t]);
                }
                lemma_union_of_buckets_prefix(self.tables(), old_ws, ws, i as int);
                assert(self.tables()[i as int] == table_buckets(self.maps@[i as int]));
                assert(ws[i as int] == hash);
            }
            i = i + 1;
        }
        candidates
    }
}

/// The `16`-bit window of `v` that starts at bit `shift`.
pub open spec fn select_u16(v: u128, shift: u32) -> u16 {
    ((v >> (shift as u128)) & 0xFFFFu128) as u16
}

/// The windows of `code` that start at the given shifts.
pub open spec fn windows_u16(code: u128, shifts: Seq<u32>) -> Seq<u16> {
    Seq::new(shifts.len(), |t: int| select_u16(code, shifts[t]))
}

/// `after` is `before` with `point` filed, in table `t`, under the window
/// of `code` at `shifts[t]`, each shift below 113.
pub open spec fn filed_at_shifts_u16(
    before: Seq<Map<u16, Seq<usize>>>,
    after: Seq<Map<u16, Seq<usize>>>,
    code: u128,
    point: usize,
    shifts: Seq<u32>,
) -> bool {
    &&& shifts.len() == before.len()
    &&& after.len() == before.len()
    &&& shifts_below(shifts, 113u32)
    &&& forall|t: int|
        0 <= t < before.len() ==> #[trigger] after[t] == file_point(
            before[t],
            select_u16(code, shifts[t]),
            point,
        )
}

/// Draws a window of `16` bits of a code at a random position below
/// 113.
pub struct Select16Bits;

impl Select16Bits {
    /// The window of `16` bits of `v` that starts at a random bit below
    /// 113.
    pub fn hash(&self, v: u128) -> (r: u16)
        ensures
            exists|s: u32| s < 113u32 && r == select_u16(v, s),
    {
        let mut rng = thread_rng();
        let shift = gen_below(&mut rng, 113u32);
        let sh = shift as u128;
        assert(sh < 113u32 ==> (((v & (0xFFFF_FFFFu128 << sh)) >> sh) as u16) == (((v >> sh)
            & 0xFFFFu128) as u16)) by (bit_vector);
        let mask = 0xFFFF_FFFFu128 << sh;
        let r = ((v & mask) >> sh) as u16;
        assert(r == select_u16(v, shift));
        r
    }
}

/// An index of `n_hashes` tables; each table files a point under a random
/// `16`-bit window of its code.
pub struct Index16 {
    maps: Vec<HashMap<u16, Vec<usize>>>,
    functions: Vec<Box<Select16Bits>>,
    n_hashes: usize,
}

impl Index16 {
    /// The number of tables.
    pub closed spec fn n_hashes_view(&self) -> nat {
        self.n_hashes as nat
    }

    /// The buckets of each table.
    pub closed spec fn tables(&self) -> Seq<Map<u16, Seq<usize>>> {
        self.maps@.map_values(|m: HashMap<u16, Vec<usize>>| table_buckets(m))
    }

    /// One table and one window drawer per hash.
    pub closed spec fn wf(&self) -> bool {
        &&& self.maps@.len() == self.n_hashes
        &&& self.functions@.len() == self.n_hashes
    }

    /// An index of `n_hashes` empty tables.
    pub fn new(n_hashes: usize) -> (index: Self)
        ensures
            index.wf(),
            index.n_hashes_view() == n_hashes,
            index.tables() == Seq::new(n_hashes as nat, |t: int| Map::<u16, Seq<usize>>::empty()),
    {
        let mut functions: Vec<Box<Select16Bits>> = Vec::new();
        let mut maps: Vec<HashMap<u16, Vec<usize>>> = Vec::new();
        let mut t: usize = 0;
        while t < n_hashes
            invariant
                t <= n_hashes,
                maps@.len() == t,
                functions@.len() == t,
                forall|s: int| 0 <= s < t ==> #[trigger] table_buckets(maps@[s]) == Map::<
                    u16,
                    Seq<usize>,
                >::empty(),
            decreases n_hashes - t,
        {
            functions.push(Box::new(Select16Bits));
            let m: HashMap<u16, Vec<usize>> = HashMap::new();
            assert(table_buckets(m) =~= Map::<u16, Seq<usize>>::empty());
            maps.push(m);
            t = t + 1;
        }
        let index = Index16 { maps, functions, n_hashes };
        assert(index.tables() =~= Seq::new(
            n_hashes as nat,
            |t: int| Map::<u16, Seq<usize>>::empty(),
        ));
        index
    }

    /// Files `data_point` in every table, each under a freshly drawn window
    /// of `permutation`.
    pub fn insert(&mut self, permutation: u128, data_point: usize)
        requires
            old(self).wf(),
        ensures
            final(self).wf(),
            final(self).n_hashes_view() == old(self).n_hashes_view(),
            exists|shifts: Seq<u32>|
                #[trigger] filed_at_shifts_u16(
                    old(self).tables(),
                    final(self).tables(),
                    permutation,
                    data_point,
                    shifts,
                ),
    {
        let ghost before = self.tables();
        let ghost mut shifts: Seq<u32> = Seq::empty();
        let n = self.n_hashes;
        let mut i: usize = 0;
        while i < n
            invariant
                self.wf(),
                n == self.n_hashes,
                n == old(self).n_hashes,
                before == old(self).tables(),
                before.len() == n,
                i <= n,
                shifts.len() == i,
                shifts_below(shifts, 113u32),
                forall|t: int|
                    0 <= t < i ==> #[trigger] table_buckets(self.maps@[t]) == file_point(
                        before[t],
                        select_u16(permutation, shifts[t]),
                        data_point,
                    ),
                forall|t: int| i <= t < n ==> #[trigger] table_buckets(self.maps@[t]) == before[t],
            decreases n - i,
        {
            let hash = self.functions[i].hash(permutation);
            let ghost maps0 = self.maps@;
            let mut table: HashMap<u16, Vec<usize>> = HashMap::new();
            std::mem::swap(&mut table, &mut self.maps[i]);
            assert(table_buckets(table) == before[i as int]);
            file_in_table(&mut table, hash, data_point);
            self.maps.set(i, table);
            let ghost old_shifts = shifts;
            proof {
                let s = choose|s: u32| s < 113u32 && hash == select_u16(permutation, s);
                shifts = shifts.push(s);
            }
            assert forall|t: int| 0 <= t < i + 1 implies #[trigger] shifts[t] < 113u32 by {
                if t < i {
                    assert(shifts[t] == old_shifts[t]);
                }
            }
            assert forall|t: int| 0 <= t < i + 1 implies #[trigger] table_buckets(self.maps@[t])
                == file_point(before[t], select_u16(permutation, shifts[t]), data_point) by {
                if t < i {
                    assert(shifts[t] == old_shifts[t]);
                    assert(self.maps@[t] == maps0[t]);
                    assert(table_buckets(maps0[t]) == file_point(
                        before[t],
                        select_u16(permutation, old_shifts[t]),
                        data_point,
                    ));
                } else {
                    assert(table_buckets(self.maps@[t]) == file_point(before[t], hash, data_point));
                }
            }
            i = i + 1;
        }
        assert forall|t: int| 0 <= t < before.len() implies #[trigger] self.tables()[t]
            == file_point(before[t], select_u16(permutation, shifts[t]), data_point) by {
            assert(self.tables()[t] == table_buckets(self.maps@[t]));
        }
        assert(filed_at_shifts_u16(before, self.tables(), permutation, data_point, shifts));
    }

    /// The points filed, in each table, under a freshly drawn window of
    /// `permutation`.
    pub fn query(&mut self, permutation: u128) -> (candidates: PointSet)
        requires
            old(self).wf(),
        ensures
            *final(self) == *old(self),
            exists|shifts: Seq<u32>|
                {
                    &&& shifts.len() == old(self).tables().len()
                    &&& shifts_below(shifts, 113u32)
                    &&& point_set_contents(candidates) == union_of_buckets(
                        old(self).tables(),
                        #[trigger] windows_u16(permutation, shifts),
                        shifts.len() as int,
                    )
                },
    {
        let mut candidates = PointSet::new();
        let ghost mut shifts: Seq<u32> = Seq::empty();
        let n = self.n_hashes;
        let mut i: usize = 0;
        while i < n
            invariant
                self.wf(),
                *self == *old(self),
                n == self.n_hashes,
                i <= n,
                shifts.len() == i,
                shifts_below(shifts, 113u32),
                point_set_contents(candidates) == union_of_buckets(
                    self.tables(),
                    windows_u16(permutation, shifts),
                    i as int,
                ),
            decreases n - i,
        {
            let hash = self.functions[i].hash(permutation);
            let ghost old_shifts = shifts;
            collect_bucket(&self.maps[i], &hash, &mut candidates);
            proof {
                let s = choose|s: u32| s < 113u32 && hash == select_u16(permutation, s);
                shifts = shifts.push(s);
                assert forall|t: int| 0 <= t < i + 1 implies #[trigger] shifts[t] < 113u32 by {
                    if t < i {
                        assert(shifts[t] == old_shifts[t]);
                    }
                }
                let ws = windows_u16(permutation, shifts);
                let old_ws = windows_u16(permutation, old_shifts);
                assert forall|t: int| 0 <= t < i implies old_ws[t] == ws[t] by {
                    assert(shifts[t] == old_shifts[t]);
                }
                lemma_union_of_buckets_prefix(self.tables(), old_ws, ws, i as int);
                assert(self.tables()[i as int] == table_buckets(self.maps@[i as int]));
                assert(ws[i as int] == hash);
            }
            i = i + 1;
        }
        candidates
    }
}

/// The `32`-bit window of `v` that starts at bit `shift`.
pub open spec fn select_u64(v: u128, shift: u32) -> u64 {
    ((v >> (shift as u128)) & 0xFFFF_FFFFu128) as u64
}

/// The windows of `code` that start at the given shifts.
pub open spec fn windows_u64(code: u128, shifts: Seq<u32>) -> Seq<u64> {
    Seq::new(shifts.len(), |t: int| select_u64(code, shifts[t]))
}

/// `after` is `before` with `point` filed, in table `t`, under the window
/// of `code` at `shifts[t]`, each shift below 65.
pub open spec fn filed_at_shifts_u64(
    before: Seq<Map<u64, Seq<usize>>>,
    after: Seq<Map<u64, Seq<usize>>>,
    code: u128,
    point: usize,
    shifts: Seq<u32>,
) -> bool {
    &&& shifts.len() == before.len()
    &&& after.len() == before.len()
    &&& shifts_below(shifts, 65u32)
    &&& forall|t: int|
        0 <= t < before.len() ==> #[trigger] after[t] == file_point(
            before[t],
            select_u64(code, shifts[t]),
            point,
        )
}

/// Draws a window of `32` bits of a code at a random position below
/// 65.
pub struct Select64Bits;

impl Select64Bits {
    /// The window of `32` bits of `v` that starts at a random bit below
    /// 65.
    pub fn hash(&self, v: u128) -> (r: u64)
        ensures
            exists|s: u32| s < 65u32 && r == select_u64(v, s),
    {
        let mut rng = thread_rng();
        let shift = gen_below(&mut rng, 65u32);
        let sh = shift as u128;
        assert(sh < 65u32 ==> (((v & (0xFFFF_FFFFu128 << sh)) >> sh) as u64) == (((v >> sh)
            & 0xFFFF_FFFFu128) as u64)) by (bit_vector);
        let mask = 0xFFFF_FFFFu128 << sh;
        let r = ((v & mask) >> sh) as u64;
        assert(r == select_u64(v, shift));
        r
    }
}

/// An index of `n_hashes` tables; each table files a point under a random
/// `32`-bit window of its code.
pub struct Index64 {
    maps: Vec<HashMap<u64, Vec<usize>>>,
    functions: Vec<Box<Select64Bits>>,
    n_hashes: usize,
}

impl Index64 {
    /// The number of tables.
    pub closed spec fn n_hashes_view(&self) -> nat {
        self.n_hashes as nat
    }

    /// The buckets of each table.
    pub closed spec fn tables(&self) -> Seq<Map<u64, Seq<usize>>> {
        self.maps@.map_values(|m: HashMap<u64, Vec<usize>>| table_buckets(m))
    }

    /// One table and one window drawer per hash.
    pub closed spec fn wf(&self) -> bool {
        &&& self.maps@.len() == self.n_hashes
        &&& self.functions@.len() == self.n_hashes
    }

    /// An index of `n_hashes` empty tables.
    pub fn new(n_hashes: usize) -> (index: Self)
        ensures
            index.wf(),
            index.n_hashes_view() == n_hashes,
            index.tables() == Seq::new(n_hashes as nat, |t: int| Map::<u64, Seq<usize>>::empty()),
    {
        let mut functions: Vec<Box<Select64Bits>> = Vec::new();
        let mut maps: Vec<HashMap<u64, Vec<usize>>> = Vec::new();
        let mut t: usize = 0;
        while t < n_hashes
            invariant
                t <= n_hashes,
                maps@.len() == t,
                functions@.len() == t,
                forall|s: int| 0 <= s < t ==> #[trigger] table_buckets(maps@[s]) == Map::<
                    u64,
                    Seq<usize>,
                >::empty(),
            decreases n_hashes - t,
        {
            functions.push(Box::new(Select64Bits));
            let m: HashMap<u64, Vec<usize>> = HashMap::new();
            assert(table_buckets(m) =~= Map::<u64, Seq<usize>>::empty());
            maps.push(m);
            t = t + 1;
        }
        let index = Index64 { maps, functions, n_hashes };
        assert(index.tables() =~= Seq::new(
            n_hashes as nat,
            |t: int| Map::<u64, Seq<usize>>::empty(),
        ));
        index
    }

    /// Files `data_point` in every table, each under a freshly drawn window
    /// of `permutation`.
    pub fn insert(&mut self, permutation: u128, data_point: usize)
        requires
            old(self).wf(),
        ensures
            final(self).wf(),
            final(self).n_hashes_view() == old(self).n_hashes_view(),
            exists|shifts: Seq<u32>|
                #[trigger] filed_at_shifts_u64(
                    old(self).tables(),
                    final(self).tables(),
                    permutation,
                    data_point,
                    shifts,
                ),
    {
        let ghost before = self.tables();
        let ghost mut shifts: Seq<u32> = Seq::empty();
        let n = self.n_hashes;
        let mut i: usize = 0;
        while i < n
            invariant
                self.wf(),
                n == self.n_hashes,
                n == old(self).n_hashes,
                before == old(self).tables(),
                before.len() == n,
                i <= n,
                shifts.len() == i,
                shifts_below(shifts, 65u32),
                forall|t: int|
                    0 <= t < i ==> #[trigger] table_buckets(self.maps@[t]) == file_point(
                        before[t],
                        select_u64(permutation, shifts[t]),
                        data_point,
                    ),
                forall|t: int| i <= t < n ==> #[trigger] table_buckets(self.maps@[t]) == before[t],
            decreases n - i,
        {
            let hash = self.functions[i].hash(permutation);
            let ghost maps0 = self.maps@;
            let mut table: HashMap<u64, Vec<usize>> = HashMap::new();
            std::mem::swap(&mut table, &mut self.maps[i]);
            assert(table_buckets(table) == before[i as int]);
            file_in_table(&mut table, hash, data_point);
            self.maps.set(i, table);
            let ghost old_shifts = shifts;
            proof {
                let s = choose|s: u32| s < 65u32 && hash == select_u64(permutation, s);
                shifts = shifts.push(s);
            }
            assert forall|t: int| 0 <= t < i + 1 implies #[trigger] shifts[t] < 65u32 by {
                if t < i {
                    assert(shifts[t] == old_shifts[t]);
                }
            }
            assert forall|t: int| 0 <= t < i + 1 implies #[trigger] table_buckets(self.maps@[t])
                == file_point(before[t], select_u64(permutation, shifts[t]), data_point) by {
                if t < i {
                    assert(shifts[t] == old_shifts[t]);
                    assert(self.maps@[t] == maps0[t]);
                    assert(table_buckets(maps0[t]) == file_point(
                        before[t],
                        select_u64(permutation, old_shifts[t]),
                        data_point,
                    ));
                } else {
                    assert(table_buckets(self.maps@[t]) == file_point(before[t], hash, data_point));
                }
            }
            i = i + 1;
        }
        assert forall|t: int| 0 <= t < before.len() implies #[trigger] self.tables()[t]
            == file_point(before[t], select_u64(permutation, shifts[t]), data_point) by {
            assert(self.tables()[t] == table_buckets(self.maps@[t]));
        }
        assert(filed_at_shifts_u64(before, self.tables(), permutation, data_point, shifts));
    }

    /// The points filed, in each table, under a freshly drawn window of
    /// `permutation`.
    pub fn query(&mut self, permutation: u128) -> (candidates: PointSet)
        requires
            old(self).wf(),
        ensures
            *final(self) == *old(self),
            exists|shifts: Seq<u32>|
                {
                    &&& shifts.len() == old(self).tables().len()
                    &&& shifts_below(shifts, 65u32)
                    &&& point_set_contents(candidates) == union_of_buckets(
                        old(self).tables(),
                        #[trigger] windows_u64(permutation, shifts),
                        shifts.len() as int,
                    )
                },
    {
        let mut candidates = PointSet::new();
        let ghost mut shifts: Seq<u32> = Seq::empty();
        let n = self.n_hashes;
        let mut i: usize = 0;
        while i < n
            invariant
                self.wf(),
                *self == *old(self),
                n == self.n_hashes,
                i <= n,
                shifts.len() == i,
                shifts_below(shifts, 65u32),
                point_set_contents(candidates) == union_of_buckets(
                    self.tables(),
                    windows_u64(permutation, shifts),
                    i as int,
                ),
            decreases n - i,
        {
            let hash = self.functions[i].hash(permutation);
            let ghost old_shifts = shifts;
            collect_bucket(&self.maps[i], &hash, &mut candidates);
            proof {
                let s = choose|s: u32| s < 65u32 && hash == select_u64(permutation, s);
                shifts = shifts.push(s);
                assert forall|t: int| 0 <= t < i + 1 implies #[trigger] shifts[t] < 65u32 by {
                    if t < i {
                        assert(shifts[t] == old_shifts[t]);
                    }
                }
                let ws = windows_u64(permutation, shifts);
                let old_ws = windows_u64(permutation, old_shifts);
                assert forall|t: int| 0 <= t < i implies old_ws[t] == ws[t] by {
                    assert(shifts[t] == old_shifts[t]);
                }
                lemma_union_of_buckets_prefix(self.tables(), old_ws, ws, i as int);
                assert(self.tables()[i as int] == table_buckets(self.maps@[i as int]));
                assert(ws[i as int] == hash);
            }
            i = i + 1;
        }
        candidates
    }
}

} // verus!
