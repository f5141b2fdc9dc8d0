//! Hash tables that file data points in buckets, one bucket per key.
use vstd::prelude::*;
use std::collections::HashMap;
use std::hash::Hash;
use crate::point_set::{PointSet, point_set_contents};

verus! {

broadcast use vstd::std_specs::hash::group_hash_axioms;

/// The buckets after filing `point` under `key`: appended to the key's
/// bucket, or a new bucket holding only `point`.
pub open spec fn file_point<K>(buckets: Map<K, Seq<usize>>, key: K, point: usize) -> Map<
    K,
    Seq<usize>,
> {
    if buckets.contains_key(key) {
        buckets.insert(key, buckets[key].push(point))
    } else {
        buckets.insert(key, seq![point])
    }
}

/// The sets after adding `value` to the set of `key`: into the key's set,
/// or a new set holding only `value`.
pub open spec fn file_value<K>(sets: Map<K, Set<usize>>, key: K, value: usize) -> Map<
    K,
    Set<usize>,
> {
    if sets.contains_key(key) {
        sets.insert(key, sets[key].insert(value))
    } else {
        sets.insert(key, Set::empty().insert(value))
    }
}

/// A value added under a key is held under that key afterwards, beside the
/// values held there before; every other key keeps its set.
pub proof fn law_filed_value_is_held<K>(sets: Map<K, Set<usize>>, key: K, value: usize, other: K)
    ensures
        file_value(sets, key, value).contains_key(key),
        file_value(sets, key, value)[key].contains(value),
        sets.contains_key(key) ==> sets[key].subset_of(file_value(sets, key, value)[key]),
        other != key ==> file_value(sets, key, value).contains_key(other) == sets.contains_key(
            other,
        ),
        other != key && sets.contains_key(other) ==> file_value(sets, key, value)[other]
            == sets[other],
{
}

/// The points of the bucket of `key`, or none when there is no such bucket.
pub open spec fn bucket_set<K>(buckets: Map<K, Seq<usize>>, key: K) -> Set<usize> {
    if buckets.contains_key(key) {
        buckets[key].to_set()
    } else {
        Set::empty()
    }
}

/// The buckets after filing the points of `ops` in order, `ops[t] = (key,
/// point)`, starting from `buckets`.
pub open spec fn file_all<K>(buckets: Map<K, Seq<usize>>, ops: Seq<(K, usize)>) -> Map<
    K,
    Seq<usize>,
>
    decreases ops.len(),
{
    if ops.len() == 0 {
        buckets
    } else {
        file_point(file_all(buckets, ops.drop_last()), ops.last().0, ops.last().1)
    }
}

/// The points that `ops` files under `key`.
pub open spec fn filed_under<K>(ops: Seq<(K, usize)>, key: K) -> Set<usize> {
    Set::new(|d: usize| exists|t: int| 0 <= t < ops.len() && ops[t] == (key, d))
}

/// After filing a sequence of points from empty tables, a lookup of a key
/// finds exactly the points filed under that key.
pub proof fn law_lookup_after_filings<K>(ops: Seq<(K, usize)>, key: K)
    ensures
        bucket_set(file_all(Map::empty(), ops), key) == filed_under(ops, key),
    decreases ops.len(),
{
    if ops.len() == 0 {
        assert(bucket_set(file_all(Map::<K, Seq<usize>>::empty(), ops), key) =~= filed_under(ops, key));
    } else {
        let pre = ops.drop_last();
        let (k, d) = ops.last();
        law_lookup_after_filings(pre, key);
        let before = file_all(Map::<K, Seq<usize>>::empty(), pre);
        let want = filed_under(ops, key);
        if k == key {
            law_filed_point_is_found(before, key, d);
            assert forall|x: usize| want.contains(x) <==> filed_under(pre, key).insert(d).contains(x) by {
                if want.contains(x) {
                    let t = choose|t: int| 0 <= t < ops.len() && ops[t] == (key, x);
                    if t < ops.len() - 1 {
                        assert(pre[t] == ops[t]);
                    }
                }
                if filed_under(pre, key).contains(x) {
                    let t = choose|t: int| 0 <= t < pre.len() && pre[t] == (key, x);
                    assert(ops[t] == pre[t]);
                }
                if x == d {
                    assert(ops[ops.len() - 1] == (key, x));
                }
            }
            assert(want =~= filed_under(pre, key).insert(d));
        } else {
            law_filing_leaves_other_keys(before, k, d, key);
            assert forall|x: usize| want.contains(x) <==> filed_under(pre, key).contains(x) by {
                if want.contains(x) {
                    let t = choose|t: int| 0 <= t < ops.len() && ops[t] == (key, x);
                    if t < ops.len() - 1 {
                        assert(pre[t] == ops[t]);
                    } else {
                        assert(ops[t] == (k, d));
                    }
                }
                if filed_under(pre, key).contains(x) {
                    let t = choose|t: int| 0 <= t < pre.len() && pre[t] == (key, x);
                    assert(ops[t] == pre[t]);
                }
            }
            assert(want =~= filed_under(pre, key));
        }
    }
}

/// The buckets of a table, each bucket as the sequence of its points.
pub open spec fn table_buckets<K>(m: HashMap<K, Vec<usize>>) -> Map<K, Seq<usize>> {
    m@.map_values(|v: Vec<usize>| v@)
}

/// A point filed under a key is found under that key afterwards, after the
/// points filed there before it.
pub proof fn law_filed_point_is_found<K>(buckets: Map<K, Seq<usize>>, key: K, point: usize)
    ensures
        file_point(buckets, key, point).contains_key(key),
        file_point(buckets, key, point)[key].last() == point,
        bucket_set(file_point(buckets, key, point), key) == bucket_set(buckets, key).insert(point),
        buckets.contains_key(key) ==> file_point(buckets, key, point)[key].drop_last()
            == buckets[key],
{
    let s = file_point(buckets, key, point)[key];
    assert(s[s.len() - 1] == point);
    if buckets.contains_key(key) {
        assert(s.drop_last() =~= buckets[key]);
        lemma_push_to_set(buckets[key], point);
    } else {
        lemma_push_to_set(Seq::<usize>::empty(), point);
        assert(Seq::<usize>::empty().push(point) =~= seq![point]);
        assert(Seq::<usize>::empty().to_set() =~= Set::<usize>::empty());
    }
}

/// Filing a point under one key leaves the buckets of every other key as
/// they were.
pub proof fn law_filing_leaves_other_keys<K>(
    buckets: Map<K, Seq<usize>>,
    key: K,
    point: usize,
    other: K,
)
    requires
        other != key,
    ensures
        file_point(buckets, key, point).contains_key(other) == buckets.contains_key(other),
        buckets.contains_key(other) ==> file_point(buckets, key, point)[other] == buckets[other],
{
}

pub(crate) proof fn lemma_push_to_set(s: Seq<usize>, x: usize)
    ensures
        s.push(x).to_set() == s.to_set().insert(x),
{
    assert forall|y: usize| #[trigger] s.push(x).contains(y) <==> s.contains(y) || y == x by {
        if y == x {
            assert(s.push(x)[s.len() as int] == y);
        }
        if s.contains(y) {
            let w = choose|w: int| 0 <= w < s.len() && s[w] == y;
            assert(s.push(x)[w] == y);
        }
    }
    assert(s.push(x).to_set() =~= s.to_set().insert(x));
}

/// Files `point` under `key` in `table`.
pub fn file_in_table<K: Eq + Hash>(table: &mut HashMap<K, Vec<usize>>, key: K, point: usize)
    requires
        vstd::std_specs::hash::obeys_key_model::<K>(),
    ensures
        table_buckets(*final(table)) == file_point(table_buckets(*old(table)), key, point),
{
    let ghost before = table_buckets(*table);
    let bucket = match table.remove(&key) {
        Some(mut points) => {
            points.push(point);
            points
        },
        None => {
            let mut points: Vec<usize> = Vec::new();
            points.push(point);
            points
        },
    };
    table.insert(key, bucket);
    assert(table_buckets(*table) =~= file_point(before, key, point));
}

/// Adds the points of the bucket of `key` in `table` to `candidates`.
pub fn collect_bucket<K: Eq + Hash>(table: &HashMap<K, Vec<usize>>, key: &K, candidates: &mut PointSet)
    requires
        vstd::std_specs::hash::obeys_key_model::<K>(),
    ensures
        point_set_contents(*final(candidates)) == point_set_contents(*old(candidates)).union(
            bucket_set(table_buckets(*table), *key),
        ),
{
    let ghost start = point_set_contents(*candidates);
    match table.get(key) {
        Some(points) => {
            let mut q: usize = 0;
            while q < points.len()
                invariant
                    q <= points@.len(),
                    point_set_contents(*candidates) == start.union(points@.take(q as int).to_set()),
                decreases points@.len() - q,
            {
                candidates.insert(points[q]);
                proof {
                    let pre = points@.take(q as int);
                    assert(points@.take(q + 1) =~= pre.push(points@[q as int]));
                    lemma_push_to_set(pre, points@[q as int]);
                    assert(point_set_contents(*candidates) =~= start.union(
                        points@.take(q + 1).to_set(),
                    ));
                }
                q = q + 1;
            }
            assert(points@.take(points@.len() as int) =~= points@);
        },
        None => {
            assert(start.union(Set::<usize>::empty()) =~= start);
        },
    }
}

} // verus!
