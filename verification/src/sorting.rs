//! The order of positions that sorts a vector of keys.
use vstd::prelude::*;

verus! {

/// `order` lists every position of `keys` once, by non-decreasing key.
pub open spec fn is_argsort(keys: Seq<u64>, order: Seq<usize>) -> bool {
    &&& order.len() == keys.len()
    &&& forall|i: int| 0 <= i < order.len() ==> #[trigger] order[i] < keys.len()
    &&& forall|i: int, j: int|
        #![trigger order[i], order[j]]
        0 <= i < j < order.len() ==> order[i] != order[j] && keys[order[i] as int]
            <= keys[order[j] as int]
}

/// Inserts position `t` into `order`, which is sorted by non-decreasing key,
/// after every position of equal or lower key.
fn insert_by_key(order: &mut Vec<usize>, keys: &[u64], t: usize)
    requires
        t < keys@.len(),
        forall|p: int| 0 <= p < old(order)@.len() ==> #[trigger] old(order)@[p] < keys@.len(),
        forall|p: int, q: int|
            #![trigger old(order)@[p], old(order)@[q]]
            0 <= p < q < old(order)@.len() ==> keys@[old(order)@[p] as int]
                <= keys@[old(order)@[q] as int],
    ensures
        exists|at: int| 0 <= at <= old(order)@.len() && final(order)@ == old(order)@.insert(at, t),
        forall|p: int, q: int|
            #![trigger final(order)@[p], final(order)@[q]]
            0 <= p < q < final(order)@.len() ==> keys@[final(order)@[p] as int]
                <= keys@[final(order)@[q] as int],
{
    let ghost before = order@;
    let mut at: usize = 0;
    while at < order.len() && keys[order[at]] <= keys[t]
        invariant
            order@ == before,
            t < keys@.len(),
            at <= order@.len(),
            forall|p: int| 0 <= p < order@.len() ==> #[trigger] order@[p] < keys@.len(),
            forall|p: int| 0 <= p < at ==> keys@[#[trigger] order@[p] as int] <= keys@[t as int],
        decreases order@.len() - at,
    {
        at = at + 1;
    }
    proof {
        before.insert_ensures(at as int, t);
        assert forall|q: int| at <= q < before.len() implies keys@[before[q] as int]
            > keys@[t as int] by {
            assert(keys@[before[at as int] as int] > keys@[t as int]);
            if q > at {
                assert(keys@[before[at as int] as int] <= keys@[before[q] as int]);
            }
        }
    }
    order.insert(at, t);
    proof {
        let after = order@;
        assert forall|p: int, q: int|
            #![trigger after[p], after[q]]
            0 <= p < q < after.len() implies keys@[after[p] as int] <= keys@[after[q] as int] by {
            if q < at {
                assert(after[p] == before[p] && after[q] == before[q]);
            } else if q == at {
                assert(after[p] == before[p]);
            } else if p < at {
                assert(after[p] == before[p] && after[q] == before[q - 1]);
                assert(keys@[before[p] as int] <= keys@[t as int]);
            } else if p == at {
                assert(after[q] == before[q - 1]);
            } else {
                assert(after[p] == before[p - 1] && after[q] == before[q - 1]);
            }
        }
    }
}

/// The positions of `keys` in the order that sorts the keys: every position
/// once, by non-decreasing key.
pub fn argsort(keys: &[u64]) -> (order: Vec<usize>)
    ensures
        is_argsort(keys@, order@),
{
    let n = keys.len();
    let mut order: Vec<usize> = Vec::new();
    let mut t: usize = 0;
    while t < n
        invariant
            n == keys@.len(),
            t <= n,
            order@.len() == t,
            forall|p: int| 0 <= p < order@.len() ==> #[trigger] order@[p] < t,
            forall|p: int, q: int|
                #![trigger order@[p], order@[q]]
                0 <= p < q < order@.len() ==> order@[p] != order@[q] && keys@[order@[p] as int]
                    <= keys@[order@[q] as int],
        decreases n - t,
    {
        let ghost before = order@;
        insert_by_key(&mut order, keys, t);
        proof {
            let at = choose|at: int| 0 <= at <= before.len() && order@ == before.insert(at, t);
            before.insert_ensures(at, t);
            let after = order@;
            assert forall|p: int| 0 <= p < after.len() implies #[trigger] after[p] < t + 1 by {
                if p < at {
                    assert(after[p] == before[p]);
                } else if p > at {
                    assert(after[p] == before[p - 1]);
                }
            }
            assert forall|p: int, q: int|
                #![trigger after[p], after[q]]
                0 <= p < q < after.len() implies after[p] != after[q] by {
                if q < at {
                    assert(after[p] == before[p] && after[q] == before[q]);
                } else if q == at {
                    assert(after[p] == before[p]);
                } else if p < at {
                    assert(after[p] == before[p] && after[q] == before[q - 1]);
                } else if p == at {
                    assert(after[q] == before[q - 1]);
                } else {
                    assert(after[p] == before[p - 1] && after[q] == before[q - 1]);
                }
            }
        }
        t = t + 1;
    }
    order
}

} // verus!
