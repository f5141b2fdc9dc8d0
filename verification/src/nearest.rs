//! Choosing the `k` best candidates by score, best first.
use vstd::prelude::*;

verus! {

/// `pos` picks positions of `indices`, and `chosen` holds the indices found
/// there: `min(k, n)` distinct positions, in order of non-increasing score,
/// none of them scored below a position left out.
pub open spec fn is_best_choice(
    indices: Seq<usize>,
    scores: Seq<u64>,
    k: int,
    pos: Seq<int>,
    chosen: Seq<usize>,
) -> bool {
    &&& chosen.len() == pos.len()
    &&& pos.len() == if k < indices.len() {
        k
    } else {
        indices.len() as int
    }
    &&& forall|p: int| 0 <= p < pos.len() ==> 0 <= #[trigger] pos[p] < indices.len()
    &&& forall|p: int| 0 <= p < pos.len() ==> #[trigger] chosen[p] == indices[pos[p]]
    &&& forall|p: int, q: int|
        #![trigger pos[p], pos[q]]
        0 <= p < q < pos.len() ==> pos[p] != pos[q] && scores[pos[p]] >= scores[pos[q]]
    &&& forall|u: int, p: int|
        #![trigger pos.contains(u), pos[p]]
        0 <= u < indices.len() && !pos.contains(u) && 0 <= p < pos.len() ==> scores[u]
            <= scores[pos[p]]
}

/// The positions held in `sel`, as integers.
spec fn positions(sel: Seq<usize>) -> Seq<int> {
    sel.map_values(|x: usize| x as int)
}

/// Inserts position `t` into `sel`, which is ordered by non-increasing
/// score, after every position of equal or higher score.
fn insert_by_score(sel: &mut Vec<usize>, scores: &[u64], t: usize)
    requires
        t < scores@.len(),
        forall|p: int| 0 <= p < old(sel)@.len() ==> #[trigger] old(sel)@[p] < scores@.len(),
        forall|p: int, q: int|
            #![trigger old(sel)@[p], old(sel)@[q]]
            0 <= p < q < old(sel)@.len() ==> scores@[old(sel)@[p] as int]
                >= scores@[old(sel)@[q] as int],
    ensures
        exists|at: int|
            0 <= at <= old(sel)@.len() && final(sel)@ == old(sel)@.insert(at, t),
        forall|p: int, q: int|
            #![trigger final(sel)@[p], final(sel)@[q]]
            0 <= p < q < final(sel)@.len() ==> scores@[final(sel)@[p] as int]
                >= scores@[final(sel)@[q] as int],
{
    let ghost before = sel@;
    let mut at: usize = 0;
    while at < sel.len() && scores[sel[at]] >= scores[t]
        invariant
            sel@ == before,
            t < scores@.len(),
            at <= sel@.len(),
            forall|p: int| 0 <= p < sel@.len() ==> #[trigger] sel@[p] < scores@.len(),
            forall|p: int| 0 <= p < at ==> scores@[#[trigger] sel@[p] as int] >= scores@[t as int],
        decreases sel@.len() - at,
    {
        at = at + 1;
    }
    proof {
        before.insert_ensures(at as int, t);
        assert forall|q: int| at <= q < before.len() implies scores@[before[q] as int]
            < scores@[t as int] by {
            assert(scores@[before[at as int] as int] < scores@[t as int]);
            if q > at {
                assert(scores@[before[at as int] as int] >= scores@[before[q] as int]);
            }
        }
    }
    sel.insert(at, t);
    proof {
        let after = sel@;
        assert forall|p: int, q: int|
            #![trigger after[p], after[q]]
            0 <= p < q < after.len() implies scores@[after[p] as int] >= scores@[after[q] as int] by {
            if q < at {
                assert(after[p] == before[p] && after[q] == before[q]);
            } else if q == at {
                assert(after[p] == before[p]);
            } else if p < at {
                assert(after[p] == before[p] && after[q] == before[q - 1]);
                assert(scores@[before[p] as int] >= scores@[t as int]);
            } else if p == at {
                assert(after[q] == before[q - 1]);
            } else {
                assert(after[p] == before[p - 1] && after[q] == before[q - 1]);
            }
        }
    }
}

/// The `k` candidates of highest score, best first. `indices[t]` is a
/// candidate and `scores[t]` its score. A candidate replaces the worst one
/// kept only when its score is strictly higher, so of candidates with equal
/// scores the earlier stay. With candidates, `k` must be positive.
pub fn k_best_by_score(indices: &[usize], scores: &[u64], k: usize) -> (chosen: Vec<usize>)
    requires
        indices@.len() == scores@.len(),
        k > 0 || indices@.len() == 0,
    ensures
        exists|pos: Seq<int>| is_best_choice(indices@, scores@, k as int, pos, chosen@),
{
    let n = indices.len();
    let mut sel: Vec<usize> = Vec::new();
    let mut t: usize = 0;
    while t < n
        invariant
            n == indices@.len(),
            n == scores@.len(),
            k > 0 || n == 0,
            t <= n,
            sel@.len() == if k < t {
                k as int
            } else {
                t as int
            },
            forall|p: int| 0 <= p < sel@.len() ==> #[trigger] sel@[p] < t,
            forall|p: int, q: int|
                #![trigger sel@[p], sel@[q]]
                0 <= p < q < sel@.len() ==> sel@[p] != sel@[q] && scores@[sel@[p] as int]
                    >= scores@[sel@[q] as int],
            forall|u: int, p: int|
                #![trigger sel@.contains(u as usize), sel@[p]]
                0 <= u < t && !sel@.contains(u as usize) && 0 <= p < sel@.len() ==> scores@[u]
                    <= scores@[sel@[p] as int],
            sel@.len() < k ==> forall|u: int| 0 <= u < t ==> #[trigger] sel@.contains(u as usize),
        decreases n - t,
    {
        let ghost before = sel@;
        if sel.len() < k {
            insert_by_score(&mut sel, scores, t);
            proof {
                let at = choose|at: int| 0 <= at <= before.len() && sel@ == before.insert(at, t);
                before.insert_ensures(at, t);
                lemma_insert_keeps(before, at, t, scores@, t as int + 1);
                assert forall|u: int, p: int|
                    #![trigger sel@.contains(u as usize), sel@[p]]
                    0 <= u < t + 1 && !sel@.contains(u as usize) && 0 <= p < sel@.len() implies scores@[u]
                        <= scores@[sel@[p] as int] by {
                    if u < t {
                        assert(before.contains(u as usize));
                        let w = choose|w: int| 0 <= w < before.len() && before[w] == u as usize;
                        if w < at {
                            assert(sel@[w] == before[w]);
                        } else {
                            assert(sel@[w + 1] == before[w]);
                        }
                        assert(sel@.contains(u as usize));
                    } else {
                        assert(sel@[at] == t);
                    }
                }
                if sel@.len() < k {
                    assert forall|u: int| 0 <= u < t + 1 implies #[trigger] sel@.contains(u as usize) by {
                        if u < t {
                            assert(before.contains(u as usize));
                            let w = choose|w: int| 0 <= w < before.len() && before[w] == u as usize;
                            if w < at {
                                assert(sel@[w] == before[w]);
                            } else {
                                assert(sel@[w + 1] == before[w]);
                            }
                        } else {
                            assert(sel@[at] == t);
                        }
                    }
                }
            }
        } else {
            let last = sel[sel.len() - 1];
            if scores[t] > scores[last] {
                sel.pop();
                let ghost kept = sel@;
                assert(kept =~= before.drop_last());
                insert_by_score(&mut sel, scores, t);
                proof {
                    let at = choose|at: int| 0 <= at <= kept.len() && sel@ == kept.insert(at, t);
                    kept.insert_ensures(at, t);
                    lemma_insert_keeps(kept, at, t, scores@, t as int + 1);
                    assert forall|u: int, p: int|
                        #![trigger sel@.contains(u as usize), sel@[p]]
                        0 <= u < t + 1 && !sel@.contains(u as usize) && 0 <= p < sel@.len() implies scores@[u]
                            <= scores@[sel@[p] as int] by {
                        let e = sel@[p];
                        if u == t {
                            assert(sel@[at] == t);
                        }
                        if kept.contains(u as usize) {
                            let w = choose|w: int| 0 <= w < kept.len() && kept[w] == u as usize;
                            if w < at {
                                assert(sel@[w] == kept[w]);
                            } else {
                                assert(sel@[w + 1] == kept[w]);
                            }
                        }
                        // `u` was left out before, or it is the one just dropped.
                        if u as usize == last {
                            assert(before[before.len() - 1] == last);
                        } else {
                            assert(!before.contains(u as usize)) by {
                                if before.contains(u as usize) {
                                    let w = choose|w: int| 0 <= w < before.len() && before[w] == u as usize;
                                    if w < before.len() - 1 {
                                        assert(kept[w] == u as usize);
                                    }
                                }
                            }
                            assert(scores@[u] <= scores@[last as int]) by {
                                assert(before.len() >= 1);
                                assert(before[before.len() - 1] == last);
                            }
                        }
                        if p == at {
                        } else if p < at {
                            assert(sel@[p] == kept[p]);
                            assert(before[p] == kept[p]);
                            assert(scores@[before[p] as int] >= scores@[last as int]) by {
                                if p < before.len() - 1 {
                                    assert(before[before.len() - 1] == last);
                                }
                            }
                        } else {
                            assert(sel@[p] == kept[p - 1]);
                            assert(before[p - 1] == kept[p - 1]);
                            assert(scores@[before[p - 1] as int] >= scores@[last as int]) by {
                                if p - 1 < before.len() - 1 {
                                    assert(before[before.len() - 1] == last);
                                }
                            }
                        }
                    }
                }
            } else {
                proof {
                    assert forall|u: int, p: int|
                        #![trigger sel@.contains(u as usize), sel@[p]]
                        0 <= u < t + 1 && !sel@.contains(u as usize) && 0 <= p < sel@.len() implies scores@[u]
                            <= scores@[sel@[p] as int] by {
                        if u == t {
                            assert(sel@[sel@.len() - 1] == last);
                            if p < sel@.len() - 1 {
                                assert(scores@[sel@[p] as int] >= scores@[last as int]);
                            }
                        }
                    }
                }
            }
        }
        t = t + 1;
    }
    let mut chosen: Vec<usize> = Vec::new();
    let mut p: usize = 0;
    while p < sel.len()
        invariant
            n == indices@.len(),
            p <= sel@.len(),
            forall|q: int| 0 <= q < sel@.len() ==> #[trigger] sel@[q] < n,
            chosen@.len() == p,
            forall|q: int| 0 <= q < p ==> #[trigger] chosen@[q] == indices@[sel@[q] as int],
        decreases sel@.len() - p,
    {
        chosen.push(indices[sel[p]]);
        p = p + 1;
    }
    proof {
        let pos = positions(sel@);
        assert forall|u: int| 0 <= u < n implies (pos.contains(u) <==> sel@.contains(u as usize)) by {
            if pos.contains(u) {
                let w = choose|w: int| 0 <= w < pos.len() && pos[w] == u;
                assert(sel@[w] == u as usize);
            }
            if sel@.contains(u as usize) {
                let w = choose|w: int| 0 <= w < sel@.len() && sel@[w] == u as usize;
                assert(pos[w] == u);
            }
        }
        assert(is_best_choice(indices@, scores@, k as int, pos, chosen@));
    }
    chosen
}

/// After inserting `t`, below `bound`, into a list of distinct positions
/// below `bound - 1`, the positions stay distinct and below `bound`.
proof fn lemma_insert_keeps(before: Seq<usize>, at: int, t: usize, scores: Seq<u64>, bound: int)
    requires
        0 <= at <= before.len(),
        t as int == bound - 1,
        forall|p: int| 0 <= p < before.len() ==> #[trigger] before[p] < t,
        forall|p: int, q: int|
            #![trigger before[p], before[q]]
            0 <= p < q < before.len() ==> before[p] != before[q],
    ensures
        forall|p: int| 0 <= p < before.len() + 1 ==> #[trigger] before.insert(at, t)[p] < bound,
        forall|p: int, q: int|
            #![trigger before.insert(at, t)[p], before.insert(at, t)[q]]
            0 <= p < q < before.len() + 1 ==> before.insert(at, t)[p] != before.insert(at, t)[q],
{
    before.insert_ensures(at, t);
    let after = before.insert(at, t);
    assert forall|p: int| 0 <= p < before.len() + 1 implies #[trigger] after[p] < bound by {
        if p < at {
            assert(after[p] == before[p]);
        } else if p > at {
            assert(after[p] == before[p - 1]);
        }
    }
    assert forall|p: int, q: int|
        #![trigger after[p], after[q]]
        0 <= p < q < before.len() + 1 implies after[p] != after[q] by {
        if q < at {
            assert(after[p] == before[p] && after[q] == before[q]);
        } else if q == at {
            assert(after[p] == before[p]);
        } else if p < at {
            assert(after[p] == before[p] && after[q] == before[q - 1]);
        } else if p == at {
            assert(after[q] == before[q - 1]);
        } else {
            assert(after[p] == before[p - 1] && after[q] == before[q - 1]);
        }
    }
}

} // verus!
