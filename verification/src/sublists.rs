//! Ways of forming, for every position of a list, the list without it;
//! they compute the lists and drop them, and change nothing.
use vstd::prelude::*;

verus! {

/// For every position `i`, copies the list and removes entry `i`.
pub fn remove_and_print_v1(lst: &[u8], elem: u8) {
    let mut i: usize = 0;
    while i < lst.len()
        invariant
            i <= lst@.len(),
        decreases lst@.len() - i,
    {
        let mut copy = vstd::slice::slice_to_vec(lst);
        let removed = copy.remove(i);
        assert(copy@ == lst@.remove(i as int));
        assert(removed == lst@[i as int]);
        i += 1;
    }
}

/// The entries of `s` at positions other than `i`.
pub open spec fn without_position(s: Seq<u8>, i: int) -> Seq<u8>
    decreases s.len(),
{
    if s.len() == 0 {
        s
    } else if s.len() - 1 == i {
        s.drop_last()
    } else {
        without_position(s.drop_last(), i).push(s.last())
    }
}

/// For every position `i`, collects the entries at the other positions.
pub fn remove_and_print_v2(lst: &[u8]) {
    let mut i: usize = 0;
    while i < lst.len()
        invariant
            i <= lst@.len(),
        decreases lst@.len() - i,
    {
        let mut copy: Vec<u8> = Vec::new();
        let mut j: usize = 0;
        while j < lst.len()
            invariant
                i < lst@.len(),
                j <= lst@.len(),
                copy@ == without_position(lst@.take(j as int), i as int),
            decreases lst@.len() - j,
        {
            proof {
                assert(lst@.take(j + 1).drop_last() =~= lst@.take(j as int));
                if i == j {
                    lemma_without_position_beyond(lst@.take(j as int), i as int);
                }
            }
            if i != j {
                copy.push(lst[j]);
            }
            j += 1;
        }
        proof {
            assert(lst@.take(lst@.len() as int) =~= lst@);
            lemma_without_position(lst@, i as int);
        }
        assert(copy@ == lst@.remove(i as int));
        i += 1;
    }
}

/// For every entry, collects the entries equal to it.
pub fn remove_and_print_v3(lst: &[u8]) {
    let mut e: usize = 0;
    while e < lst.len()
        invariant
            e <= lst@.len(),
        decreases lst@.len() - e,
    {
        let elem = lst[e];
        let mut forward: Vec<u8> = Vec::new();
        let mut j: usize = 0;
        while j < lst.len()
            invariant
                j <= lst@.len(),
                forward@ == lst@.take(j as int).filter(|x: u8| x == elem),
            decreases lst@.len() - j,
        {
            let x = lst[j];
            proof {
                lemma_filter_push(lst@.take(j as int), x, elem);
                assert(lst@.take(j + 1) =~= lst@.take(j as int).push(x));
            }
            if x == elem {
                forward.push(x);
            }
            j += 1;
        }
        e += 1;
    }
}

proof fn lemma_without_position_beyond(s: Seq<u8>, i: int)
    requires
        i >= s.len(),
    ensures
        without_position(s, i) == s,
    decreases s.len(),
{
    if s.len() > 0 {
        lemma_without_position_beyond(s.drop_last(), i);
        assert(s.drop_last().push(s.last()) =~= s);
    }
}

proof fn lemma_without_position(s: Seq<u8>, i: int)
    requires
        0 <= i < s.len(),
    ensures
        without_position(s, i) == s.remove(i),
    decreases s.len(),
{
    if s.len() - 1 == i {
        assert(s.drop_last() =~= s.remove(i));
    } else {
        lemma_without_position(s.drop_last(), i);
        assert(s.drop_last().remove(i).push(s.last()) =~= s.remove(i));
    }
}

proof fn lemma_filter_push(s: Seq<u8>, x: u8, elem: u8)
    ensures
        s.push(x).filter(|y: u8| y == elem) == if x == elem {
            s.filter(|y: u8| y == elem).push(x)
        } else {
            s.filter(|y: u8| y == elem)
        },
{
    reveal(Seq::filter);
    assert(s.push(x).drop_last() =~= s);
}

} // verus!
