use caravela::indexes::Index;
use caravela::permutation::permutation_to_u128;
use caravela::select_index::{Index16, Index64, Index8, Select16Bits, Select64Bits, Select8Bits};

fn permutations(count: usize, k: usize) -> Vec<Vec<usize>> {
    // deterministic permutations of 0..k, by repeated rotation and swap
    let mut out = Vec::new();
    let mut p: Vec<usize> = (0..k).collect();
    for i in 0..count {
        p.rotate_left(i % k);
        p.swap(i % k, (i * 7 + 3) % k);
        out.push(p.clone());
    }
    out
}

#[test]
fn run_metrics() {
    let n_samples: usize = 100_000;
    let n_queries: usize = 1_000;

    let mut index: Index = Index::new(vec![8, 16, 32, 64]);
    let perms = permutations(n_samples, 16);
    for (data_point, permutation) in perms.iter().enumerate() {
        index.insert(permutation_to_u128(permutation), data_point);
    }
    let queries = permutations(n_queries, 16);
    let mut count: usize = 0;
    for permutation in queries.iter() {
        let candidates = index.query(permutation_to_u128(permutation));
        count += candidates.len();
    }
    // the queries are the first permutations inserted, so each finds itself
    assert!(count >= n_queries);
}

#[test]
fn query_finds_the_points_filed_under_a_code() {
    let mut index = Index::new(vec![8, 16]);
    index.insert(42, 1);
    index.insert(42, 2);
    index.insert(7, 3);
    let found = index.query(42);
    assert_eq!(found.len(), 2);
    assert!(found.contains(1));
    assert!(found.contains(2));
    assert!(!found.contains(3));
    let mut ids = found.to_vec();
    ids.sort();
    assert_eq!(ids, vec![1, 2]);
    assert_eq!(index.query(7).len(), 1);
    assert_eq!(index.query(8).len(), 0);
}

#[test]
fn an_index_without_tables_finds_nothing() {
    let mut index = Index::new(vec![]);
    index.insert(42, 1);
    assert_eq!(index.query(42).len(), 0);
}

#[test]
fn window_hashes_pick_bits_of_the_code() {
    let code: u128 = u128::MAX;
    assert_eq!(Select8Bits.hash(code), 0xFF);
    assert_eq!(Select16Bits.hash(code), 0xFFFF);
    assert_eq!(Select64Bits.hash(code), 0xFFFF_FFFF);
    assert_eq!(Select8Bits.hash(0), 0);
}

#[test]
fn window_indexes_find_points_of_uniform_codes() {
    // every window of an all-ones code is all ones, so a query meets the insert
    let mut i8 = Index8::new(3);
    i8.insert(u128::MAX, 5);
    assert!(i8.query(u128::MAX).contains(5));
    let mut i16 = Index16::new(2);
    i16.insert(u128::MAX, 6);
    assert!(i16.query(u128::MAX).contains(6));
    let mut i64 = Index64::new(2);
    i64.insert(0, 7);
    assert!(i64.query(0).contains(7));
    assert_eq!(Index8::new(0).query(1).len(), 0);
}
