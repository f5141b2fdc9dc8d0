use caravela::bit_tricks::{get_weight_sum_v1, get_weight_sum_v2, sum_of_set_bits, sum_of_set_bits_v2};
use std::time::Instant;

const N: usize = 1_000_000;

#[test]
fn main() {
    let permutation = [1u128; 128];

    let start = Instant::now();
    for _ in 0..N {
        let _ = get_weight_sum_v1(0xffff_ffff_ffff_ffff, permutation);
    }
    let duration_v1 = start.elapsed();

    let start = Instant::now();
    for _ in 0..N {
        let _ = get_weight_sum_v2(0xffff_ffff_ffff_ffff, permutation);
    }
    let duration_v2 = start.elapsed();

    let start = Instant::now();
    for _ in 0..N {
        let _ = sum_of_set_bits(0xffff_ffff_ffff_ffff, permutation);
    }
    let duration_v3 = start.elapsed();

    let start = Instant::now();
    for _ in 0..N {
        let _ = sum_of_set_bits_v2(0xffff_ffff_ffff_ffff, permutation);
    }
    let duration_v4 = start.elapsed();

    println!("Version 1: {:?}", duration_v1);
    println!("Version 2: {:?}", duration_v2);
    println!("Version 3: {:?}", duration_v3);
    println!("Version 4: {:?}", duration_v4);
}

#[test]
fn weight_sums_agree_on_all_ones_table() {
    let permutation = [1u128; 128];
    assert_eq!(get_weight_sum_v1(0xffff_ffff_ffff_ffff, permutation), 64);
    assert_eq!(get_weight_sum_v2(0xffff_ffff_ffff_ffff, permutation), 64);
    assert_eq!(sum_of_set_bits(0xffff_ffff_ffff_ffff, permutation), 64);
    assert_eq!(sum_of_set_bits_v2(0xffff_ffff_ffff_ffff, permutation), 64);
}

#[test]
fn weight_sums_read_the_table_by_bit_position() {
    let mut permutation = [0u128; 128];
    for i in 0..128 {
        permutation[i] = i as u128;
    }
    // bits 0, 3 and 127 set
    let binary: u128 = (1u128 << 127) | 0b1001;
    assert_eq!(get_weight_sum_v2(binary, permutation), 0 + 3 + 127);
    assert_eq!(sum_of_set_bits(binary, permutation), 130);
    assert_eq!(sum_of_set_bits_v2(binary, permutation), 130);
    // the first version reads the table from its far end: 127 + 124 + 0
    assert_eq!(get_weight_sum_v1(binary, permutation), 251);
}

#[test]
fn weight_sums_of_zero_are_zero() {
    let permutation = [7u128; 128];
    assert_eq!(get_weight_sum_v1(0, permutation), 0);
    assert_eq!(get_weight_sum_v2(0, permutation), 0);
    assert_eq!(sum_of_set_bits(0, permutation), 0);
    assert_eq!(sum_of_set_bits_v2(0, permutation), 0);
}
