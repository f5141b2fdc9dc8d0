use caravela::hasher::{mask_key, MaskMap};
use caravela::hashers::{DistHash, MainHash, MaskHash};
use caravela::query::{hamming_candidates, hamming_distance};
use caravela::random_mask::random_u128_mask;
use caravela::try_hasher::IndexHasher;

#[test]
fn mask_key_gathers_the_selected_bits() {
    assert_eq!(mask_key(&[0, 1, 2], 0b101), 0b101);
    assert_eq!(mask_key(&[2, 0], 0b100), 0b01);
    assert_eq!(mask_key(&[127, 64, 5], (1u128 << 127) | (1u128 << 5)), 0b101);
    assert_eq!(mask_key(&[], u128::MAX), 0);
}

#[test]
fn mask_map_files_values_by_masked_bits() {
    let mut m = MaskMap::new(vec![0, 1]);
    m.insert(0b111, 1);
    m.insert(0b011, 2);
    m.insert(0b001, 3);
    let set = m.get(0b1011).unwrap();
    assert_eq!(set.len(), 2);
    assert!(set.contains(&1) && set.contains(&2));
    assert_eq!(m.get(0b1).unwrap().len(), 1);
    assert!(m.get(0b10).is_none());
}

#[test]
fn random_masks_have_the_requested_number_of_bits() {
    for n in [0usize, 1, 8, 64, 127, 128] {
        assert_eq!(random_u128_mask(n).count_ones() as usize, n);
    }
    assert_eq!(random_u128_mask(500), u128::MAX);
}

#[test]
fn mask_hash_keys_by_masked_bits() {
    let mut h: MaskHash<&str> = MaskHash::new(128);
    h.insert(5, "five");
    assert_eq!(h.get(5), Some(&"five"));
    assert_eq!(h.get(6), None);
    h.insert(5, "again");
    assert_eq!(h.get(5), Some(&"again"));

    let mut everything: MaskHash<u32> = MaskHash::new(0);
    everything.insert(1, 10);
    everything.insert(2, 20);
    // with an empty mask every input has the same key
    assert_eq!(everything.get(99), Some(&20));
}

#[test]
fn main_hash_collects_sets() {
    let mut h = MainHash::new(128);
    h.insert(9, 1);
    h.insert(9, 2);
    h.insert(9, 2);
    let set = h.get(9).unwrap();
    assert_eq!(set.len(), 2);
    assert!(h.get(10).is_none());
}

#[test]
fn index_hasher_keys_by_xor() {
    let mut h: IndexHasher<i32> = IndexHasher::new(40);
    h.insert(77, -1);
    h.insert(78, -2);
    assert_eq!(h.get(77), Some(&-1));
    assert_eq!(h.get(78), Some(&-2));
    assert_eq!(h.get(79), None);
}

#[test]
fn dist_hash_keys_by_byte_distance() {
    let mut h: DistHash<u8> = DistHash::new(0);
    // the mask is zero: the key is the number of non-zero bytes of the input
    h.insert(0x0101, 2);
    assert_eq!(h.get(0xFF00_0000_0000_0000_0000_0000_0000_0001), Some(&2));
    assert_eq!(h.get(0), None);
}

#[test]
fn hamming_distance_counts_differing_bits() {
    let x = [0u64; 8];
    let mut y = [0u64; 8];
    assert_eq!(hamming_distance(&x, &y), 0);
    y[0] = 0b1011;
    y[7] = u64::MAX;
    assert_eq!(hamming_distance(&x, &y), 67);
    assert_eq!(hamming_distance(&y, &x), 67);
    assert_eq!(hamming_distance(&y, &y), 0);
}

#[test]
fn hamming_candidates_keep_close_codes_in_order() {
    let q = [0u64; 8];
    let mut far = [0u64; 8];
    far[3] = u64::MAX;
    let mut near = [0u64; 8];
    near[1] = 0b11;
    let codex = vec![far, near, q, far, near];
    assert_eq!(hamming_candidates(&codex, &q, 3), vec![1, 2, 4]);
    assert_eq!(hamming_candidates(&codex, &q, 0), Vec::<usize>::new());
    assert_eq!(hamming_candidates(&codex, &q, 65), vec![0, 1, 2, 3, 4]);
}
