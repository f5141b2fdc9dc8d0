use caravela::bit_tricks::{flip_bit, flip_last_1, flip_last_one_to_zero, swap};

#[test]
fn flip_bit_flips_one_bit() {
    assert_eq!(flip_bit(0b1010_1100, 3), 0b1010_0100);
    assert_eq!(flip_bit(0b1010_0100, 3), 0b1010_1100);
    assert_eq!(flip_bit(0, 7), 0b1000_0000);
}

#[test]
fn flip_bit_twice_gives_the_number_back() {
    for n in 0..=255u8 {
        for i in 0..8u8 {
            assert_eq!(flip_bit(flip_bit(n, i), i), n);
        }
    }
}

#[test]
fn clearing_the_lowest_set_bit() {
    assert_eq!(flip_last_1(0b1011_0000), 0b1010_0000);
    assert_eq!(flip_last_one_to_zero(0b1011_0000), 0b1010_0000);
    assert_eq!(flip_last_1(1), 0);
    assert_eq!(flip_last_1(u128::MAX), u128::MAX - 1);
    assert_eq!(flip_last_one_to_zero(1u128 << 127), 0);
}

#[test]
fn clearing_lowest_bits_until_zero_takes_one_step_per_bit() {
    let mut x = u128::MAX;
    let mut steps = 0;
    while x > 0 {
        x = flip_last_1(x);
        steps += 1;
    }
    assert_eq!(steps, 128);
}

#[test]
fn swap_exchanges_two_entries() {
    let mut array = [0u8; 16];
    for i in 0..16 {
        array[i] = i as u8;
    }
    swap(&mut array, 3, 12);
    assert_eq!(array[3], 12);
    assert_eq!(array[12], 3);
    swap(&mut array, 3, 12);
    for i in 0..16 {
        assert_eq!(array[i], i as u8);
    }
}
