//! Bit manipulations on codes: flipping bits, clearing the lowest set bit
//! and weighting the set bits of a 128-bit code.
use vstd::prelude::*;

verus! {

/// Whether bit `i` of `x` is set.
pub open spec fn bit_of(x: u128, i: int) -> bool {
    0 <= i < 128 && (x >> (i as u128)) & 1u128 == 1u128
}

/// Flips bit `index` of `num`.
pub fn flip_bit(num: u8, index: u8) -> (r: u8)
    requires
        index < 8,
    ensures
        r == num ^ (1u8 << index),
        forall|i: u8| #![trigger (r >> i)]
            i < 8 ==> ((r >> i) & 1u8 == 1u8) == (((num >> i) & 1u8 == 1u8) != (i == index)),
{
    let mask = 1u8 << index;
    let r = num ^ mask;
    assert forall|i: u8| #![trigger (r >> i)]
        i < 8 implies ((r >> i) & 1u8 == 1u8) == (((num >> i) & 1u8 == 1u8) != (i == index)) by {
        assert(i < 8 && index < 8 && r == num ^ (1u8 << index) ==> (((r >> i) & 1u8 == 1u8) == (((
        num >> i) & 1u8 == 1u8) != (i == index)))) by (bit_vector);
    }
    r
}

/// Flipping the same bit twice gives the number back.
pub proof fn law_flip_bit_twice(num: u8, index: u8)
    requires
        index < 8,
    ensures
        (num ^ (1u8 << index)) ^ (1u8 << index) == num,
{
    assert((num ^ (1u8 << index)) ^ (1u8 << index) == num) by (bit_vector);
}

proof fn lemma_clear_lowest_bit(x: u128, i: u128)
    requires
        x > 0,
        i < 128,
    ensures
        ((x & ((x - 1u128) as u128)) >> i) & 1u128 == 1u128 <==> (x >> i) & 1u128 == 1u128 && x & (((1u128 << i) - 1u128) as u128) != 0u128,
{
    assert(x > 0 && i < 128 ==> (((x & ((x - 1u128) as u128)) >> i) & 1u128 == 1u128 <==> (x >> i) & 1u128
        == 1u128 && x & (((1u128 << i) - 1u128) as u128) != 0u128)) by (bit_vector);
}

/// `x` with its lowest set bit cleared: bit `i` stays set exactly when it is
/// set in `x` and some lower bit of `x` is set too.
pub open spec fn lowest_bit_cleared(x: u128, r: u128) -> bool {
    &&& r == x & ((x - 1u128) as u128)
    &&& r < x
    &&& forall|i: u128| #![trigger (r >> i)]
        i < 128 ==> ((r >> i) & 1u128 == 1u128 <==> (x >> i) & 1u128 == 1u128 && x & (((1u128 << i) - 1u128) as u128) != 0u128)
}

proof fn lemma_lowest_bit_cleared(x: u128)
    requires
        x > 0,
    ensures
        lowest_bit_cleared(x, x & ((x - 1u128) as u128)),
{
    let r = x & ((x - 1u128) as u128);
    assert(x > 0 ==> x & ((x - 1u128) as u128) < x) by (bit_vector);
    assert forall|i: u128| #![trigger (r >> i)] i < 128 implies ((r >> i) & 1u128 == 1u128 <==> (x
        >> i) & 1u128 == 1u128 && x & (((1u128 << i) - 1u128) as u128) != 0u128) by {
        lemma_clear_lowest_bit(x, i);
    }
}

/// Clears the lowest set bit of `x`.
pub fn flip_last_1(x: u128) -> (r: u128)
    requires
        x > 0,
    ensures
        lowest_bit_cleared(x, r),
{
    let mut x = x;
    proof {
        lemma_lowest_bit_cleared(x);
    }
    x &= x - 1;
    x
}

/// Clears the lowest set bit of `n`.
pub fn flip_last_one_to_zero(n: u128) -> (r: u128)
    requires
        n > 0,
    ensures
        lowest_bit_cleared(n, r),
{
    proof {
        lemma_lowest_bit_cleared(n);
    }
    n & (n - 1)
}

/// The two ways of clearing the lowest set bit agree.
pub proof fn law_clearing_lowest_bit_is_unique(x: u128, r1: u128, r2: u128)
    requires
        lowest_bit_cleared(x, r1),
        lowest_bit_cleared(x, r2),
    ensures
        r1 == r2,
{
}

/// Swaps entries `i` and `j` of an array of 16 bytes.
pub fn swap(array: &mut [u8; 16], i: usize, j: usize)
    requires
        i < 16,
        j < 16,
    ensures
        final(array)@ == old(array)@.update(i as int, old(array)@[j as int]).update(
            j as int,
            old(array)@[i as int],
        ),
{
    let temp = array[i];
    array[i] = array[j];
    array[j] = temp;
}

/// Swapping the same two entries twice gives the array back.
pub proof fn law_swap_twice(s: Seq<u8>, i: int, j: int)
    requires
        0 <= i < s.len(),
        0 <= j < s.len(),
    ensures
        ({
            let t = s.update(i, s[j]).update(j, s[i]);
            t.update(i, t[j]).update(j, t[i])
        }) == s,
{
    let t = s.update(i, s[j]).update(j, s[i]);
    assert(t.update(i, t[j]).update(j, t[i]) =~= s);
}


/// Calls `u128::trailing_zeros`: the number of zero bits below the lowest
/// set bit of `x`, or 128 when `x` is zero.
#[verifier::external_body]
fn trailing_zeros_u128(x: u128) -> (r: u32)
    ensures
        x == 0 ==> r == 128,
        x != 0 ==> r < 128 && (x >> (r as u128)) & 1u128 == 1u128 && forall|j: u128|
            #![trigger (x >> j)]
            j < r ==> (x >> j) & 1u128 == 0u128,
{
    x.trailing_zeros()
}

/// `sum_{i < n, bit i of x set} perm[i]`.
pub open spec fn weight_below(x: u128, perm: Seq<u128>, n: int) -> int
    decreases n,
{
    if n <= 0 {
        0
    } else {
        weight_below(x, perm, n - 1) + if bit_of(x, n - 1) {
            perm[n - 1] as int
        } else {
            0
        }
    }
}

/// One for every bit position.
pub open spec fn unit_weights() -> Seq<u128> {
    Seq::new(128, |i: int| 1u128)
}

/// The number of set bits of `x`.
pub open spec fn count_set_bits(x: u128) -> int {
    set_bits_weight(x, unit_weights())
}

/// The sum of `perm[i]` over the set bits `i` of `x`.
pub open spec fn set_bits_weight(x: u128, perm: Seq<u128>) -> int {
    weight_below(x, perm, 128)
}

/// `sum_{i < n, bit i of x set} perm[127 - i]`.
pub open spec fn reversed_weight_below(x: u128, perm: Seq<u128>, n: int) -> int
    decreases n,
{
    if n <= 0 {
        0
    } else {
        reversed_weight_below(x, perm, n - 1) + if bit_of(x, n - 1) {
            perm[127 - (n - 1)] as int
        } else {
            0
        }
    }
}

/// The sum of `perm[127 - i]` over the set bits `i` of `x`.
pub open spec fn reversed_set_bits_weight(x: u128, perm: Seq<u128>) -> int {
    reversed_weight_below(x, perm, 128)
}

pub(crate) proof fn lemma_weight_monotone(x: u128, perm: Seq<u128>, a: int, b: int)
    requires
        0 <= a <= b,
    ensures
        0 <= weight_below(x, perm, a) <= weight_below(x, perm, b),
    decreases b,
{
    if a < b {
        lemma_weight_monotone(x, perm, a, b - 1);
    } else if a > 0 {
        lemma_weight_monotone(x, perm, a - 1, a - 1);
    }
}

proof fn lemma_reversed_weight_monotone(x: u128, perm: Seq<u128>, a: int, b: int)
    requires
        0 <= a <= b,
    ensures
        0 <= reversed_weight_below(x, perm, a) <= reversed_weight_below(x, perm, b),
    decreases b,
{
    if a < b {
        lemma_reversed_weight_monotone(x, perm, a, b - 1);
    } else if a > 0 {
        lemma_reversed_weight_monotone(x, perm, a - 1, a - 1);
    }
}

proof fn lemma_weight_same_bits(x: u128, y: u128, perm: Seq<u128>, n: int)
    requires
        forall|i: int| 0 <= i < n ==> #[trigger] bit_of(x, i) == bit_of(y, i),
    ensures
        weight_below(x, perm, n) == weight_below(y, perm, n),
    decreases n,
{
    if n > 0 {
        lemma_weight_same_bits(x, y, perm, n - 1);
        assert(bit_of(x, n - 1) == bit_of(y, n - 1));
    }
}

pub(crate) proof fn lemma_weight_clear_bit(x: u128, y: u128, t: int, perm: Seq<u128>, n: int)
    requires
        0 <= t < 128,
        bit_of(x, t),
        forall|i: int| 0 <= i < 128 ==> #[trigger] bit_of(y, i) == (bit_of(x, i) && i != t),
    ensures
        weight_below(y, perm, n) == weight_below(x, perm, n) - if t < n {
            perm[t] as int
        } else {
            0
        },
    decreases n,
{
    if n > 0 {
        lemma_weight_clear_bit(x, y, t, perm, n - 1);
        if n - 1 < 128 {
            assert(bit_of(y, n - 1) == (bit_of(x, n - 1) && n - 1 != t));
        }
    }
}

proof fn lemma_xor_clears_bit(x: u128, t: u128)
    requires
        t < 128,
        (x >> t) & 1u128 == 1u128,
    ensures
        x ^ (1u128 << t) < x,
        forall|i: int| 0 <= i < 128 ==> #[trigger] bit_of(x ^ (1u128 << t), i) == (bit_of(x, i)
            && i != t),
{
    assert(t < 128 && (x >> t) & 1u128 == 1u128 ==> x ^ (1u128 << t) < x) by (bit_vector);
    assert forall|i: int| 0 <= i < 128 implies #[trigger] bit_of(x ^ (1u128 << t), i) == (bit_of(
        x,
        i,
    ) && i != t) by {
        let j = i as u128;
        assert(t < 128 && j < 128 && (x >> t) & 1u128 == 1u128 ==> ((((x ^ (1u128 << t)) >> j)
            & 1u128 == 1u128) == ((x >> j) & 1u128 == 1u128 && j != t))) by (bit_vector);
    }
}

pub(crate) proof fn lemma_high_bits_zero(x: u128, perm: Seq<u128>, k: int)
    requires
        0 <= k <= 128,
        k < 128 ==> x >> (k as u128) == 0,
    ensures
        weight_below(x, perm, 128) == weight_below(x, perm, k),
        reversed_weight_below(x, perm, 128) == reversed_weight_below(x, perm, k),
    decreases 128 - k,
{
    if k < 128 {
        let kk = k as u128;
        assert(kk < 128 && x >> kk == 0 ==> (x >> kk) & 1u128 == 0u128) by (bit_vector);
        if k + 1 < 128 {
            assert(kk + 1 < 128 && x >> kk == 0 ==> x >> ((kk + 1) as u128) == 0) by (bit_vector);
        }
        lemma_high_bits_zero(x, perm, k + 1);
    }
}

/// Sums `permutation[127 - i]` over the set bits `i` of `binary`.
pub fn get_weight_sum_v1(binary: u128, permutation: [u128; 128]) -> (sum: u128)
    requires
        reversed_set_bits_weight(binary, permutation@) <= u128::MAX,
    ensures
        sum as int == reversed_set_bits_weight(binary, permutation@),
{
    let mut sum: u128 = 0;
    let mut i: usize = 0;
    while i < 128
        invariant
            i <= 128,
            permutation@.len() == 128,
            reversed_set_bits_weight(binary, permutation@) <= u128::MAX,
            sum as int == reversed_weight_below(binary, permutation@, i as int),
        decreases 128 - i,
    {
        let ii = i as u128;
        assert(ii < 128 ==> ((binary & (1u128 << ii)) != 0 <==> (binary >> ii) & 1u128 == 1u128))
            by (bit_vector);
        proof {
            lemma_reversed_weight_monotone(binary, permutation@, i + 1, 128);
        }
        if (binary & (1u128 << ii)) != 0 {
            sum += permutation[127 - i];
        }
        i += 1;
    }
    sum
}

/// Sums `permutation[i]` over the set bits `i` of `binary`, peeling off the
/// lowest set bit each round.
pub fn get_weight_sum_v2(binary: u128, permutation: [u128; 128]) -> (sum: u128)
    requires
        set_bits_weight(binary, permutation@) <= u128::MAX,
    ensures
        sum as int == set_bits_weight(binary, permutation@),
{
    let mut sum: u128 = 0;
    let mut binary_copy = binary;
    proof {
        lemma_weight_monotone(binary, permutation@, 0, 128);
    }
    while binary_copy != 0
        invariant
            permutation@.len() == 128,
            set_bits_weight(binary, permutation@) <= u128::MAX,
            0 <= set_bits_weight(binary_copy, permutation@),
            sum as int + set_bits_weight(binary_copy, permutation@) == set_bits_weight(
                binary,
                permutation@,
            ),
        decreases binary_copy,
    {
        let x = binary_copy;
        let last_bit = x & !(x - 1);
        assert(x != 0 && last_bit == x & !((x - 1) as u128) ==> last_bit != 0 && last_bit & ((
        last_bit - 1) as u128) == 0 && x & last_bit == last_bit) by (bit_vector);
        let bit_index = trailing_zeros_u128(last_bit);
        let t = bit_index as u128;
        assert(last_bit != 0 && last_bit & ((last_bit - 1) as u128) == 0 && t < 128 && (last_bit
            >> t) & 1u128 == 1u128 && x & last_bit == last_bit ==> last_bit == 1u128 << t && (x
            >> t) & 1u128 == 1u128 && x - last_bit == x ^ (1u128 << t)) by (bit_vector);
        proof {
            lemma_xor_clears_bit(x, t);
            lemma_weight_clear_bit(x, x ^ (1u128 << t), t as int, permutation@, 128);
            lemma_weight_monotone(x ^ (1u128 << t), permutation@, 0, 128);
        }
        sum += permutation[bit_index as usize];
        binary_copy -= last_bit;
    }
    proof {
        assert(0u128 >> 0u128 == 0) by (bit_vector);
        lemma_high_bits_zero(0, permutation@, 0);
    }
    sum
}

/// Sums `permutation[i]` over the set bits `i` of `n`, shifting `n` right
/// one bit at a time.
pub fn sum_of_set_bits(n: u128, permutation: [u128; 128]) -> (sum: u128)
    requires
        set_bits_weight(n, permutation@) <= u128::MAX,
    ensures
        sum as int == set_bits_weight(n, permutation@),
{
    let mut sum: u128 = 0;
    let mut index: usize = 0;
    let mut value = n;
    assert(n >> 0u128 == n) by (bit_vector);
    while value != 0
        invariant
            permutation@.len() == 128,
            set_bits_weight(n, permutation@) <= u128::MAX,
            index <= 128,
            index < 128 ==> value == n >> (index as u128),
            index == 128 ==> value == 0,
            sum as int == weight_below(n, permutation@, index as int),
        decreases 128 - index,
    {
        let ii = index as u128;
        proof {
            lemma_weight_monotone(n, permutation@, index + 1, 128);
        }
        if value & 1 == 1 {
            sum += permutation[index];
        }
        assert(ii < 127 ==> (n >> ii) >> 1u128 == n >> ((ii + 1) as u128)) by (bit_vector);
        assert(ii == 127 ==> (n >> ii) >> 1u128 == 0) by (bit_vector);
        value >>= 1;
        index += 1;
    }
    proof {
        lemma_high_bits_zero(n, permutation@, index as int);
    }
    sum
}

/// Sums `permutation[i]` over the set bits `i` of `n`, finding each bit
/// with `trailing_zeros` and flipping it off.
pub fn sum_of_set_bits_v2(n: u128, permutation: [u128; 128]) -> (sum: u128)
    requires
        set_bits_weight(n, permutation@) <= u128::MAX,
    ensures
        sum as int == set_bits_weight(n, permutation@),
{
    let mut sum: u128 = 0;
    let mut value = n;
    proof {
        lemma_weight_monotone(n, permutation@, 0, 128);
    }
    while value != 0
        invariant
            permutation@.len() == 128,
            set_bits_weight(n, permutation@) <= u128::MAX,
            0 <= set_bits_weight(value, permutation@),
            sum as int + set_bits_weight(value, permutation@) == set_bits_weight(n, permutation@),
        decreases value,
    {
        let index = trailing_zeros_u128(value);
        let t = index as u128;
        proof {
            lemma_xor_clears_bit(value, t);
            lemma_weight_clear_bit(value, value ^ (1u128 << t), t as int, permutation@, 128);
            lemma_weight_monotone(value ^ (1u128 << t), permutation@, 0, 128);
        }
        sum += permutation[index as usize];
        value ^= 1u128 << index;
    }
    proof {
        assert(0u128 >> 0u128 == 0) by (bit_vector);
        lemma_high_bits_zero(0, permutation@, 0);
    }
    sum
}

/// Weighting the set bits against a reversed table is weighting them
/// against the table read from its end: the first and second weight sums
/// differ only in which end of the table bit 0 reads.
pub proof fn law_reversed_weight_is_weight_of_reversed(x: u128, perm: Seq<u128>)
    requires
        perm.len() == 128,
    ensures
        reversed_set_bits_weight(x, perm) == set_bits_weight(x, perm.reverse()),
{
    lemma_reversed_weight_prefix(x, perm, 128);
}

proof fn lemma_reversed_weight_prefix(x: u128, perm: Seq<u128>, n: int)
    requires
        perm.len() == 128,
        0 <= n <= 128,
    ensures
        reversed_weight_below(x, perm, n) == weight_below(x, perm.reverse(), n),
    decreases n,
{
    if n > 0 {
        lemma_reversed_weight_prefix(x, perm, n - 1);
        assert(perm.reverse()[n - 1] == perm[127 - (n - 1)]);
    }
}

} // verus!
