//! Binary codes of permutations: one comparison bit per pair of positions.
use vstd::prelude::*;

verus! {

/// `2^128`, the number of values of a `u128`.
pub open spec fn u128_modulus() -> int {
    u128::MAX as int + 1
}

/// The value of a bit string read most significant bit first.
pub open spec fn bits_value(s: Seq<bool>) -> nat
    decreases s.len(),
{
    if s.len() == 0 {
        0
    } else {
        2 * bits_value(s.drop_last()) + if s.last() {
            1nat
        } else {
            0nat
        }
    }
}

/// The comparison bits of row `i`: `v[i] > v[j]` for `j = i+1 .. n-1`.
pub open spec fn pair_row(v: Seq<usize>, i: int) -> Seq<bool> {
    Seq::new(
        if v.len() - 1 - i > 0 {
            (v.len() - 1 - i) as nat
        } else {
            0nat
        },
        |d: int| v[i] > v[i + 1 + d],
    )
}

/// The comparison bits of rows `0 .. i-1`, row after row.
pub open spec fn rows_before(v: Seq<usize>, i: int) -> Seq<bool>
    decreases i,
{
    if i <= 0 {
        Seq::empty()
    } else {
        rows_before(v, i - 1) + pair_row(v, i - 1)
    }
}

/// For every pair of positions `i < j`, in lexicographic order, whether
/// `v[i] > v[j]`.
pub open spec fn pair_bits(v: Seq<usize>) -> Seq<bool> {
    rows_before(v, v.len() as int)
}

/// The code of `v`: its pair bits read as a binary number, most significant
/// first, of which a `u128` keeps the last 128 bits.
pub open spec fn permutation_code(v: Seq<usize>) -> int {
    bits_value(pair_bits(v)) as int % u128_modulus()
}

proof fn lemma_bits_value_push(s: Seq<bool>, b: bool)
    ensures
        bits_value(s.push(b)) == 2 * bits_value(s) + if b {
            1nat
        } else {
            0nat
        },
{
    assert(s.push(b).drop_last() =~= s);
}

proof fn lemma_shift_in(x: u128, b: bool, big: int)
    requires
        x as int == big % u128_modulus(),
        0 <= big,
    ensures
        ((if b {
            (x << 1u32) | 1u128
        } else {
            x << 1u32
        }) as int) == (2 * big + if b {
            1int
        } else {
            0int
        }) % u128_modulus(),
{
    let m = u128_modulus();
    assert(x < 0x8000_0000_0000_0000_0000_0000_0000_0000u128 ==> (x << 1u32) == x * 2)
        by (bit_vector);
    assert(x >= 0x8000_0000_0000_0000_0000_0000_0000_0000u128 ==> (x << 1u32) == x * 2
        - 0xffff_ffff_ffff_ffff_ffff_ffff_ffff_ffffu128 - 1) by (bit_vector);
    assert(((x << 1u32) | 1u128) == (x << 1u32) + 1u128) by (bit_vector);
    assert((x << 1u32) % 2 == 0) by (bit_vector);
    if x < 0x8000_0000_0000_0000_0000_0000_0000_0000u128 {
        vstd::arithmetic::div_mod::lemma_small_mod((x * 2) as nat, m as nat);
    } else {
        vstd::arithmetic::div_mod::lemma_fundamental_div_mod_converse(x * 2, m, 1, x * 2 - m);
    }
    vstd::arithmetic::div_mod::lemma_mul_mod_noop_right(2, big, m);
    let bit: int = if b {
        1
    } else {
        0
    };
    vstd::arithmetic::div_mod::lemma_mod_bound(2 * big, m);
    vstd::arithmetic::div_mod::lemma_add_mod_noop(2 * big, bit, m);
    vstd::arithmetic::div_mod::lemma_small_mod(bit as nat, m as nat);
    vstd::arithmetic::div_mod::lemma_mod_bound(x as int * 2, m);
    if b {
        assert(((2 * big) % m + 1) < m || (2 * big) % m + 1 == m);
        vstd::arithmetic::div_mod::lemma_mod_twice(2 * big + 1, m);
    }
}

/// Packs the pairwise comparisons of a vector into a `u128`: for every pair
/// `i < j`, in lexicographic order, one bit that is set when
/// `vector[i] > vector[j]`. Only the last 128 bits are kept.
pub fn permutation_to_u128(vector: &[usize]) -> (packed: u128)
    ensures
        packed as int == permutation_code(vector@),
{
    let n = vector.len();
    let ghost v = vector@;
    let mut packed: u128 = 0;
    let mut i: usize = 0;
    proof {
        assert(bits_value(rows_before(v, 0)) == 0);
        vstd::arithmetic::div_mod::lemma_small_mod(0, u128_modulus() as nat);
    }
    while i < n
        invariant
            n == v.len(),
            v == vector@,
            i <= n,
            packed as int == bits_value(rows_before(v, i as int)) as int % u128_modulus(),
        decreases n - i,
    {
        let mut j: usize = i + 1;
        while j < n
            invariant
                n == v.len(),
                v == vector@,
                i < n,
                i + 1 <= j <= n,
                packed as int == bits_value(
                    rows_before(v, i as int) + pair_row(v, i as int).take(j - i - 1),
                ) as int % u128_modulus(),
            decreases n - j,
        {
            let ghost prefix = rows_before(v, i as int) + pair_row(v, i as int).take(j - i - 1);
            let bit = vector[i] > vector[j];
            proof {
                lemma_shift_in(packed, bit, bits_value(prefix) as int);
                lemma_bits_value_push(prefix, bit);
                assert(prefix.push(bit) =~= rows_before(v, i as int) + pair_row(v, i as int).take(
                    j - i,
                ));
            }
            packed = packed << 1u32;
            if bit {
                packed = packed | 1u128;
            }
            j = j + 1;
        }
        assert(pair_row(v, i as int).take(n - i - 1) =~= pair_row(v, i as int));
        i = i + 1;
    }
    packed
}


/// The same packing as `permutation_to_u128`, under the name the packing
/// benchmark gives it.
pub fn pack_vector_to_u128(vector: &[usize]) -> (packed: u128)
    ensures
        packed as int == permutation_code(vector@),
{
    permutation_to_u128(vector)
}

/// A vector in non-decreasing order has no inversions: its code is zero.
pub proof fn law_sorted_vector_packs_to_zero(v: Seq<usize>)
    requires
        forall|i: int, j: int| 0 <= i < j < v.len() ==> v[i] <= v[j],
    ensures
        permutation_code(v) == 0,
{
    lemma_rows_before_all_false(v, v.len() as int);
    lemma_bits_value_all_false(pair_bits(v));
    vstd::arithmetic::div_mod::lemma_small_mod(0, u128_modulus() as nat);
}

proof fn lemma_rows_before_all_false(v: Seq<usize>, i: int)
    requires
        forall|a: int, b: int| 0 <= a < b < v.len() ==> v[a] <= v[b],
        i <= v.len(),
    ensures
        forall|k: int| 0 <= k < rows_before(v, i).len() ==> !#[trigger] rows_before(v, i)[k],
    decreases i,
{
    if i > 0 {
        lemma_rows_before_all_false(v, i - 1);
        let pre = rows_before(v, i - 1);
        let row = pair_row(v, i - 1);
        assert forall|k: int| 0 <= k < rows_before(v, i).len() implies !#[trigger] rows_before(v, i)[k] by {
            if k >= pre.len() {
                let d = k - pre.len();
                assert(row[d] == (v[i - 1] > v[i - 1 + 1 + d]));
            } else {
                assert(rows_before(v, i)[k] == pre[k]);
            }
        }
    }
}

proof fn lemma_bits_value_all_false(s: Seq<bool>)
    requires
        forall|k: int| 0 <= k < s.len() ==> !#[trigger] s[k],
    ensures
        bits_value(s) == 0,
    decreases s.len(),
{
    if s.len() > 0 {
        assert(!s[s.len() - 1]);
        lemma_bits_value_all_false(s.drop_last());
    }
}

/// The letter `i` places after `'A'`.
pub open spec fn letter(i: int) -> char {
    (65 + i) as char
}

/// Whether `p` holds every one of the first `n` letters.
pub open spec fn holds_first_letters(p: Seq<char>, n: int) -> bool {
    forall|i: int| 0 <= i < n ==> #[trigger] p.contains(letter(i))
}

/// Sorts a permutation of the first letters of the alphabet by swapping
/// each letter into its place.
pub fn transpose(permutation: &mut [char])
    requires
        old(permutation)@.len() <= 191,
        holds_first_letters(old(permutation)@, old(permutation)@.len() as int),
    ensures
        final(permutation)@ == Seq::new(old(permutation)@.len(), |i: int| letter(i)),
{
    let n = permutation.len();
    let mut i: usize = 0;
    while i < n
        invariant
            n == permutation@.len(),
            n <= 191,
            i <= n,
            holds_first_letters(permutation@, n as int),
            forall|k: int| 0 <= k < i ==> #[trigger] permutation@[k] == letter(k),
        decreases n - i,
    {
        let target = (65u8 + i as u8) as char;
        assert(target == letter(i as int));
        if permutation[i] != target {
            assert(permutation@.contains(letter(i as int)));
            let ghost w0 = choose|w: int| 0 <= w < n && permutation@[w] == letter(i as int);
            assert(w0 >= i) by {
                if w0 < i {
                    assert(permutation@[w0] == letter(w0));
                }
            }
            let mut j: usize = 0;
            while permutation[j] != target
                invariant
                    n == permutation@.len(),
                    0 <= j <= w0 < n,
                    permutation@[w0] == target,
                decreases w0 - j,
            {
                j += 1;
            }
            assert(j >= i) by {
                if j < i {
                    assert(permutation@[j as int] == letter(j as int));
                }
            }
            let ghost before = permutation@;
            let tmp = permutation[i];
            permutation[i] = permutation[j];
            permutation[j] = tmp;
            assert forall|l: int| 0 <= l < n implies #[trigger] permutation@.contains(letter(l)) by {
                assert(before.contains(letter(l)));
                let w = choose|w: int| 0 <= w < n && before[w] == letter(l);
                if w == i {
                    assert(permutation@[j as int] == letter(l));
                } else if w == j {
                    assert(permutation@[i as int] == letter(l));
                } else {
                    assert(permutation@[w] == letter(l));
                }
            }
        }
        i += 1;
    }
    assert(permutation@ =~= Seq::new(n as nat, |k: int| letter(k)));
}

} // verus!
