//! Sets of squares held as the bits of a `u64`, and the integer primitives
//! that move generation is built from.

use vstd::prelude::*;
use vstd::std_specs::bits::{
    axiom_u64_leading_zeros, axiom_u64_trailing_zeros, u64_leading_zeros, u64_trailing_zeros,
};

verus! {

/// Whether bit `i` of `set` is one. No index outside `0..64` is a member.
pub open spec fn has_bit(set: u64, i: int) -> bool {
    0 <= i < 64 && (set >> (i as u64)) & 1 == 1
}

/// The set that holds bit `i` alone.
pub open spec fn bit(i: int) -> u64
    recommends
        0 <= i < 64,
{
    1u64 << (i as u64)
}

/// How many of the bits below index `n` are members of `set`.
pub open spec fn count_below(set: u64, n: nat) -> nat
    decreases n,
{
    if n == 0 {
        0
    } else {
        count_below(set, (n - 1) as nat) + if has_bit(set, n - 1) { 1nat } else { 0nat }
    }
}

/// The number of members of `set`.
pub open spec fn popcount(set: u64) -> nat {
    count_below(set, 64)
}

/// The set of the indices below `n` that satisfy `pred`.
pub open spec fn mask_below(pred: spec_fn(int) -> bool, n: nat) -> u64
    decreases n,
{
    if n == 0 {
        0
    } else if pred(n - 1) {
        mask_below(pred, (n - 1) as nat) | bit(n - 1)
    } else {
        mask_below(pred, (n - 1) as nat)
    }
}

/// The set of the indices in `0..64` that satisfy `pred`.
pub open spec fn mask_of(pred: spec_fn(int) -> bool) -> u64 {
    mask_below(pred, 64)
}

/// The set that holds the highest member of `x` alone; empty where `x` is.
pub open spec fn top_bit(x: u64) -> u64 {
    if x == 0 {
        0
    } else {
        bit(63 - u64_leading_zeros(x))
    }
}

/// Every bit at or below the highest member of `x`, with the bits above the
/// lowest of them cleared again: the shift-and-or form of `top_bit`.
pub open spec fn smear_top(x: u64) -> u64 {
    let x1 = x | (x >> 1u64);
    let x2 = x1 | (x1 >> 2u64);
    let x3 = x2 | (x2 >> 4u64);
    let x4 = x3 | (x3 >> 8u64);
    let x5 = x4 | (x4 >> 16u64);
    let x6 = x5 | (x5 >> 32u64);
    x6 & !(x6 >> 1u64)
}

/// `u64::count_ones` of the standard library: the number of one bits in the
/// binary representation of `x`.
pub assume_specification[ u64::count_ones ](x: u64) -> (r: u32)
    ensures
        r == popcount(x),
;

/// Membership in a union, an intersection, a symmetric difference and a
/// complement, bit by bit.
pub proof fn lemma_bit_ops(a: u64, b: u64, i: int)
    ensures
        has_bit(a | b, i) == (has_bit(a, i) || has_bit(b, i)),
        has_bit(a & b, i) == (has_bit(a, i) && has_bit(b, i)),
        has_bit(a ^ b, i) == (has_bit(a, i) != has_bit(b, i)),
        has_bit(!a, i) == (0 <= i < 64 && !has_bit(a, i)),
{
    if 0 <= i < 64 {
        let k = i as u64;
        assert({
            &&& (((a | b) >> k) & 1 == 1) == ((a >> k) & 1 == 1 || (b >> k) & 1 == 1)
            &&& (((a & b) >> k) & 1 == 1) == ((a >> k) & 1 == 1 && (b >> k) & 1 == 1)
            &&& (((a ^ b) >> k) & 1 == 1) == (((a >> k) & 1 == 1) != ((b >> k) & 1 == 1))
            &&& (((!a) >> k) & 1 == 1) == !((a >> k) & 1 == 1)
        }) by (bit_vector)
            requires
                k < 64,
        ;
    }
}

/// Membership in a union of eight sets.
pub proof fn lemma_union8(a: u64, b: u64, c: u64, d: u64, e: u64, f: u64, g: u64, h: u64, i: int)
    ensures
        has_bit(a | b | c | d | e | f | g | h, i) == (has_bit(a, i) || has_bit(b, i) || has_bit(
            c,
            i,
        ) || has_bit(d, i) || has_bit(e, i) || has_bit(f, i) || has_bit(g, i) || has_bit(h, i)),
{
    lemma_bit_ops(a, b, i);
    lemma_bit_ops(a | b, c, i);
    lemma_bit_ops(a | b | c, d, i);
    lemma_bit_ops(a | b | c | d, e, i);
    lemma_bit_ops(a | b | c | d | e, f, i);
    lemma_bit_ops(a | b | c | d | e | f, g, i);
    lemma_bit_ops(a | b | c | d | e | f | g, h, i);
}

/// The set `bit(j)` holds `j` and nothing else; the empty set holds nothing.
pub proof fn lemma_single_bit(j: int, i: int)
    requires
        0 <= j < 64,
    ensures
        has_bit(bit(j), i) == (i == j),
        !has_bit(0, i),
{
    if 0 <= i < 64 {
        let k = i as u64;
        let m = j as u64;
        assert((((1u64 << m) >> k) & 1 == 1) == (k == m) && (0u64 >> k) & 1 == 0) by (bit_vector)
            requires
                k < 64,
                m < 64,
        ;
    }
}

/// Two sets with the same members are the same word.
pub proof fn lemma_bits_equal(a: u64, b: u64)
    requires
        forall|i: int| 0 <= i < 64 ==> has_bit(a, i) == has_bit(b, i),
    ensures
        a == b,
{
    let x = a ^ b;
    if x != 0 {
        axiom_u64_trailing_zeros(x);
        let k = u64_trailing_zeros(x) as int;
        lemma_bit_ops(a, b, k);
        assert(has_bit(x, k));
    }
    assert(a == b) by (bit_vector)
        requires
            a ^ b == 0,
    ;
}

/// A set that is not empty has a member.
pub proof fn lemma_nonzero_has_bit(a: u64)
    requires
        a != 0,
    ensures
        exists|i: int| has_bit(a, i),
{
    if forall|i: int| !has_bit(a, i) {
        assert forall|i: int| 0 <= i < 64 implies has_bit(a, i) == has_bit(0, i) by {
            lemma_single_bit(0, i);
        }
        lemma_bits_equal(a, 0);
    }
}

/// Membership in `mask_below(pred, n)`.
pub proof fn lemma_mask_below(pred: spec_fn(int) -> bool, n: nat, i: int)
    requires
        n <= 64,
    ensures
        has_bit(mask_below(pred, n), i) == (0 <= i < n && pred(i)),
    decreases n,
{
    if n == 0 {
        lemma_single_bit(0, i);
    } else {
        lemma_mask_below(pred, (n - 1) as nat, i);
        if pred(n - 1) {
            lemma_bit_ops(mask_below(pred, (n - 1) as nat), bit(n - 1), i);
            lemma_single_bit(n - 1, i);
        }
    }
}

/// Membership in `mask_of(pred)`.
pub proof fn lemma_mask_of(pred: spec_fn(int) -> bool, i: int)
    ensures
        has_bit(mask_of(pred), i) == (0 <= i < 64 && pred(i)),
{
    lemma_mask_below(pred, 64, i);
}

/// A word whose members are the indices that satisfy `pred` is `mask_of(pred)`.
pub proof fn lemma_mask_of_unique(pred: spec_fn(int) -> bool, a: u64)
    requires
        forall|i: int| 0 <= i < 64 ==> has_bit(a, i) == pred(i),
    ensures
        a == mask_of(pred),
{
    assert forall|i: int| 0 <= i < 64 implies has_bit(a, i) == has_bit(mask_of(pred), i) by {
        lemma_mask_of(pred, i);
    }
    lemma_bits_equal(a, mask_of(pred));
}

/// No more than `n` bits lie below index `n`.
pub proof fn lemma_count_bound(set: u64, n: nat)
    ensures
        count_below(set, n) <= n,
    decreases n,
{
    if n > 0 {
        lemma_count_bound(set, (n - 1) as nat);
    }
}

/// Counting is additive over sets that share no member.
pub proof fn lemma_count_disjoint(a: u64, b: u64, n: nat)
    requires
        a & b == 0,
    ensures
        count_below(a | b, n) == count_below(a, n) + count_below(b, n),
    decreases n,
{
    if n > 0 {
        lemma_count_disjoint(a, b, (n - 1) as nat);
        lemma_bit_ops(a, b, n - 1);
        lemma_single_bit(0, n - 1);
    }
}

/// A set with one member counts one below any index above that member.
pub proof fn lemma_count_single(j: int, n: nat)
    requires
        0 <= j < 64,
    ensures
        count_below(bit(j), n) == if j < n { 1nat } else { 0nat },
    decreases n,
{
    if n > 0 {
        lemma_count_single(j, (n - 1) as nat);
        lemma_single_bit(j, n - 1);
    }
}

/// The empty set counts zero.
pub proof fn lemma_count_zero(n: nat)
    ensures
        count_below(0, n) == 0,
    decreases n,
{
    if n > 0 {
        lemma_count_zero((n - 1) as nat);
        lemma_single_bit(0, n - 1);
    }
}

/// The shift-and-or form computes `top_bit`.
pub proof fn lemma_smear_top(x: u64)
    ensures
        smear_top(x) == top_bit(x),
{
    axiom_u64_leading_zeros(x);
    if x == 0 {
        assert(smear_top(0) == 0) by (bit_vector);
    } else {
        let k = (63 - u64_leading_zeros(x)) as u64;
        let above = (k + 1) as u64;
        assert(above == (64 - u64_leading_zeros(x)) as u64);
        assert(smear_top(x) == 1u64 << k) by (bit_vector)
            requires
                k < 64,
                above == k + 1,
                (x >> k) & 1 != 0,
                x >> above == 0,
        ;
    }
}

/// The most significant set bit of `x`, alone; zero where `x` is zero.
pub fn upper_bit(x: u64) -> (r: u64)
    ensures
        r == top_bit(x),
{
    let mut x = x;
    let ghost x0 = x;
    x = x | (x >> 1);
    x = x | (x >> 2);
    x = x | (x >> 4);
    x = x | (x >> 8);
    x = x | (x >> 16);
    x = x | (x >> 32);
    let lowers: u64 = x >> 1;
    proof {
        lemma_smear_top(x0);
    }
    x & !lowers
}

/// One if `x` holds any bit, zero otherwise.
pub fn nonzero(x: u64) -> (r: u64)
    ensures
        r == if x != 0 { 1u64 } else { 0u64 },
{
    if x != 0 {
        1
    } else {
        0
    }
}

} // verus!
