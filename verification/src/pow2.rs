//! The power-of-two validator shared by both transforms.

use vstd::prelude::*;

verus! {

/// `n` is an exact power of two: 1, 2, 4, 8, ...  Zero is not one.
pub open spec fn is_pow2(n: nat) -> bool
    decreases n,
{
    if n == 0 {
        false
    } else if n == 1 {
        true
    } else {
        n % 2 == 0 && is_pow2(n / 2)
    }
}

/// For nonzero `n`, clearing the lowest set bit with `n & (n - 1)` leaves
/// zero exactly when `n` had a single set bit, that is, was a power of two.
proof fn lemma_pow2_bit_trick(n: usize)
    requires
        n >= 1,
    ensures
        (n & (n - 1) as usize == 0) <==> is_pow2(n as nat),
    decreases n,
{
    if n == 1 {
        assert(1usize & 0usize == 0) by (bit_vector);
    } else if n % 2 == 0 {
        assert((n & (n - 1) as usize == 0) <==> ((n / 2) & (n / 2 - 1) as usize == 0))
            by (bit_vector)
            requires
                n >= 2 && n % 2 == 0,
        ;
        lemma_pow2_bit_trick((n / 2) as usize);
    } else {
        assert(n & (n - 1) as usize != 0) by (bit_vector)
            requires
                n >= 3 && n % 2 == 1,
        ;
    }
}

/// Determine whether unsigned `n` is a pure power of two, in O(1) time.
pub fn power_of_2(n: usize) -> (r: bool)
    ensures
        r == is_pow2(n as nat),
{
    if n == 0 {
        false
    } else {
        proof {
            lemma_pow2_bit_trick(n);
        }
        n & (n - 1) == 0
    }
}

/// A power of two of at least two splits into two halves that are again
/// a power of two, stated over `int` values as the index lemmas use them.
pub proof fn lemma_pow2_int_halves(n: int)
    requires
        n >= 2,
        is_pow2(n as nat),
    ensures
        n % 2 == 0,
        n / 2 >= 1,
        is_pow2((n / 2) as nat),
{
    assert((n as nat) % 2 == n % 2);
    assert(((n as nat) / 2) as int == n / 2);
}

/// A power of two below another power of two is at most half of it.
pub proof fn lemma_pow2_le_half(a: nat, b: nat)
    requires
        is_pow2(a),
        is_pow2(b),
        a < b,
    ensures
        2 * a <= b,
    decreases b,
{
    if a == b / 2 {
    } else if a < b / 2 {
        lemma_pow2_le_half(a, b / 2);
    } else {
        lemma_pow2_le_half(b / 2, a);
    }
}

/// A smaller power of two divides a larger one.
pub proof fn lemma_pow2_divides(a: nat, b: nat)
    requires
        is_pow2(a),
        is_pow2(b),
        a <= b,
    ensures
        b % a == 0,
    decreases b,
{
    if a == b {
        vstd::arithmetic::div_mod::lemma_mod_self_0(a as int);
    } else {
        lemma_pow2_le_half(a, b);
        lemma_pow2_divides(a, b / 2);
        let q = (b / 2) / a;
        vstd::arithmetic::div_mod::lemma_fundamental_div_mod(b as int / 2, a as int);
        assert(b == (2 * q) * a) by (nonlinear_arith)
            requires
                b % 2 == 0 && b / 2 == q * a as int + 0 && b >= 2,
        ;
        vstd::arithmetic::div_mod::lemma_mod_multiples_basic(2 * q as int, a as int);
    }
}

} // verus!
