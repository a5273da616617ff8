//! The bit-reversal permutation index map and the incremental counter
//! that walks it, used by the sequency transform's reordering phase.

use crate::pow2::{is_pow2, lemma_pow2_int_halves};
use vstd::arithmetic::div_mod::{
    lemma_div_denominator, lemma_fundamental_div_mod, lemma_fundamental_div_mod_converse,
    lemma_mod_breakdown,
};
use vstd::prelude::*;

verus! {

/// Index `i` with its bits written in reverse order, for indices below a
/// power of two `n`: the lowest bit of `i` becomes the highest bit of the
/// result, and so on through all `log2(n)` bit positions.
pub open spec fn bitrev(n: int, i: int) -> int
    decreases n,
{
    if n <= 1 {
        0
    } else {
        (i % 2) * (n / 2) + bitrev(n / 2, i / 2)
    }
}

/// One advance of the classic bit-reversed counter: starting from mask `k`,
/// strip set bits downward while the mask fits, then set the final mask bit.
pub open spec fn rinc(j: int, k: int) -> int
    decreases k,
{
    if 1 <= k <= j {
        rinc(j - k, k / 2)
    } else {
        j + k
    }
}

/// Zero is a palindrome: no bits are set.
pub proof fn lemma_bitrev_zero(n: int)
    ensures
        bitrev(n, 0) == 0,
    decreases n,
{
    if n <= 1 {
    } else {
        lemma_bitrev_zero(n / 2);
        assert(bitrev(n, 0) == (0int % 2) * (n / 2) + bitrev(n / 2, 0));
        assert((0int % 2) * (n / 2) == 0 * (n / 2));
        assert(0 * (n / 2) == 0) by (nonlinear_arith);
    }
}

/// Reversing the bits of an index below `n` gives an index below `n`.
pub proof fn lemma_bitrev_range(n: int, i: int)
    requires
        is_pow2(n as nat),
        0 <= i < n,
    ensures
        0 <= bitrev(n, i) < n,
    decreases n,
{
    if n == 1 {
    } else {
        lemma_pow2_int_halves(n);
        lemma_bitrev_range(n / 2, i / 2);
        assert((i % 2) * (n / 2) <= n / 2) by {
            if i % 2 == 0 {
                assert((i % 2) * (n / 2) == 0);
            } else {
                assert((i % 2) * (n / 2) == n / 2);
            }
        }
        assert(0 <= (i % 2) * (n / 2)) by {
            if i % 2 == 0 {
                assert((i % 2) * (n / 2) == 0);
            } else {
                assert((i % 2) * (n / 2) == n / 2);
            }
        }
    }
}

/// The reversal can be peeled from the high end as well as from the low
/// end: the top bit of `bitrev(n, i)` comes from the lowest bit of `i`
/// via the definition, and this lemma gives the complementary unfolding.
pub proof fn lemma_bitrev_high(n: int, i: int)
    requires
        is_pow2(n as nat),
        n >= 2,
        0 <= i < n,
    ensures
        bitrev(n, i) == 2 * bitrev(n / 2, i % (n / 2)) + i / (n / 2),
    decreases n,
{
    let h = n / 2;
    if n == 2 {
        assert(bitrev(2, i) == (i % 2) * 1 + bitrev(1, i / 2));
        assert(bitrev(1, i % 1) == 0);
        lemma_fundamental_div_mod_converse(i, 1, i, 0);
        assert(i / 1 == i && i % 2 == i);
    } else {
        let m = n / 4;
        lemma_pow2_int_halves(n);
        assert(n >= 4);
        lemma_pow2_int_halves(h);
        assert(h / 2 == m) by {
            lemma_div_denominator(n, 2, 2);
        }
        assert(h == 2 * m) by {
            lemma_fundamental_div_mod(h, 2);
        }
        lemma_mod_breakdown(i, 2, m);
        assert(i % h == 2 * ((i / 2) % m) + i % 2);
        lemma_fundamental_div_mod_converse(i % h, 2, (i / 2) % m, i % 2);
        assert((i % h) / 2 == (i / 2) % m);
        assert((i % h) % 2 == i % 2);
        lemma_div_denominator(i, 2, m);
        assert((i / 2) / m == i / h);
        lemma_bitrev_high(h, i / 2);
        assert(bitrev(h, i / 2) == 2 * bitrev(m, (i / 2) % m) + (i / 2) / m);
        assert(bitrev(h, i % h) == ((i % h) % 2) * m + bitrev(m, (i % h) / 2));
        assert(bitrev(n, i) == (i % 2) * h + bitrev(h, i / 2));
        assert((i % 2) * h == 2 * ((i % 2) * m)) by (nonlinear_arith)
            requires
                h == 2 * m,
        ;
    }
}

/// Reversing the bits of an index twice gives the index back.
pub proof fn lemma_bitrev_involution(n: int, i: int)
    requires
        is_pow2(n as nat),
        0 <= i < n,
    ensures
        bitrev(n, bitrev(n, i)) == i,
    decreases n,
{
    if n == 1 {
    } else {
        lemma_pow2_int_halves(n);
        let h = n / 2;
        let r = bitrev(h, i / 2);
        lemma_bitrev_range(h, i / 2);
        let b = bitrev(n, i);
        assert(b == (i % 2) * h + r);
        lemma_bitrev_range(n, i);
        lemma_bitrev_high(n, b);
        lemma_fundamental_div_mod_converse(b, h, i % 2, r);
        assert(b % h == r && b / h == i % 2);
        lemma_bitrev_involution(h, i / 2);
        assert(bitrev(n, b) == 2 * (i / 2) + i % 2);
        lemma_fundamental_div_mod(i, 2);
    }
}

/// The largest index is a palindrome: all its bits are set.
pub proof fn lemma_bitrev_fixes_last(n: int)
    requires
        n >= 1,
        is_pow2(n as nat),
    ensures
        bitrev(n, n - 1) == n - 1,
    decreases n,
{
    if n == 1 {
    } else {
        lemma_pow2_int_halves(n);
        assert((n - 1) % 2 == 1 && (n - 1) / 2 == n / 2 - 1) by {
            lemma_fundamental_div_mod_converse(n - 1, 2, n / 2 - 1, 1);
        }
        lemma_bitrev_fixes_last(n / 2);
    }
}

/// Advancing the counter from the reversal of `i` lands on the reversal
/// of `i + 1`: the strip-and-set walk is carry propagation seen from the
/// top bit down.
pub proof fn lemma_rinc_bitrev(n: int, i: int)
    requires
        is_pow2(n as nat),
        0 <= i,
        i + 1 < n,
    ensures
        rinc(bitrev(n, i), n / 2) == bitrev(n, i + 1),
    decreases n,
{
    let h = n / 2;
    if n == 2 {
        assert(bitrev(2, 0) == 0 && bitrev(2, 1) == 1);
        assert(rinc(0, 1) == 1);
    } else {
        lemma_pow2_int_halves(n);
        if i % 2 == 0 {
            assert(bitrev(n, i) == bitrev(h, i / 2));
            lemma_bitrev_range(h, i / 2);
            assert(rinc(bitrev(n, i), h) == bitrev(n, i) + h);
            assert((i + 1) % 2 == 1 && (i + 1) / 2 == i / 2) by {
                lemma_fundamental_div_mod(i, 2);
                lemma_fundamental_div_mod_converse(i + 1, 2, i / 2, 1);
            }
            assert(bitrev(n, i + 1) == h + bitrev(h, i / 2));
        } else {
            assert(bitrev(n, i) == h + bitrev(h, i / 2));
            lemma_bitrev_range(h, i / 2);
            assert(h >= 1);
            assert(rinc(h + bitrev(h, i / 2), h) == rinc(bitrev(h, i / 2), h / 2));
            assert(i / 2 + 1 < h) by {
                lemma_fundamental_div_mod(i, 2);
            }
            lemma_rinc_bitrev(h, i / 2);
            assert((i + 1) % 2 == 0 && (i + 1) / 2 == i / 2 + 1) by {
                lemma_fundamental_div_mod(i, 2);
                lemma_fundamental_div_mod_converse(i + 1, 2, i / 2 + 1, 0);
            }
            assert(bitrev(n, i + 1) == bitrev(h, i / 2 + 1));
        }
    }
}

} // verus!
