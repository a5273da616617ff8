//! Mathematical models of the two fast Walsh transforms: the butterfly
//! ranks as whole-sequence maps over unbounded integers, and the bounds
//! that keep a run of butterflies inside `i64`.

use crate::bitrev::bitrev;
use vstd::arithmetic::div_mod::{lemma_div_pos_is_pos, lemma_fundamental_div_mod};
use vstd::prelude::*;

verus! {

/// The mathematical contents of a sequence of machine integers.
pub open spec fn to_int_seq(s: Seq<i64>) -> Seq<int> {
    s.map_values(|x: i64| x as int)
}

/// Every element lies in the band `[-b, b]`.
pub open spec fn in_range(s: Seq<int>, b: int) -> bool {
    forall|p: int| 0 <= p < s.len() ==> -b <= #[trigger] s[p] <= b
}

/// The widest band of input values that a transform of length `len` carries
/// through `i64` without overflow: a run of butterflies can grow an element
/// magnitude by at most a factor of the length.
pub open spec fn elem_bound(len: int) -> int {
    if len <= 0 {
        i64::MAX as int
    } else {
        i64::MAX as int / len
    }
}

/// One rank of Hadamard butterflies: each index pairs with its partner at
/// distance `lag`, the lower index of every pair receives the sum and the
/// upper one the difference.
pub open spec fn had_stage(s: Seq<int>, lag: int) -> Seq<int> {
    Seq::new(
        s.len(),
        |p: int|
            if (p / lag) % 2 == 0 {
                s[p] + s[p + lag]
            } else {
                s[p - lag] - s[p]
            },
    )
}

/// The Hadamard butterfly ranks with pair distances `lag`, `2 * lag`, and
/// so on, doubling until the distance reaches the length of `s`.
pub open spec fn had_from(s: Seq<int>, lag: int) -> Seq<int>
    decreases (if 1 <= lag && lag <= s.len() { s.len() - lag } else { 0 }),
{
    if lag < 1 || lag >= s.len() {
        s
    } else {
        had_from(had_stage(s, lag), 2 * lag)
    }
}

/// Hadamard (natural) ordered fast Walsh transform: butterfly ranks from
/// adjacent pairs up to halves of the whole sequence.
pub open spec fn hadamard_spec(s: Seq<int>) -> Seq<int> {
    had_from(s, 1)
}

/// One rank of sequency butterflies: the sequence splits into groups of
/// `offset` consecutive elements, and within a group the element at depth
/// below `offset / 2` pairs with the one `offset / 2` later.  Groups of
/// even index put the sum at the lower position and the difference at the
/// upper; groups of odd index do the reverse.  The alternation is what
/// yields sequency rather than natural ordering.
pub open spec fn seq_stage(s: Seq<int>, offset: int) -> Seq<int> {
    let lag = offset / 2;
    Seq::new(
        s.len(),
        |p: int|
            if p % offset < lag {
                if (p / offset) % 2 == 0 {
                    s[p] + s[p + lag]
                } else {
                    s[p] - s[p + lag]
                }
            } else {
                if (p / offset) % 2 == 0 {
                    s[p - lag] - s[p]
                } else {
                    s[p - lag] + s[p]
                }
            },
    )
}

/// The sequency butterfly ranks with group sizes `offset`, `offset / 2`,
/// and so on, halving down to pairs.
pub open spec fn seq_from(s: Seq<int>, offset: int) -> Seq<int>
    decreases (if offset >= 0 { offset } else { 0 }),
{
    if offset <= 1 {
        s
    } else {
        seq_from(seq_stage(s, offset), offset / 2)
    }
}

/// The input reordered by the bit-reversal permutation.
pub open spec fn rev_perm(s: Seq<int>) -> Seq<int> {
    Seq::new(s.len(), |p: int| s[bitrev(s.len() as int, p)])
}

/// Sequency (Manz) ordered fast Walsh transform: bit-reversal reorder,
/// then sequency butterfly ranks from whole-sequence groups down to pairs.
pub open spec fn sequency_spec(s: Seq<int>) -> Seq<int> {
    seq_from(rev_perm(s), s.len() as int)
}

/// Pointwise sum of two sequences of the same length.
pub open spec fn seq_add(x: Seq<int>, y: Seq<int>) -> Seq<int>
    recommends
        x.len() == y.len(),
{
    Seq::new(x.len(), |p: int| x[p] + y[p])
}

/// Pointwise difference of two sequences of the same length.
pub open spec fn seq_sub(x: Seq<int>, y: Seq<int>) -> Seq<int>
    recommends
        x.len() == y.len(),
{
    Seq::new(x.len(), |p: int| x[p] - y[p])
}

/// Every element multiplied by the factor `k`.
pub open spec fn seq_scale(k: int, x: Seq<int>) -> Seq<int> {
    Seq::new(x.len(), |p: int| k * x[p])
}

/// The band is nonnegative and, blown up by the full factor of the
/// length, still fits in `i64`.
pub proof fn lemma_elem_bound_mul(len: int)
    requires
        len >= 1,
    ensures
        0 <= elem_bound(len),
        elem_bound(len) * len <= i64::MAX as int,
{
    let b = elem_bound(len);
    lemma_div_pos_is_pos(i64::MAX as int, len);
    lemma_fundamental_div_mod(i64::MAX as int, len);
    assert(i64::MAX as int == len * b + i64::MAX as int % len);
}

/// A run of Hadamard ranks keeps the length of the sequence.
pub proof fn lemma_had_from_len(s: Seq<int>, lag: int)
    ensures
        had_from(s, lag).len() == s.len(),
    decreases (if 1 <= lag && lag <= s.len() { s.len() - lag } else { 0 }),
{
    if lag < 1 || lag >= s.len() {
    } else {
        lemma_had_from_len(had_stage(s, lag), 2 * lag);
    }
}

/// A run of sequency ranks keeps the length of the sequence.
pub proof fn lemma_seq_from_len(s: Seq<int>, offset: int)
    ensures
        seq_from(s, offset).len() == s.len(),
    decreases (if offset >= 0 { offset } else { 0 }),
{
    if offset <= 1 {
    } else {
        lemma_seq_from_len(seq_stage(s, offset), offset / 2);
    }
}

} // verus!
