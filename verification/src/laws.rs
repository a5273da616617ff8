//! Laws the transforms obey: applying the Hadamard transform twice
//! multiplies every element by the sequence length — so dividing by the
//! length after two applications recovers the input — and both transforms
//! leave a one-element sequence unchanged.  The matching law for the
//! sequency ordering lives in `seq_laws`.

use crate::pow2::{is_pow2, lemma_pow2_divides, lemma_pow2_int_halves, lemma_pow2_le_half};
use crate::walsh::{
    had_from, had_stage, hadamard_spec, rev_perm, seq_add, seq_from, seq_scale, seq_sub,
    sequency_spec,
};
use vstd::arithmetic::div_mod::{
    lemma_fundamental_div_mod, lemma_fundamental_div_mod_converse,
};
use vstd::prelude::*;

verus! {

/// The Hadamard transform written as its divide-and-combine recursion:
/// transform each half, then join the halves' pointwise sum with their
/// pointwise difference.
pub open spec fn had_rec(s: Seq<int>) -> Seq<int>
    decreases s.len(),
{
    if s.len() <= 1 {
        s
    } else {
        let a = had_rec(s.take(s.len() as int / 2));
        let b = had_rec(s.skip(s.len() as int / 2));
        seq_add(a, b) + seq_sub(a, b)
    }
}

/// The recursion keeps the length of the sequence.
proof fn lemma_had_rec_len(s: Seq<int>)
    requires
        is_pow2(s.len() as nat),
    ensures
        had_rec(s).len() == s.len(),
    decreases s.len(),
{
    if s.len() <= 1 {
    } else {
        lemma_pow2_int_halves(s.len() as int);
        lemma_had_rec_len(s.take(s.len() as int / 2));
        lemma_had_rec_len(s.skip(s.len() as int / 2));
    }
}

/// A butterfly rank whose groups divide the first half acts on the two
/// halves of a sequence independently.
proof fn lemma_had_stage_split(a: Seq<int>, b: Seq<int>, lag: int)
    requires
        a.len() == b.len(),
        lag >= 1,
        a.len() as int % (2 * lag) == 0,
    ensures
        had_stage(a + b, lag) == had_stage(a, lag) + had_stage(b, lag),
{
    let m = a.len() as int;
    let s = a + b;
    let t = m / (2 * lag);
    lemma_fundamental_div_mod(m, 2 * lag);
    assert(m == (2 * lag) * t);
    assert(m == (2 * t) * lag && m / lag == 2 * t) by (nonlinear_arith)
        requires
            m == (2 * lag) * t && lag >= 1,
    ;
    lemma_fundamental_div_mod_converse(m, lag, 2 * t, 0);
    assert forall|p: int| 0 <= p < 2 * m implies #[trigger] had_stage(s, lag)[p] == (had_stage(
        a,
        lag,
    ) + had_stage(b, lag))[p] by {
        let q = p / lag;
        let r = p % lag;
        lemma_fundamental_div_mod(p, lag);
        if p < m {
            assert(q < 2 * t && q >= 0) by (nonlinear_arith)
                requires
                    p == lag * q + r && 0 <= r < lag && 0 <= p < m && m == (2 * t) * lag && lag
                        >= 1,
            ;
            if q % 2 == 0 {
                assert(q <= 2 * t - 2);
                assert(p + lag < m) by (nonlinear_arith)
                    requires
                        p == lag * q + r && 0 <= r < lag && q <= 2 * t - 2 && m == (2 * t) * lag
                            && lag >= 1,
                ;
            } else {
                assert(q >= 1);
                assert(p - lag >= 0) by (nonlinear_arith)
                    requires
                        p == lag * q + r && 0 <= r < lag && q >= 1 && lag >= 1,
                ;
            }
        } else {
            let pp = p - m;
            lemma_fundamental_div_mod(pp, lag);
            assert(p == lag * (2 * t + pp / lag) + pp % lag) by (nonlinear_arith)
                requires
                    p == m + pp && m == (2 * t) * lag && pp == lag * (pp / lag) + pp % lag,
            ;
            lemma_fundamental_div_mod_converse(p, lag, 2 * t + pp / lag, pp % lag);
            assert(q == 2 * t + pp / lag);
            let qq = pp / lag;
            assert(q % 2 == qq % 2);
            assert(0 <= qq < 2 * t) by (nonlinear_arith)
                requires
                    pp == lag * qq + pp % lag && 0 <= pp % lag < lag && 0 <= pp < m && m == (2 * t)
                        * lag && lag >= 1,
            ;
            if qq % 2 == 0 {
                assert(qq <= 2 * t - 2);
                assert(pp + lag < m) by (nonlinear_arith)
                    requires
                        pp == lag * qq + pp % lag && 0 <= pp % lag < lag && qq <= 2 * t - 2 && m
                            == (2 * t) * lag && lag >= 1,
                ;
            } else {
                assert(qq >= 1);
                assert(pp - lag >= 0) by (nonlinear_arith)
                    requires
                        pp == lag * qq + pp % lag && 0 <= pp % lag < lag && qq >= 1 && lag >= 1,
                ;
            }
        }
    }
    assert(had_stage(s, lag) =~= had_stage(a, lag) + had_stage(b, lag));
}

/// Running the butterfly ranks over a doubled sequence equals running
/// them over each half and then joining sum and difference: the ranks
/// below the midpoint act within the halves, and the final rank joins
/// them.
proof fn lemma_had_from_split(a: Seq<int>, b: Seq<int>, lag: int)
    requires
        a.len() == b.len(),
        is_pow2(a.len() as nat),
        is_pow2(lag as nat),
        1 <= lag <= a.len(),
    ensures
        had_from(a + b, lag) == seq_add(had_from(a, lag), had_from(b, lag)) + seq_sub(
            had_from(a, lag),
            had_from(b, lag),
        ),
    decreases a.len() - lag,
{
    let m = a.len() as int;
    let s = a + b;
    crate::walsh::lemma_had_from_len(a, lag);
    crate::walsh::lemma_had_from_len(b, lag);
    if lag == m {
        assert(s.len() == 2 * m);
        assert(had_from(s, m) == had_from(had_stage(s, m), 2 * m));
        assert(had_stage(s, m).len() == 2 * m);
        assert(had_from(had_stage(s, m), 2 * m) == had_stage(s, m));
        assert(had_from(a, m) == a && had_from(b, m) == b);
        assert forall|p: int| 0 <= p < 2 * m implies #[trigger] had_stage(s, m)[p] == (seq_add(a, b)
            + seq_sub(a, b))[p] by {
            if p < m {
                lemma_fundamental_div_mod_converse(p, m, 0, p);
                assert(p / m == 0);
            } else {
                lemma_fundamental_div_mod_converse(p, m, 1, p - m);
            }
        }
        assert(had_stage(s, m) =~= seq_add(a, b) + seq_sub(a, b));
    } else {
        lemma_pow2_le_half(lag as nat, m as nat);
        lemma_pow2_divides(2 * lag as nat, m as nat);
        lemma_had_stage_split(a, b, lag);
        assert(is_pow2((2 * lag) as nat)) by {
            assert(((2 * lag) as nat) % 2 == 0);
            assert(((2 * lag) as nat) / 2 == lag as nat);
        }
        lemma_had_from_split(had_stage(a, lag), had_stage(b, lag), 2 * lag);
        assert(had_from(s, lag) == had_from(had_stage(s, lag), 2 * lag));
        assert(had_from(a, lag) == had_from(had_stage(a, lag), 2 * lag));
        assert(had_from(b, lag) == had_from(had_stage(b, lag), 2 * lag));
    }
}

/// The rank-by-rank form of the Hadamard transform equals the
/// divide-and-combine recursion.
pub proof fn lemma_hadamard_rec(s: Seq<int>)
    requires
        is_pow2(s.len() as nat),
    ensures
        hadamard_spec(s) == had_rec(s),
    decreases s.len(),
{
    let n = s.len() as int;
    if n == 1 {
    } else {
        lemma_pow2_int_halves(n);
        let m = n / 2;
        let a = s.take(m);
        let b = s.skip(m);
        assert(s =~= a + b);
        lemma_had_from_split(a, b, 1);
        lemma_hadamard_rec(a);
        lemma_hadamard_rec(b);
        assert(had_rec(s) == seq_add(had_rec(a), had_rec(b)) + seq_sub(had_rec(a), had_rec(b)));
    }
}

/// The recursion is additive: transforming a pointwise sum gives the
/// pointwise sum of the transforms.
proof fn lemma_had_rec_add(x: Seq<int>, y: Seq<int>)
    requires
        x.len() == y.len(),
        is_pow2(x.len() as nat),
    ensures
        had_rec(seq_add(x, y)) == seq_add(had_rec(x), had_rec(y)),
    decreases x.len(),
{
    let n = x.len() as int;
    if n <= 1 {
        assert(had_rec(seq_add(x, y)) =~= seq_add(had_rec(x), had_rec(y)));
    } else {
        lemma_pow2_int_halves(n);
        let m = n / 2;
        assert(seq_add(x, y).take(m) =~= seq_add(x.take(m), y.take(m)));
        assert(seq_add(x, y).skip(m) =~= seq_add(x.skip(m), y.skip(m)));
        lemma_had_rec_add(x.take(m), y.take(m));
        lemma_had_rec_add(x.skip(m), y.skip(m));
        lemma_had_rec_len(x.take(m));
        lemma_had_rec_len(x.skip(m));
        lemma_had_rec_len(y.take(m));
        lemma_had_rec_len(y.skip(m));
        assert(had_rec(seq_add(x, y)) =~= seq_add(had_rec(x), had_rec(y)));
    }
}

/// The recursion respects pointwise differences as well.
proof fn lemma_had_rec_sub(x: Seq<int>, y: Seq<int>)
    requires
        x.len() == y.len(),
        is_pow2(x.len() as nat),
    ensures
        had_rec(seq_sub(x, y)) == seq_sub(had_rec(x), had_rec(y)),
    decreases x.len(),
{
    let n = x.len() as int;
    if n <= 1 {
        assert(had_rec(seq_sub(x, y)) =~= seq_sub(had_rec(x), had_rec(y)));
    } else {
        lemma_pow2_int_halves(n);
        let m = n / 2;
        assert(seq_sub(x, y).take(m) =~= seq_sub(x.take(m), y.take(m)));
        assert(seq_sub(x, y).skip(m) =~= seq_sub(x.skip(m), y.skip(m)));
        lemma_had_rec_sub(x.take(m), y.take(m));
        lemma_had_rec_sub(x.skip(m), y.skip(m));
        lemma_had_rec_len(x.take(m));
        lemma_had_rec_len(x.skip(m));
        lemma_had_rec_len(y.take(m));
        lemma_had_rec_len(y.skip(m));
        assert(had_rec(seq_sub(x, y)) =~= seq_sub(had_rec(x), had_rec(y)));
    }
}

/// The recursion applied twice multiplies every element by the length.
proof fn lemma_had_rec_involution(s: Seq<int>)
    requires
        is_pow2(s.len() as nat),
    ensures
        had_rec(had_rec(s)) == seq_scale(s.len() as int, s),
    decreases s.len(),
{
    let n = s.len() as int;
    if n == 1 {
        assert(had_rec(had_rec(s)) =~= seq_scale(1, s));
    } else {
        lemma_pow2_int_halves(n);
        let m = n / 2;
        let a = s.take(m);
        let b = s.skip(m);
        let x = had_rec(a);
        let y = had_rec(b);
        lemma_had_rec_len(a);
        lemma_had_rec_len(b);
        let r = had_rec(s);
        assert(r == seq_add(x, y) + seq_sub(x, y));
        assert(r.len() == n);
        assert(r.take(m) =~= seq_add(x, y));
        assert(r.skip(m) =~= seq_sub(x, y));
        lemma_had_rec_add(x, y);
        lemma_had_rec_sub(x, y);
        lemma_had_rec_involution(a);
        lemma_had_rec_involution(b);
        assert(had_rec(r) == seq_add(had_rec(seq_add(x, y)), had_rec(seq_sub(x, y))) + seq_sub(
            had_rec(seq_add(x, y)),
            had_rec(seq_sub(x, y)),
        ));
        lemma_had_rec_len(seq_add(x, y));
        lemma_had_rec_len(x);
        lemma_had_rec_len(y);
        assert forall|p: int| 0 <= p < n implies #[trigger] had_rec(r)[p] == n * s[p] by {
            if p < m {
                assert(had_rec(r)[p] == (m * a[p] + m * b[p]) + (m * a[p] - m * b[p]));
                assert(n * s[p] == m * s[p] + m * s[p]) by (nonlinear_arith)
                    requires
                        n == 2 * m,
                ;
                assert(a[p] == s[p]);
            } else {
                assert(had_rec(r)[p] == (m * a[p - m] + m * b[p - m]) - (m * a[p - m] - m * b[p
                    - m]));
                assert(n * s[p] == m * s[p] + m * s[p]) by (nonlinear_arith)
                    requires
                        n == 2 * m,
                ;
                assert(b[p - m] == s[p]);
            }
        }
        assert(had_rec(r) =~= seq_scale(n, s));
    }
}

/// Round trip: the Hadamard transform applied twice multiplies every
/// element by the sequence length, so scaling the doubly transformed
/// sequence down by its length recovers the original sequence.
pub proof fn lemma_hadamard_round_trip(s: Seq<int>)
    requires
        is_pow2(s.len() as nat),
    ensures
        hadamard_spec(hadamard_spec(s)) == seq_scale(s.len() as int, s),
{
    lemma_hadamard_rec(s);
    lemma_had_rec_len(s);
    lemma_hadamard_rec(had_rec(s));
    lemma_had_rec_involution(s);
}

/// Identity at length one: both transforms return a one-element sequence
/// unchanged.
pub proof fn lemma_transform_length_one(s: Seq<int>)
    requires
        s.len() == 1,
    ensures
        hadamard_spec(s) == s,
        sequency_spec(s) == s,
{
    assert(crate::bitrev::bitrev(1, 0) == 0);
    assert(rev_perm(s) =~= s);
    assert(seq_from(rev_perm(s), 1) == rev_perm(s));
}

} // verus!
