//! Round-trip law for the sequency ordering: applying the transform
//! twice multiplies every element by the sequence length.
//!
//! The proof generalises the butterfly run with the position of the
//! processed span inside a larger sequence: the parity that decides the
//! add/subtract roles of a group is its global index, so a span's run is
//! described by its base offset.  A run over a doubled span then splits
//! into the two halves' runs, which yields an even/odd interleaving
//! recursion for the transform and, from it, the involution.

use crate::bitrev::{bitrev, lemma_bitrev_high, lemma_bitrev_range};
use crate::pow2::{is_pow2, lemma_pow2_divides, lemma_pow2_int_halves};
use crate::walsh::{
    rev_perm, seq_add, seq_from, seq_scale, seq_stage, seq_sub, sequency_spec,
};
use vstd::arithmetic::mul::{lemma_mul_is_distributive_add, lemma_mul_is_distributive_sub};
use vstd::arithmetic::div_mod::{
    lemma_fundamental_div_mod, lemma_fundamental_div_mod_converse,
};
use vstd::prelude::*;

verus! {

/// One sequency butterfly rank of a span that starts `base` positions
/// into the surrounding sequence: group parities are counted from the
/// start of the whole sequence, so the local parity is shifted by
/// `base / offset`.
spec fn stage_at(s: Seq<int>, offset: int, base: int) -> Seq<int> {
    let lag = offset / 2;
    Seq::new(
        s.len(),
        |p: int|
            if p % offset < lag {
                if (p / offset + base / offset) % 2 == 0 {
                    s[p] + s[p + lag]
                } else {
                    s[p] - s[p + lag]
                }
            } else {
                if (p / offset + base / offset) % 2 == 0 {
                    s[p - lag] - s[p]
                } else {
                    s[p - lag] + s[p]
                }
            },
    )
}

/// The sequency butterfly ranks of a span that starts `base` positions
/// into the surrounding sequence, with group sizes `offset` down to
/// pairs.
spec fn run_at(s: Seq<int>, offset: int, base: int) -> Seq<int>
    decreases (if offset >= 0 { offset } else { 0 }),
{
    if offset <= 1 {
        s
    } else {
        run_at(stage_at(s, offset, base), offset / 2, base)
    }
}

/// The transform of the span that forms the odd half of a doubled span:
/// its run with the base shifted by its own length.
spec fn odd_transform(s: Seq<int>) -> Seq<int> {
    run_at(rev_perm(s), s.len() as int, s.len() as int)
}

/// The elements at even positions.
spec fn even_part(s: Seq<int>) -> Seq<int> {
    Seq::new(s.len() / 2, |i: int| s[2 * i])
}

/// The elements at odd positions.
spec fn odd_part(s: Seq<int>) -> Seq<int> {
    Seq::new(s.len() / 2, |i: int| s[2 * i + 1])
}

/// The sequence read back to front.
spec fn reversed(s: Seq<int>) -> Seq<int> {
    Seq::new(s.len(), |i: int| s[s.len() - 1 - i])
}

/// The sequence with the sign of every odd position flipped.
spec fn alt_signs(s: Seq<int>) -> Seq<int> {
    Seq::new(
        s.len(),
        |i: int|
            if i % 2 == 0 {
                s[i]
            } else {
                -s[i]
            },
    )
}

/// A run keeps the length of the span.
proof fn lemma_run_at_len(s: Seq<int>, offset: int, base: int)
    ensures
        run_at(s, offset, base).len() == s.len(),
    decreases (if offset >= 0 { offset } else { 0 }),
{
    if offset <= 1 {
    } else {
        lemma_run_at_len(stage_at(s, offset, base), offset / 2, base);
    }
}

/// A span based at the start of the sequence runs exactly as the plain
/// rank-by-rank transform.
proof fn lemma_run_at_zero(s: Seq<int>, offset: int)
    ensures
        run_at(s, offset, 0) == seq_from(s, offset),
    decreases (if offset >= 0 { offset } else { 0 }),
{
    if offset <= 1 {
    } else {
        assert(stage_at(s, offset, 0) =~= seq_stage(s, offset));
        lemma_run_at_zero(seq_stage(s, offset), offset / 2);
    }
}

/// Shifting the base by an even number of groups leaves every parity,
/// and so the whole run, unchanged.
proof fn lemma_run_at_period(s: Seq<int>, offset: int, base: int, k: int)
    requires
        offset >= 1,
        is_pow2(offset as nat),
        base >= 0,
        k >= 0,
        base % offset == 0,
    ensures
        run_at(s, offset, base + 2 * offset * k) == run_at(s, offset, base),
    decreases offset,
{
    if offset <= 1 {
    } else {
        lemma_pow2_int_halves(offset);
        let b2 = base + 2 * offset * k;
        assert(b2 / offset == base / offset + 2 * k && b2 % offset == 0) by {
            lemma_fundamental_div_mod(base, offset);
            assert(b2 == (base / offset + 2 * k) * offset + 0) by (nonlinear_arith)
                requires
                    b2 == base + 2 * offset * k && base == offset * (base / offset) + 0,
            ;
            lemma_fundamental_div_mod_converse(b2, offset, base / offset + 2 * k, 0);
        }
        assert(stage_at(s, offset, b2) =~= stage_at(s, offset, base));
        let h = offset / 2;
        assert(base % h == 0) by {
            lemma_fundamental_div_mod(base, offset);
            assert(base == (2 * (base / offset)) * h + 0) by (nonlinear_arith)
                requires
                    base == offset * (base / offset) + 0 && offset == 2 * h,
            ;
            vstd::arithmetic::div_mod::lemma_mod_multiples_basic(2 * (base / offset), h);
        }
        assert(b2 == base + 2 * h * (2 * k)) by (nonlinear_arith)
            requires
                b2 == base + 2 * offset * k && offset == 2 * h,
        ;
        lemma_run_at_period(stage_at(s, offset, base), h, base, 2 * k);
    }
}

/// A butterfly rank of a doubled span acts on the two halves
/// independently, the second half seeing its base advanced by its own
/// length.
proof fn lemma_stage_at_split(x: Seq<int>, y: Seq<int>, offset: int, base: int)
    requires
        x.len() == y.len(),
        offset >= 2,
        offset % 2 == 0,
        x.len() as int % offset == 0,
        base >= 0,
        base % offset == 0,
    ensures
        stage_at(x + y, offset, base) == stage_at(x, offset, base) + stage_at(
            y,
            offset,
            base + x.len(),
        ),
{
    let ll = x.len() as int;
    let s = x + y;
    let lag = offset / 2;
    lemma_fundamental_div_mod(ll, offset);
    lemma_fundamental_div_mod(base, offset);
    assert(base + ll == (base / offset + ll / offset) * offset + 0) by (nonlinear_arith)
        requires
            base == offset * (base / offset) + 0 && ll == offset * (ll / offset) + 0,
    ;
    lemma_fundamental_div_mod_converse(base + ll, offset, base / offset + ll / offset, 0);
    assert forall|p: int| 0 <= p < 2 * ll implies #[trigger] stage_at(s, offset, base)[p]
        == (stage_at(x, offset, base) + stage_at(y, offset, base + ll))[p] by {
        if p < ll {
            lemma_fundamental_div_mod(p, offset);
            assert(p / offset <= ll / offset - 1) by (nonlinear_arith)
                requires
                    p == offset * (p / offset) + p % offset && 0 <= p % offset < offset && 0 <= p
                        < ll && ll == offset * (ll / offset) && offset >= 2,
            ;
            assert((p / offset) * offset + offset <= ll) by (nonlinear_arith)
                requires
                    p / offset <= ll / offset - 1 && ll == offset * (ll / offset) && offset >= 2,
            ;
            assert(p % offset < lag ==> p + lag < ll);
            assert(p % offset >= lag ==> p - lag >= (p / offset) * offset >= 0) by (
            nonlinear_arith)
                requires
                    p == offset * (p / offset) + p % offset && 0 <= p % offset < offset && offset
                        == 2 * lag && p >= 0 && offset >= 2,
            ;
        } else {
            let pp = p - ll;
            lemma_fundamental_div_mod(pp, offset);
            assert(p == (ll / offset + pp / offset) * offset + pp % offset) by (nonlinear_arith)
                requires
                    p == ll + pp && ll == offset * (ll / offset) + 0 && pp == offset * (pp
                        / offset) + pp % offset,
            ;
            lemma_fundamental_div_mod_converse(
                p,
                offset,
                ll / offset + pp / offset,
                pp % offset,
            );
            assert(p / offset == ll / offset + pp / offset && p % offset == pp % offset);
            assert((p / offset + base / offset) % 2 == (pp / offset + (base + ll) / offset) % 2);
            assert(pp / offset <= ll / offset - 1) by (nonlinear_arith)
                requires
                    pp == offset * (pp / offset) + pp % offset && 0 <= pp % offset < offset && 0
                        <= pp < ll && ll == offset * (ll / offset) && offset >= 2,
            ;
            assert((pp / offset) * offset + offset <= ll) by (nonlinear_arith)
                requires
                    pp / offset <= ll / offset - 1 && ll == offset * (ll / offset) && offset >= 2,
            ;
            assert(pp % offset < lag ==> pp + lag < ll);
            assert(pp % offset >= lag ==> pp - lag >= (pp / offset) * offset >= 0) by (
            nonlinear_arith)
                requires
                    pp == offset * (pp / offset) + pp % offset && 0 <= pp % offset < offset
                        && offset == 2 * lag && pp >= 0 && offset >= 2,
            ;
        }
    }
    assert(stage_at(s, offset, base) =~= stage_at(x, offset, base) + stage_at(
        y,
        offset,
        base + ll,
    ));
}

/// A run over a doubled span equals the two halves' runs side by side,
/// the second half's base advanced by its length.
proof fn lemma_run_at_split(x: Seq<int>, y: Seq<int>, offset: int, base: int)
    requires
        x.len() == y.len(),
        is_pow2(x.len() as nat),
        is_pow2(offset as nat),
        1 <= offset <= x.len(),
        base >= 0,
        base % (x.len() as int) == 0,
    ensures
        run_at(x + y, offset, base) == run_at(x, offset, base) + run_at(y, offset, base
            + x.len()),
    decreases offset,
{
    let ll = x.len() as int;
    if offset <= 1 {
    } else {
        lemma_pow2_int_halves(offset);
        lemma_pow2_divides(offset as nat, x.len() as nat);
        assert(ll % offset == 0);
        assert(base % offset == 0) by {
            lemma_fundamental_div_mod(base, ll);
            lemma_fundamental_div_mod(ll, offset);
            assert(base == ((base / ll) * (ll / offset)) * offset + 0) by (nonlinear_arith)
                requires
                    base == ll * (base / ll) + 0 && ll == offset * (ll / offset) + 0,
            ;
            vstd::arithmetic::div_mod::lemma_mod_multiples_basic(
                (base / ll) * (ll / offset),
                offset,
            );
        }
        lemma_stage_at_split(x, y, offset, base);
        lemma_run_at_split(
            stage_at(x, offset, base),
            stage_at(y, offset, base + ll),
            offset / 2,
            base,
        );
    }
}

/// A rank whose single group spans the whole sequence joins the two
/// halves' pointwise sum and difference: sum first for a span whose
/// group index is even, difference first for an odd one.
proof fn lemma_stage_at_whole(s: Seq<int>, base: int)
    requires
        s.len() >= 2,
        s.len() as int % 2 == 0,
        base >= 0,
    ensures
        (base / (s.len() as int)) % 2 == 0 ==> stage_at(s, s.len() as int, base) == seq_add(
            s.take(s.len() as int / 2),
            s.skip(s.len() as int / 2),
        ) + seq_sub(s.take(s.len() as int / 2), s.skip(s.len() as int / 2)),
        (base / (s.len() as int)) % 2 == 1 ==> stage_at(s, s.len() as int, base) == seq_sub(
            s.take(s.len() as int / 2),
            s.skip(s.len() as int / 2),
        ) + seq_add(s.take(s.len() as int / 2), s.skip(s.len() as int / 2)),
{
    let n = s.len() as int;
    let m = n / 2;
    let a = s.take(m);
    let b = s.skip(m);
    assert forall|p: int| 0 <= p < n implies #[trigger] stage_at(s, n, base)[p] == (if (base / n)
        % 2 == 0 {
        (seq_add(a, b) + seq_sub(a, b))[p]
    } else {
        (seq_sub(a, b) + seq_add(a, b))[p]
    }) by {
        lemma_fundamental_div_mod_converse(p, n, 0, p);
        assert(p / n == 0 && p % n == p);
    }
    if (base / n) % 2 == 0 {
        assert(stage_at(s, n, base) =~= seq_add(a, b) + seq_sub(a, b));
    } else {
        assert(stage_at(s, n, base) =~= seq_sub(a, b) + seq_add(a, b));
    }
}

/// The bit-reversal permutation carries the even-indexed elements to the
/// first half and the odd-indexed ones to the second half, each half
/// again in bit-reversed order.
proof fn lemma_rev_perm_halves(s: Seq<int>)
    requires
        is_pow2(s.len() as nat),
        s.len() >= 2,
    ensures
        rev_perm(s) == rev_perm(even_part(s)) + rev_perm(odd_part(s)),
{
    let n = s.len() as int;
    lemma_pow2_int_halves(n);
    let m = n / 2;
    assert forall|p: int| 0 <= p < n implies #[trigger] rev_perm(s)[p] == (rev_perm(even_part(s))
        + rev_perm(odd_part(s)))[p] by {
        lemma_bitrev_high(n, p);
        if p < m {
            lemma_fundamental_div_mod_converse(p, m, 0, p);
            lemma_bitrev_range(m, p);
            assert(bitrev(n, p) == 2 * bitrev(m, p));
        } else {
            lemma_fundamental_div_mod_converse(p, m, 1, p - m);
            lemma_bitrev_range(m, p - m);
            assert(bitrev(n, p) == 2 * bitrev(m, p - m) + 1);
        }
    }
    assert(rev_perm(s) =~= rev_perm(even_part(s)) + rev_perm(odd_part(s)));
}

/// The permutation respects pointwise sums and differences.
proof fn lemma_rev_perm_linear(x: Seq<int>, y: Seq<int>)
    requires
        x.len() == y.len(),
        is_pow2(x.len() as nat),
    ensures
        rev_perm(seq_add(x, y)) == seq_add(rev_perm(x), rev_perm(y)),
        rev_perm(seq_sub(x, y)) == seq_sub(rev_perm(x), rev_perm(y)),
{
    let ll = x.len() as int;
    assert forall|p: int| 0 <= p < ll implies 0 <= #[trigger] bitrev(ll, p) < ll by {
        lemma_bitrev_range(ll, p);
    }
    assert(rev_perm(seq_add(x, y)) =~= seq_add(rev_perm(x), rev_perm(y)));
    assert(rev_perm(seq_sub(x, y)) =~= seq_sub(rev_perm(x), rev_perm(y)));
}

/// Both transforms keep the length of the sequence.
proof fn lemma_transform_len(s: Seq<int>)
    ensures
        sequency_spec(s).len() == s.len(),
        odd_transform(s).len() == s.len(),
{
    crate::walsh::lemma_seq_from_len(rev_perm(s), s.len() as int);
    lemma_run_at_len(rev_perm(s), s.len() as int, s.len() as int);
}

/// The transform of a sequence interleaves into the transform of the
/// pointwise sum of its even and odd parts, followed by the odd-span
/// transform of their pointwise difference.
proof fn lemma_interleave(s: Seq<int>)
    requires
        is_pow2(s.len() as nat),
        s.len() >= 2,
    ensures
        sequency_spec(s) == sequency_spec(seq_add(even_part(s), odd_part(s))) + odd_transform(
            seq_sub(even_part(s), odd_part(s)),
        ),
{
    let n = s.len() as int;
    lemma_pow2_int_halves(n);
    let m = n / 2;
    let e = even_part(s);
    let o = odd_part(s);
    let ps = rev_perm(s);
    lemma_run_at_zero(ps, n);
    assert(sequency_spec(s) == run_at(ps, n, 0));
    assert(run_at(ps, n, 0) == run_at(stage_at(ps, n, 0), m, 0));
    lemma_stage_at_whole(ps, 0);
    assert(0int / n == 0) by {
        lemma_fundamental_div_mod_converse(0, n, 0, 0);
    }
    lemma_rev_perm_halves(s);
    assert(ps.take(m) =~= rev_perm(e));
    assert(ps.skip(m) =~= rev_perm(o));
    lemma_rev_perm_linear(e, o);
    assert(stage_at(ps, n, 0) == rev_perm(seq_add(e, o)) + rev_perm(seq_sub(e, o)));
    lemma_run_at_split(rev_perm(seq_add(e, o)), rev_perm(seq_sub(e, o)), m, 0);
    lemma_run_at_zero(rev_perm(seq_add(e, o)), m);
}

/// The odd-span transform interleaves the same way with the two summands
/// exchanged: its whole-span rank is the parity-flipped one.
proof fn lemma_interleave_odd(s: Seq<int>)
    requires
        is_pow2(s.len() as nat),
        s.len() >= 2,
    ensures
        odd_transform(s) == sequency_spec(seq_sub(even_part(s), odd_part(s))) + odd_transform(
            seq_add(even_part(s), odd_part(s)),
        ),
{
    let n = s.len() as int;
    lemma_pow2_int_halves(n);
    let m = n / 2;
    let e = even_part(s);
    let o = odd_part(s);
    let ps = rev_perm(s);
    assert(odd_transform(s) == run_at(stage_at(ps, n, n), m, n));
    lemma_stage_at_whole(ps, n);
    assert(n / n == 1) by {
        lemma_fundamental_div_mod_converse(n, n, 1, 0);
    }
    lemma_rev_perm_halves(s);
    assert(ps.take(m) =~= rev_perm(e));
    assert(ps.skip(m) =~= rev_perm(o));
    lemma_rev_perm_linear(e, o);
    assert(stage_at(ps, n, n) == rev_perm(seq_sub(e, o)) + rev_perm(seq_add(e, o)));
    assert(n % m == 0) by {
        lemma_fundamental_div_mod_converse(n, m, 2, 0);
    }
    lemma_run_at_split(rev_perm(seq_sub(e, o)), rev_perm(seq_add(e, o)), m, n);
    lemma_run_at_period(rev_perm(seq_sub(e, o)), m, 0, 1);
    assert(run_at(rev_perm(seq_sub(e, o)), m, n) == run_at(rev_perm(seq_sub(e, o)), m, 0));
    lemma_run_at_zero(rev_perm(seq_sub(e, o)), m);
    lemma_run_at_period(rev_perm(seq_add(e, o)), m, m, 1);
    assert(run_at(rev_perm(seq_add(e, o)), m, n + m) == run_at(rev_perm(seq_add(e, o)), m, m));
}

/// Reading back to front twice gives the sequence back.
proof fn lemma_reversed_reversed(t: Seq<int>)
    ensures
        reversed(reversed(t)) == t,
{
    assert(reversed(reversed(t)) =~= t);
}

/// Reversal exchanges and reverses the two parts of a junction.
proof fn lemma_reversed_concat(a: Seq<int>, b: Seq<int>)
    ensures
        reversed(a + b) == reversed(b) + reversed(a),
{
    assert(reversed(a + b) =~= reversed(b) + reversed(a));
}

/// Reversal respects pointwise sums and differences.
proof fn lemma_reversed_linear(x: Seq<int>, y: Seq<int>)
    requires
        x.len() == y.len(),
    ensures
        reversed(seq_add(x, y)) == seq_add(reversed(x), reversed(y)),
        reversed(seq_sub(x, y)) == seq_sub(reversed(x), reversed(y)),
{
    assert(reversed(seq_add(x, y)) =~= seq_add(reversed(x), reversed(y)));
    assert(reversed(seq_sub(x, y)) =~= seq_sub(reversed(x), reversed(y)));
}

/// The odd-span transform is the transform read back to front.
proof fn lemma_odd_is_reversed(s: Seq<int>)
    requires
        is_pow2(s.len() as nat),
    ensures
        odd_transform(s) == reversed(sequency_spec(s)),
    decreases s.len(),
{
    let n = s.len() as int;
    if n == 1 {
        assert(bitrev(1, 0) == 0);
        assert(rev_perm(s) =~= s);
        assert(odd_transform(s) == s);
        crate::laws::lemma_transform_length_one(s);
        assert(reversed(sequency_spec(s)) =~= s);
    } else {
        lemma_pow2_int_halves(n);
        let e = even_part(s);
        let o = odd_part(s);
        lemma_interleave(s);
        lemma_interleave_odd(s);
        lemma_odd_is_reversed(seq_add(e, o));
        lemma_odd_is_reversed(seq_sub(e, o));
        lemma_transform_len(seq_add(e, o));
        lemma_transform_len(seq_sub(e, o));
        lemma_reversed_concat(
            sequency_spec(seq_add(e, o)),
            odd_transform(seq_sub(e, o)),
        );
        lemma_reversed_reversed(sequency_spec(seq_sub(e, o)));
    }
}

/// Dropping the sign flips from a sequence's odd positions exchanges the
/// two transforms: the flips cancel the parity alternation of the group
/// roles.
proof fn lemma_alt_exchanges(t: Seq<int>)
    requires
        is_pow2(t.len() as nat),
    ensures
        sequency_spec(alt_signs(t)) == odd_transform(t),
        odd_transform(alt_signs(t)) == sequency_spec(t),
{
    let n = t.len() as int;
    if n == 1 {
        assert(alt_signs(t) =~= t);
        crate::laws::lemma_transform_length_one(t);
        assert(bitrev(1, 0) == 0);
        assert(rev_perm(t) =~= t);
        assert(odd_transform(t) == t);
        assert(odd_transform(alt_signs(t)) == alt_signs(t));
    } else {
        lemma_pow2_int_halves(n);
        let e = even_part(t);
        let o = odd_part(t);
        lemma_interleave(alt_signs(t));
        assert(even_part(alt_signs(t)) =~= e);
        assert(odd_part(alt_signs(t)) =~= seq_scale(-1, o));
        assert(seq_add(e, seq_scale(-1, o)) =~= seq_sub(e, o));
        assert(seq_sub(e, seq_scale(-1, o)) =~= seq_add(e, o));
        lemma_interleave_odd(t);
        assert(sequency_spec(alt_signs(t)) == odd_transform(t));
        lemma_odd_is_reversed(alt_signs(t));
        lemma_odd_is_reversed(t);
        lemma_reversed_reversed(sequency_spec(t));
    }
}

/// A butterfly rank respects scaling every element by a common factor.
proof fn lemma_stage_at_scale(s: Seq<int>, offset: int, base: int, k: int)
    requires
        offset >= 2,
        offset % 2 == 0,
        s.len() as int % offset == 0,
    ensures
        stage_at(seq_scale(k, s), offset, base) == seq_scale(k, stage_at(s, offset, base)),
{
    let ll = s.len() as int;
    let lag = offset / 2;
    lemma_fundamental_div_mod(ll, offset);
    assert forall|p: int| 0 <= p < s.len() implies #[trigger] stage_at(
        seq_scale(k, s),
        offset,
        base,
    )[p] == seq_scale(k, stage_at(s, offset, base))[p] by {
        lemma_fundamental_div_mod(p, offset);
        assert(p / offset <= ll / offset - 1) by (nonlinear_arith)
            requires
                p == offset * (p / offset) + p % offset && 0 <= p % offset < offset && 0 <= p < ll
                    && ll == offset * (ll / offset) && offset >= 2,
        ;
        assert((p / offset) * offset + offset <= ll) by (nonlinear_arith)
            requires
                p / offset <= ll / offset - 1 && ll == offset * (ll / offset) && offset >= 2,
        ;
        assert(p % offset < lag ==> p + lag < ll);
        assert(p % offset >= lag ==> p - lag >= (p / offset) * offset >= 0) by (nonlinear_arith)
            requires
                p == offset * (p / offset) + p % offset && 0 <= p % offset < offset && offset == 2
                    * lag && p >= 0 && offset >= 2,
        ;
        if p % offset < lag {
            lemma_mul_is_distributive_add(k, s[p], s[p + lag]);
            lemma_mul_is_distributive_sub(k, s[p], s[p + lag]);
        } else {
            lemma_mul_is_distributive_add(k, s[p - lag], s[p]);
            lemma_mul_is_distributive_sub(k, s[p - lag], s[p]);
        }
    }
    assert(stage_at(seq_scale(k, s), offset, base) =~= seq_scale(
        k,
        stage_at(s, offset, base),
    ));
}

/// A whole run respects scaling by a common factor.
proof fn lemma_run_at_scale(s: Seq<int>, offset: int, base: int, k: int)
    requires
        is_pow2(s.len() as nat),
        is_pow2(offset as nat),
        1 <= offset <= s.len(),
    ensures
        run_at(seq_scale(k, s), offset, base) == seq_scale(k, run_at(s, offset, base)),
    decreases offset,
{
    if offset <= 1 {
    } else {
        lemma_pow2_int_halves(offset);
        lemma_pow2_divides(offset as nat, s.len() as nat);
        lemma_stage_at_scale(s, offset, base, k);
        lemma_run_at_scale(stage_at(s, offset, base), offset / 2, base, k);
    }
}

/// Both transforms respect scaling by a common factor.
proof fn lemma_transform_scale(t: Seq<int>, k: int)
    requires
        is_pow2(t.len() as nat),
    ensures
        sequency_spec(seq_scale(k, t)) == seq_scale(k, sequency_spec(t)),
        odd_transform(seq_scale(k, t)) == seq_scale(k, odd_transform(t)),
{
    let n = t.len() as int;
    assert forall|p: int| 0 <= p < n implies 0 <= #[trigger] bitrev(n, p) < n by {
        lemma_bitrev_range(n, p);
    }
    assert(rev_perm(seq_scale(k, t)) =~= seq_scale(k, rev_perm(t)));
    lemma_run_at_zero(rev_perm(seq_scale(k, t)), n);
    lemma_run_at_zero(rev_perm(t), n);
    lemma_run_at_scale(rev_perm(t), n, 0, k);
    lemma_run_at_scale(rev_perm(t), n, n, k);
}

/// The transforms of a two-element sequence, written out.
proof fn lemma_len_two(t: Seq<int>)
    requires
        t.len() == 2,
    ensures
        sequency_spec(t).len() == 2,
        sequency_spec(t)[0] == t[0] + t[1],
        sequency_spec(t)[1] == t[0] - t[1],
        odd_transform(t).len() == 2,
        odd_transform(t)[0] == t[0] - t[1],
        odd_transform(t)[1] == t[0] + t[1],
{
    assert(bitrev(2, 0) == (0int % 2) * 1 + bitrev(1, 0));
    assert(bitrev(2, 1) == (1int % 2) * 1 + bitrev(1, 0));
    let pt = rev_perm(t);
    assert(pt =~= t);
    let u = seq_stage(t, 2);
    assert(u.len() == 2 && u[0] == t[0] + t[1] && u[1] == t[0] - t[1]);
    assert(sequency_spec(t) == seq_from(u, 1));
    let w = stage_at(t, 2, 2);
    assert(2int / 2 == 1);
    assert(w.len() == 2 && w[0] == t[0] - t[1] && w[1] == t[0] + t[1]);
    assert(odd_transform(t) == run_at(w, 1, 2));
}

/// Splitting a concatenation of even-length parts into even and odd positions
/// splits each part separately.
proof fn lemma_parts_concat(a: Seq<int>, b: Seq<int>)
    requires
        a.len() % 2 == 0,
        b.len() % 2 == 0,
    ensures
        even_part(a + b) == even_part(a) + even_part(b),
        odd_part(a + b) == odd_part(a) + odd_part(b),
{
    assert(even_part(a + b) =~= even_part(a) + even_part(b));
    assert(odd_part(a + b) =~= odd_part(a) + odd_part(b));
}

/// Reversal exchanges the even and odd positions of an even-length
/// sequence.
proof fn lemma_parts_reversed(t: Seq<int>)
    requires
        t.len() % 2 == 0,
    ensures
        even_part(reversed(t)) == reversed(odd_part(t)),
        odd_part(reversed(t)) == reversed(even_part(t)),
{
    assert(even_part(reversed(t)) =~= reversed(odd_part(t)));
    assert(odd_part(reversed(t)) =~= reversed(even_part(t)));
}

/// The sign alternation acts on each part of a concatenation at an even offset
/// separately.
proof fn lemma_alt_concat(a: Seq<int>, b: Seq<int>)
    requires
        a.len() % 2 == 0,
    ensures
        alt_signs(a + b) == alt_signs(a) + alt_signs(b),
{
    assert(alt_signs(a + b) =~= alt_signs(a) + alt_signs(b));
}

/// On an even-length sequence, alternating the signs of a reversal is
/// the negated reversal of the alternation.
proof fn lemma_alt_reversed(t: Seq<int>)
    requires
        t.len() % 2 == 0,
    ensures
        alt_signs(reversed(t)) == seq_scale(-1, reversed(alt_signs(t))),
{
    assert(alt_signs(reversed(t)) =~= seq_scale(-1, reversed(alt_signs(t))));
}

/// Pointwise sums and differences act on concatenations part by part.
proof fn lemma_linear_concat(a: Seq<int>, b: Seq<int>, c: Seq<int>, d: Seq<int>)
    requires
        a.len() == c.len(),
        b.len() == d.len(),
    ensures
        seq_add(a + b, c + d) == seq_add(a, c) + seq_add(b, d),
        seq_sub(a + b, c + d) == seq_sub(a, c) + seq_sub(b, d),
{
    assert(seq_add(a + b, c + d) =~= seq_add(a, c) + seq_add(b, d));
    assert(seq_sub(a + b, c + d) =~= seq_sub(a, c) + seq_sub(b, d));
}

/// The transform of a doubled span, read position by position: its even
/// positions carry the pointwise sum, and its odd positions the pointwise
/// difference, of the first half's transform and the sign-alternated
/// transform of the second half.
proof fn lemma_concat_parts(u: Seq<int>, w: Seq<int>)
    requires
        u.len() == w.len(),
        is_pow2(u.len() as nat),
    ensures
        even_part(sequency_spec(u + w)) == seq_add(
            sequency_spec(u),
            alt_signs(sequency_spec(w)),
        ),
        odd_part(sequency_spec(u + w)) == seq_sub(
            sequency_spec(u),
            alt_signs(sequency_spec(w)),
        ),
    decreases u.len(),
{
    let m = u.len() as int;
    let s = u + w;
    assert(is_pow2((2 * m) as nat)) by {
        assert(((2 * m) as nat) % 2 == 0);
        assert(((2 * m) as nat) / 2 == m as nat);
    }
    lemma_transform_len(u);
    lemma_transform_len(w);
    lemma_transform_len(s);
    if m == 1 {
        lemma_len_two(s);
        crate::laws::lemma_transform_length_one(u);
        crate::laws::lemma_transform_length_one(w);
        assert(even_part(sequency_spec(s)) =~= seq_add(
            sequency_spec(u),
            alt_signs(sequency_spec(w)),
        ));
        assert(odd_part(sequency_spec(s)) =~= seq_sub(
            sequency_spec(u),
            alt_signs(sequency_spec(w)),
        ));
    } else if m == 2 {
        let e = even_part(s);
        let o = odd_part(s);
        assert(e.len() == 2 && e[0] == u[0] && e[1] == w[0]);
        assert(o.len() == 2 && o[0] == u[1] && o[1] == w[1]);
        lemma_interleave(s);
        lemma_len_two(seq_add(e, o));
        lemma_len_two(seq_sub(e, o));
        lemma_len_two(u);
        lemma_len_two(w);
        lemma_transform_len(seq_add(e, o));
        lemma_transform_len(seq_sub(e, o));
        assert(even_part(sequency_spec(s)) =~= seq_add(
            sequency_spec(u),
            alt_signs(sequency_spec(w)),
        ));
        assert(odd_part(sequency_spec(s)) =~= seq_sub(
            sequency_spec(u),
            alt_signs(sequency_spec(w)),
        ));
    } else {
        lemma_pow2_int_halves(m);
        let h = m / 2;
        lemma_pow2_int_halves(h);
        let eu = even_part(u);
        let ou = odd_part(u);
        let ew = even_part(w);
        let ow = odd_part(w);
        let alpha = seq_add(eu, ou);
        let beta = seq_add(ew, ow);
        let gamma = seq_sub(eu, ou);
        let delta = seq_sub(ew, ow);
        lemma_parts_concat(u, w);
        lemma_linear_concat(eu, ew, ou, ow);
        assert(seq_add(even_part(s), odd_part(s)) == alpha + beta);
        assert(seq_sub(even_part(s), odd_part(s)) == gamma + delta);
        lemma_interleave(s);
        assert(sequency_spec(s) == sequency_spec(alpha + beta) + odd_transform(gamma + delta));
        lemma_concat_parts(alpha, beta);
        lemma_concat_parts(gamma, delta);
        lemma_transform_len(alpha + beta);
        lemma_transform_len(gamma + delta);
        lemma_transform_len(alpha);
        lemma_transform_len(beta);
        lemma_transform_len(gamma);
        lemma_transform_len(delta);
        lemma_odd_is_reversed(gamma + delta);
        lemma_parts_concat(sequency_spec(alpha + beta), odd_transform(gamma + delta));
        lemma_parts_reversed(sequency_spec(gamma + delta));
        lemma_reversed_linear(sequency_spec(gamma), alt_signs(sequency_spec(delta)));
        lemma_interleave(u);
        lemma_interleave(w);
        assert(sequency_spec(u) == sequency_spec(alpha) + odd_transform(gamma));
        assert(sequency_spec(w) == sequency_spec(beta) + odd_transform(delta));
        lemma_alt_concat(sequency_spec(beta), odd_transform(delta));
        lemma_linear_concat(
            sequency_spec(alpha),
            odd_transform(gamma),
            alt_signs(sequency_spec(beta)),
            alt_signs(odd_transform(delta)),
        );
        lemma_odd_is_reversed(gamma);
        lemma_odd_is_reversed(delta);
        lemma_alt_reversed(sequency_spec(delta));
        assert(seq_add(
            reversed(sequency_spec(gamma)),
            seq_scale(-1, reversed(alt_signs(sequency_spec(delta)))),
        ) =~= seq_sub(reversed(sequency_spec(gamma)), reversed(alt_signs(sequency_spec(delta)))));
        assert(seq_sub(
            reversed(sequency_spec(gamma)),
            seq_scale(-1, reversed(alt_signs(sequency_spec(delta)))),
        ) =~= seq_add(reversed(sequency_spec(gamma)), reversed(alt_signs(sequency_spec(delta)))));
        assert(even_part(sequency_spec(s)) == seq_add(
            sequency_spec(u),
            alt_signs(sequency_spec(w)),
        ));
        assert(odd_part(sequency_spec(s)) == seq_sub(
            sequency_spec(u),
            alt_signs(sequency_spec(w)),
        ));
    }
}

/// Round trip: the sequency transform applied twice multiplies every
/// element by the sequence length, so scaling the doubly transformed
/// sequence down by its length recovers the original sequence.
pub proof fn lemma_sequency_round_trip(s: Seq<int>)
    requires
        is_pow2(s.len() as nat),
    ensures
        sequency_spec(sequency_spec(s)) == seq_scale(s.len() as int, s),
    decreases s.len(),
{
    let n = s.len() as int;
    lemma_transform_len(s);
    lemma_transform_len(sequency_spec(s));
    if n == 1 {
        crate::laws::lemma_transform_length_one(s);
        assert(seq_scale(1, s) =~= s);
    } else if n == 2 {
        lemma_len_two(s);
        lemma_len_two(sequency_spec(s));
        assert(sequency_spec(sequency_spec(s)) =~= seq_scale(2, s));
    } else {
        lemma_pow2_int_halves(n);
        let m = n / 2;
        let u = s.take(m);
        let w = s.skip(m);
        assert(s =~= u + w);
        lemma_concat_parts(u, w);
        lemma_transform_len(u);
        lemma_transform_len(w);
        let r = sequency_spec(s);
        lemma_interleave(r);
        assert(seq_add(even_part(r), odd_part(r)) =~= seq_scale(2, sequency_spec(u)));
        assert(seq_sub(even_part(r), odd_part(r)) =~= seq_scale(2, alt_signs(sequency_spec(w))));
        lemma_transform_scale(sequency_spec(u), 2);
        lemma_transform_scale(alt_signs(sequency_spec(w)), 2);
        lemma_alt_exchanges(sequency_spec(w));
        lemma_sequency_round_trip(u);
        lemma_sequency_round_trip(w);
        assert(sequency_spec(r) == seq_scale(2, seq_scale(m, u)) + seq_scale(
            2,
            seq_scale(m, w),
        ));
        assert(seq_scale(2, seq_scale(m, u)) =~= seq_scale(n, u)) by {
            assert forall|i: int| 0 <= i < m implies 2 * (seq_scale(m, u)[i]) == n * u[i] by {
                assert(2 * (m * u[i]) == n * u[i]) by (nonlinear_arith)
                    requires
                        n == 2 * m,
                ;
            }
        }
        assert(seq_scale(2, seq_scale(m, w)) =~= seq_scale(n, w)) by {
            assert forall|i: int| 0 <= i < m implies 2 * (seq_scale(m, w)[i]) == n * w[i] by {
                assert(2 * (m * w[i]) == n * w[i]) by (nonlinear_arith)
                    requires
                        n == 2 * m,
                ;
            }
        }
        assert(seq_scale(n, u) + seq_scale(n, w) =~= seq_scale(n, s));
    }
}

} // verus!
