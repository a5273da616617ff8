//! The sequency (Manz) ordered fast Walsh transform.

use crate::bitrev::{
    bitrev, lemma_bitrev_fixes_last, lemma_bitrev_involution, lemma_bitrev_range,
    lemma_bitrev_zero, lemma_rinc_bitrev, rinc,
};
use crate::pow2::{is_pow2, lemma_pow2_divides, lemma_pow2_int_halves, power_of_2};
use crate::walsh::{
    elem_bound, in_range, lemma_elem_bound_mul, rev_perm, seq_from, seq_stage, sequency_spec,
    to_int_seq,
};
use vstd::arithmetic::div_mod::{
    lemma_div_is_ordered, lemma_fundamental_div_mod, lemma_fundamental_div_mod_converse,
};
use vstd::arithmetic::mul::{lemma_mul_inequality, lemma_mul_is_commutative};
use vstd::prelude::*;
use vstd::slice::slice_to_vec;

verus! {

/// Return the Manz sequency ordering transform of `input_v`, or
/// `None` if the input length is not a power of 2.
///
/// Every element must lie within `i64::MAX` divided by the length, so
/// that the doubling of magnitudes across the butterfly ranks cannot
/// leave the element type.
pub fn sequency(input_v: &[i64]) -> (r: Option<Vec<i64>>)
    requires
        in_range(to_int_seq(input_v@), elem_bound(input_v@.len() as int)),
    ensures
        r is Some <==> is_pow2(input_v@.len() as nat),
        r matches Some(out) ==> out@.len() == input_v@.len() && to_int_seq(out@)
            == sequency_spec(to_int_seq(input_v@)),
{
    let length = input_v.len();
    let mut v = slice_to_vec(input_v);
    if !power_of_2(length) {
        return None;
    }
    let ghost s0 = to_int_seq(input_v@);
    let ghost n = length as int;
    if length == 1 {
        proof {
            assert(bitrev(1, 0) == 0);
            assert(rev_perm(s0) =~= s0);
            assert(sequency_spec(s0) == s0);
        }
        return Some(v);
    }
    let ghost b = elem_bound(n);
    proof {
        lemma_elem_bound_mul(n);
        lemma_pow2_int_halves(n);
        lemma_bitrev_zero(n);
        assert forall|p: int| 0 <= p < n implies -b <= (#[trigger] v@[p]) as int <= b && v@[p] as int
            == s0[p] by {
            assert(to_int_seq(v@)[p] == v@[p] as int);
            assert(-(elem_bound(n)) <= to_int_seq(input_v@)[p] <= elem_bound(n));
        }
        assert forall|p: int| 0 <= p < n implies #[trigger] bitrev(n, p) >= 0 by {
            lemma_bitrev_range(n, p);
        }
    }
    // Phase one: reorder by the bit-reversal permutation, walking a
    // bit-reversed counter `j` alongside the index `i`.
    let mut j: usize = 0;
    let mut i: usize = 0;
    while i < length - 2
        invariant
            v@.len() == n,
            length == n,
            n >= 2,
            n == input_v@.len(),
            s0 == to_int_seq(input_v@),
            b == elem_bound(n),
            0 <= b,
            b * n <= i64::MAX as int,
            is_pow2(n as nat),
            i <= n - 2,
            j as int == bitrev(n, i as int),
            0 <= j < n,
            forall|p: int| 0 <= p < n ==> -b <= (#[trigger] v@[p]) as int <= b,
            forall|p: int|
                0 <= p < n ==> (#[trigger] v@[p]) as int == (if p < i as int || bitrev(n, p)
                    < i as int {
                    s0[bitrev(n, p)]
                } else {
                    s0[p]
                }),
        decreases n - 2 - i,
    {
        let ghost ii = i as int;
        proof {
            lemma_bitrev_involution(n, ii);
            lemma_bitrev_range(n, ii);
        }
        if i < j {
            let x = v[i];
            let y = v[j];
            let ghost vpre = v@;
            v.set(i, y);
            v.set(j, x);
            proof {
                assert forall|p: int|
                    0 <= p < n implies (#[trigger] v@[p]) as int == (if p < ii + 1 || bitrev(n, p)
                    < ii + 1 {
                    s0[bitrev(n, p)]
                } else {
                    s0[p]
                }) by {
                    lemma_bitrev_involution(n, p);
                    if p == ii {
                        assert(v@[p] == y);
                        assert(bitrev(n, j as int) == ii);
                        assert(vpre[j as int] as int == s0[j as int]);
                    } else if p == j as int {
                        assert(v@[p] == x);
                        assert(vpre[ii] as int == s0[ii]);
                    } else {
                        assert(v@[p] == vpre[p]);
                    }
                }
            }
        } else {
            proof {
                assert forall|p: int|
                    0 <= p < n implies (#[trigger] v@[p]) as int == (if p < ii + 1 || bitrev(n, p)
                    < ii + 1 {
                    s0[bitrev(n, p)]
                } else {
                    s0[p]
                }) by {
                    lemma_bitrev_involution(n, p);
                }
            }
        }
        // Advance the bit-reversed counter to match `i + 1`.
        let mut k: usize = length / 2;
        proof {
            lemma_rinc_bitrev(n, ii);
            lemma_bitrev_range(n, ii + 1);
            assert(j as int != n - 1) by {
                lemma_bitrev_fixes_last(n);
                if j as int == n - 1 {
                    lemma_bitrev_involution(n, ii);
                }
            }
            assert(is_pow2(k as nat) && 2 * (k as int) == n);
        }
        while k <= j
            invariant
                n >= 2,
                1 <= k,
                is_pow2(k as nat),
                k as int <= n / 2,
                j as int <= 2 * (k as int) - 2,
                rinc(j as int, k as int) == bitrev(n, i as int + 1),
            decreases k,
        {
            proof {
                lemma_pow2_int_halves(k as int);
            }
            j = j - k;
            k = k / 2;
        }
        j = j + k;
        proof {
            assert(j as int == bitrev(n, ii + 1));
        }
        i = i + 1;
    }
    proof {
        assert forall|p: int| 0 <= p < n implies (#[trigger] v@[p]) as int == s0[bitrev(n, p)] by {
            lemma_bitrev_involution(n, p);
            lemma_bitrev_range(n, p);
            lemma_bitrev_fixes_last(n);
        }
        assert(to_int_seq(v@) =~= rev_perm(s0));
        assert(seq_from(to_int_seq(v@), n) == sequency_spec(s0));
        lemma_fundamental_div_mod_converse(n, n, 1, 0);
        assert forall|p: int| 0 <= p < n implies -(b * (n / (n as int))) <= (#[trigger] v@[p]) as int
            <= b * (n / (n as int)) by {
            lemma_bitrev_range(n, p);
        }
    }
    // Phase two: butterfly ranks from whole-sequence groups down to pairs,
    // alternating the add/subtract roles between neighbouring groups.
    let mut offset = length;
    while offset > 1
        invariant
            v@.len() == n,
            length == n,
            n == input_v@.len(),
            s0 == to_int_seq(input_v@),
            b == elem_bound(n),
            0 <= b,
            b * n <= i64::MAX as int,
            is_pow2(n as nat),
            is_pow2(offset as nat),
            1 <= offset <= n,
            seq_from(to_int_seq(v@), offset as int) == sequency_spec(s0),
            in_range(to_int_seq(v@), b * (n / (offset as int))),
        decreases offset,
    {
        proof {
            lemma_pow2_int_halves(offset as int);
        }
        let lag = offset / 2;
        let ngroups = length / offset;
        let ghost gs = to_int_seq(v@);
        let ghost c = b * (n / (offset as int));
        proof {
            lemma_pow2_divides(offset as nat, length as nat);
            assert(n % (offset as int) == 0);
            lemma_fundamental_div_mod(n, offset as int);
            assert(n == (ngroups as int) * (offset as int)) by (nonlinear_arith)
                requires
                    n == (offset as int) * (ngroups as int) + 0,
            ;
            assert(n == (2 * ngroups as int) * (lag as int)) by (nonlinear_arith)
                requires
                    n == (ngroups as int) * (offset as int) && offset as int == 2 * (lag as int),
            ;
            lemma_fundamental_div_mod_converse(n, lag as int, 2 * ngroups as int, 0);
            assert(n / (lag as int) == 2 * ngroups as int);
            assert(c == b * (ngroups as int));
            assert(c + c == b * (n / (lag as int))) by (nonlinear_arith)
                requires
                    c == b * (ngroups as int) && n / (lag as int) == 2 * ngroups as int,
            ;
            assert(2 * ngroups as int <= n) by (nonlinear_arith)
                requires
                    n == (ngroups as int) * (offset as int) && offset >= 2 && ngroups as int >= 0,
            ;
            assert(b * (n / (lag as int)) <= b * n) by {
                lemma_mul_inequality(n / (lag as int), n, b);
            }
            assert(0 <= c) by (nonlinear_arith)
                requires
                    c == b * (ngroups as int) && b >= 0 && ngroups as int >= 0,
            ;
            assert forall|p: int| 0 <= p < n implies gs[p] == (#[trigger] v@[p]) as int && -(c + c)
                <= v@[p] as int <= c + c by {
                assert(to_int_seq(v@)[p] == v@[p] as int);
                assert(-(b * (n / (offset as int))) <= to_int_seq(v@)[p] <= b * (n / (
                offset as int)));
            }
        }
        let mut group: usize = 0;
        while group < ngroups
            invariant
                v@.len() == n,
                length == n,
                1 <= lag,
                offset == 2 * lag,
                2 <= offset <= n,
                n == (ngroups as int) * (offset as int),
                group <= ngroups,
                gs.len() == n,
                in_range(gs, c),
                0 <= c,
                c + c <= i64::MAX as int,
                forall|p: int| 0 <= p < n ==> -(c + c) <= (#[trigger] v@[p]) as int <= c + c,
                forall|p: int|
                    0 <= p < n ==> (#[trigger] v@[p]) as int == (if p / (offset as int)
                        < group as int {
                        seq_stage(gs, offset as int)[p]
                    } else {
                        gs[p]
                    }),
            decreases ngroups - group,
        {
            let mut base: usize = 0;
            while base < lag
                invariant
                    v@.len() == n,
                    length == n,
                    1 <= lag,
                    offset == 2 * lag,
                    2 <= offset <= n,
                    n == (ngroups as int) * (offset as int),
                    group < ngroups,
                    base <= lag,
                    gs.len() == n,
                    in_range(gs, c),
                    0 <= c,
                    c + c <= i64::MAX as int,
                    forall|p: int| 0 <= p < n ==> -(c + c) <= (#[trigger] v@[p]) as int <= c + c,
                    forall|p: int|
                        0 <= p < n ==> (#[trigger] v@[p]) as int == (if p / (offset as int)
                            < group as int || (p / (offset as int) == group as int && (p % (
                        offset as int) < base as int || lag as int <= p % (offset as int)
                            < lag as int + base as int)) {
                            seq_stage(gs, offset as int)[p]
                        } else {
                            gs[p]
                        }),
                decreases lag - base,
            {
                let ghost oo = offset as int;
                let ghost ll = lag as int;
                let ghost gg = group as int;
                let ghost tt = base as int;
                proof {
                    assert(gg * oo + oo <= n) by (nonlinear_arith)
                        requires
                            n == (ngroups as int) * oo && gg < ngroups as int && gg >= 0 && oo
                                >= 1,
                    ;
                }
                let j = base + group * offset;
                let k = j + lag;
                let ghost jj = j as int;
                let ghost kk = k as int;
                proof {
                    lemma_fundamental_div_mod_converse(jj, oo, gg, tt);
                    lemma_fundamental_div_mod_converse(kk, oo, gg, tt + ll);
                    assert(v@[jj] as int == gs[jj]);
                    assert(v@[kk] as int == gs[kk]);
                }
                let x = v[j];
                let y = v[k];
                let ghost vpre = v@;
                if group % 2 == 1 {
                    v.set(j, x - y);
                    v.set(k, x + y);
                } else {
                    v.set(j, x + y);
                    v.set(k, x - y);
                }
                proof {
                    if gg % 2 == 1 {
                        assert(seq_stage(gs, oo)[jj] == gs[jj] - gs[kk]);
                        assert(seq_stage(gs, oo)[kk] == gs[jj] + gs[kk]);
                    } else {
                        assert(seq_stage(gs, oo)[jj] == gs[jj] + gs[kk]);
                        assert(seq_stage(gs, oo)[kk] == gs[jj] - gs[kk]);
                    }
                    assert forall|p: int|
                        0 <= p < n implies (#[trigger] v@[p]) as int == (if p / oo < gg || (p / oo
                        == gg && (p % oo < tt + 1 || ll <= p % oo < ll + tt + 1)) {
                        seq_stage(gs, oo)[p]
                    } else {
                        gs[p]
                    }) by {
                        if p == jj {
                            assert(jj != kk);
                            assert(jj / oo == gg && jj % oo == tt);
                            assert(v@[jj] as int == seq_stage(gs, oo)[jj]);
                        } else if p == kk {
                            assert(kk / oo == gg && kk % oo == tt + ll);
                            assert(v@[kk] as int == seq_stage(gs, oo)[kk]);
                        } else {
                            assert(v@[p] == vpre[p]);
                            assert(vpre[p] as int == (if p / oo < gg || (p / oo == gg && (p % oo
                                < tt || ll <= p % oo < ll + tt)) {
                                seq_stage(gs, oo)[p]
                            } else {
                                gs[p]
                            }));
                            lemma_fundamental_div_mod(p, oo);
                            lemma_mul_is_commutative(oo, gg);
                            if p / oo == gg && p % oo == tt {
                                assert(p == jj);
                            }
                            if p / oo == gg && p % oo == tt + ll {
                                assert(p == kk);
                            }
                        }
                    }
                }
                base = base + 1;
            }
            group = group + 1;
        }
        proof {
            assert forall|p: int| 0 <= p < n implies #[trigger] (p / (offset as int))
                < ngroups as int by {
                assert(n - 1 == (ngroups as int - 1) * (offset as int) + (offset as int - 1)) by (
                nonlinear_arith)
                    requires
                        n == (ngroups as int) * (offset as int),
                ;
                lemma_fundamental_div_mod_converse(
                    n - 1,
                    offset as int,
                    ngroups as int - 1,
                    offset as int - 1,
                );
                lemma_div_is_ordered(p, n - 1, offset as int);
            }
            assert(to_int_seq(v@) =~= seq_stage(gs, offset as int));
            assert(seq_from(gs, offset as int) == seq_from(
                seq_stage(gs, offset as int),
                (offset as int) / 2,
            ));
            assert((offset as int) / 2 == lag as int);
        }
        offset = lag;
    }
    proof {
        assert(seq_from(to_int_seq(v@), offset as int) == to_int_seq(v@));
    }
    Some(v)
}

} // verus!
