//! The Hadamard (natural) ordered fast Walsh transform.

use crate::pow2::{is_pow2, lemma_pow2_divides, lemma_pow2_le_half, power_of_2};
use crate::walsh::{
    elem_bound, had_from, had_stage, hadamard_spec, in_range, lemma_elem_bound_mul, to_int_seq,
};
use vstd::arithmetic::div_mod::{
    lemma_div_is_ordered, lemma_fundamental_div_mod, lemma_fundamental_div_mod_converse,
};
use vstd::arithmetic::mul::{lemma_mul_inequality, lemma_mul_is_commutative};
use vstd::prelude::*;
use vstd::slice::slice_to_vec;

verus! {

/// Return the Hadamard (natural) ordering transform of `input_v`, or
/// `None` if the input length is not a power of 2.
///
/// Every element must lie within `i64::MAX` divided by the length, so
/// that the doubling of magnitudes across the butterfly ranks cannot
/// leave the element type.
pub fn hadamard(input_v: &[i64]) -> (r: Option<Vec<i64>>)
    requires
        in_range(to_int_seq(input_v@), elem_bound(input_v@.len() as int)),
    ensures
        r is Some <==> is_pow2(input_v@.len() as nat),
        r matches Some(out) ==> out@.len() == input_v@.len() && to_int_seq(out@)
            == hadamard_spec(to_int_seq(input_v@)),
{
    let length = input_v.len();
    let mut v = slice_to_vec(input_v);
    if power_of_2(length) {
        let ghost s0 = to_int_seq(input_v@);
        let ghost n = length as int;
        let ghost b = elem_bound(n);
        proof {
            lemma_elem_bound_mul(n);
        }
        let mut lag: usize = 1;
        while lag < length
            invariant
                v@.len() == n,
                n == input_v@.len(),
                s0 == to_int_seq(input_v@),
                b == elem_bound(n),
                0 <= b,
                b * n <= i64::MAX as int,
                is_pow2(n as nat),
                is_pow2(lag as nat),
                1 <= lag <= length,
                length == n,
                had_from(to_int_seq(v@), lag as int) == hadamard_spec(s0),
                in_range(to_int_seq(v@), b * (lag as int)),
            decreases n - lag,
        {
            proof {
                lemma_pow2_le_half(lag as nat, length as nat);
            }
            let offset = 2 * lag;
            let ngroups = length / offset;
            let ghost gs = to_int_seq(v@);
            let ghost c = b * (lag as int);
            proof {
                assert(is_pow2(offset as nat)) by {
                    assert((offset as nat) % 2 == 0);
                    assert((offset as nat) / 2 == lag as nat);
                }
                lemma_pow2_divides(offset as nat, length as nat);
                assert(n % (offset as int) == 0);
                lemma_fundamental_div_mod(n, offset as int);
                assert(n == (ngroups as int) * (offset as int)) by (nonlinear_arith)
                    requires
                        n == (offset as int) * (ngroups as int) + 0,
                ;
                assert(c + c == b * (offset as int)) by (nonlinear_arith)
                    requires
                        c == b * (lag as int) && offset == 2 * lag,
                ;
                assert(b * (offset as int) <= b * n) by {
                    lemma_mul_inequality(offset as int, n, b);
                }
                assert(0 <= c) by (nonlinear_arith)
                    requires
                        c == b * (lag as int) && b >= 0 && lag >= 1,
                ;
                assert forall|p: int| 0 <= p < n implies gs[p] == (#[trigger] v@[p]) as int && -(c
                    + c) <= v@[p] as int <= c + c by {
                    assert(to_int_seq(v@)[p] == v@[p] as int);
                    assert(-(b * (lag as int)) <= to_int_seq(v@)[p] <= b * (lag as int));
                }
            }
            let mut group: usize = 0;
            while group < ngroups
                invariant
                    v@.len() == n,
                    length == n,
                    1 <= lag,
                    offset == 2 * lag,
                    lag < n,
                    n == (ngroups as int) * (offset as int),
                    group <= ngroups,
                    gs.len() == n,
                    in_range(gs, c),
                    0 <= c,
                    c + c <= i64::MAX as int,
                    forall|p: int|
                        0 <= p < n ==> -(c + c) <= (#[trigger] v@[p]) as int <= c + c,
                    forall|p: int|
                        0 <= p < n ==> (#[trigger] v@[p]) as int == (if p / (offset as int)
                            < group as int {
                            had_stage(gs, lag as int)[p]
                        } else {
                            gs[p]
                        }),
                decreases ngroups - group,
            {
                let mut base: usize = 0;
                while base < lag
                    invariant
                        v@.len() == n,
                        length == n,
                        1 <= lag,
                        offset == 2 * lag,
                        lag < n,
                        n == (ngroups as int) * (offset as int),
                        group < ngroups,
                        base <= lag,
                        gs.len() == n,
                        in_range(gs, c),
                        0 <= c,
                        c + c <= i64::MAX as int,
                        forall|p: int|
                            0 <= p < n ==> -(c + c) <= (#[trigger] v@[p]) as int <= c + c,
                        forall|p: int|
                            0 <= p < n ==> (#[trigger] v@[p]) as int == (if p / (offset as int)
                                < group as int || (p / (offset as int) == group as int && (p % (
                            offset as int) < base as int || lag as int <= p % (offset as int)
                                < lag as int + base as int)) {
                                had_stage(gs, lag as int)[p]
                            } else {
                                gs[p]
                            }),
                    decreases lag - base,
                {
                    let ghost oo = offset as int;
                    let ghost ll = lag as int;
                    let ghost gg = group as int;
                    let ghost tt = base as int;
                    proof {
                        assert(gg * oo + oo <= n) by (nonlinear_arith)
                            requires
                                n == (ngroups as int) * oo && gg < ngroups as int && gg >= 0 && oo
                                    >= 1,
                        ;
                    }
                    let j = base + group * offset;
                    let k = j + lag;
                    let ghost jj = j as int;
                    let ghost kk = k as int;
                    proof {
                        lemma_fundamental_div_mod_converse(jj, oo, gg, tt);
                        lemma_fundamental_div_mod_converse(kk, oo, gg, tt + ll);
                        assert(kk == (2 * gg + 1) * ll + tt && jj == (2 * gg) * ll + tt) by (
                        nonlinear_arith)
                            requires
                                jj == gg * oo + tt && kk == jj + ll && oo == 2 * ll,
                        ;
                        lemma_fundamental_div_mod_converse(jj, ll, 2 * gg, tt);
                        lemma_fundamental_div_mod_converse(kk, ll, 2 * gg + 1, tt);
                        assert(v@[jj] as int == gs[jj]);
                        assert(v@[kk] as int == gs[kk]);
                    }
                    let x = v[j];
                    let y = v[k];
                    let ghost vpre = v@;
                    v.set(j, x + y);
                    v.set(k, x - y);
                    proof {
                        assert(had_stage(gs, ll)[jj] == gs[jj] + gs[kk]);
                        assert(had_stage(gs, ll)[kk] == gs[jj] - gs[kk]);
                        assert forall|p: int|
                            0 <= p < n implies (#[trigger] v@[p]) as int == (if p / oo < gg || (p
                            / oo == gg && (p % oo < tt + 1 || ll <= p % oo < ll + tt + 1)) {
                            had_stage(gs, ll)[p]
                        } else {
                            gs[p]
                        }) by {
                            if p == jj {
                                assert(jj != kk);
                                assert(v@[jj] == x + y);
                                assert(x as int == gs[jj]);
                                assert(y as int == gs[kk]);
                                assert(jj / oo == gg && jj % oo == tt);
                                assert(v@[jj] as int == had_stage(gs, ll)[jj]);
                            } else if p == kk {
                                assert(v@[kk] == x - y);
                                assert(kk / oo == gg && kk % oo == tt + ll);
                                assert(v@[kk] as int == had_stage(gs, ll)[kk]);
                            } else {
                                assert(v@[p] == vpre[p]);
                                assert(vpre[p] as int == (if p / oo < gg || (p / oo == gg && (p
                                    % oo < tt || ll <= p % oo < ll + tt)) {
                                    had_stage(gs, ll)[p]
                                } else {
                                    gs[p]
                                }));
                                lemma_fundamental_div_mod(p, oo);
                                lemma_mul_is_commutative(oo, gg);
                                if p / oo == gg && p % oo == tt {
                                    assert(p == jj);
                                }
                                if p / oo == gg && p % oo == tt + ll {
                                    assert(p == kk);
                                }
                            }
                        }
                    }
                    base = base + 1;
                }
                group = group + 1;
            }
            proof {
                assert forall|p: int| 0 <= p < n implies #[trigger] (p / (offset as int))
                    < ngroups as int by {
                    assert(n - 1 == (ngroups as int - 1) * (offset as int) + (offset as int
                        - 1)) by (nonlinear_arith)
                        requires
                            n == (ngroups as int) * (offset as int),
                    ;
                    lemma_fundamental_div_mod_converse(
                        n - 1,
                        offset as int,
                        ngroups as int - 1,
                        offset as int - 1,
                    );
                    lemma_div_is_ordered(p, n - 1, offset as int);
                }
                assert(to_int_seq(v@) =~= had_stage(gs, lag as int));
                assert(had_from(gs, lag as int) == had_from(
                    had_stage(gs, lag as int),
                    2 * (lag as int),
                ));
            }
            lag = offset;
        }
        proof {
            assert(had_from(to_int_seq(v@), lag as int) == to_int_seq(v@));
        }
        Some(v)
    } else {
        None
    }
}

} // verus!
