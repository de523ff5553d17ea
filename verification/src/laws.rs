//! Global properties of the basis: span correctness, local support of the
//! returned values, and the partition of unity.

use vstd::prelude::*;
use crate::rat::{RatV, rat_eq, rat_le, rat_lt, rat_wf};
use crate::rat::{lemma_le_trans, lemma_lt_le_trans, lemma_le_lt_trans, lemma_eq_trans,
    lemma_eq_le_compat, lemma_add_val, lemma_mul_val, lemma_div_val, lemma_add_assoc,
    lemma_add_zero, lemma_blend, lemma_spec_add_cong};
use crate::rat::{spec_add, spec_div, spec_mul, radd, rmul, rdiv, rsub, lemma_norm};
use crate::curve::{curve_coord, active, wsum};
use crate::knots::{seq_wf, nondecreasing, lemma_sorted_le};
use crate::basis::{clamped, out_of_domain, span_of, first_gt, basis_row, row_build, sleft,
    sright, lemma_first_gt_props, lemma_denom_pos, lemma_row_build_len, lemma_basis_row_len};

verus! {

/// Exact sum of the entries of `s` from position `j` on.
pub open spec fn sum_from(s: Seq<RatV>, j: int) -> RatV
    decreases s.len() - j,
{
    if j < 0 || j >= s.len() {
        RatV { n: 0, d: 1 }
    } else {
        spec_add(s[j], sum_from(s, j + 1))
    }
}

/// Every entry is non-negative with a positive denominator.
pub open spec fn entries_nonneg(s: Seq<RatV>) -> bool {
    forall|k: int| 0 <= k < s.len() ==> (#[trigger] s[k]).n >= 0 && s[k].d >= 1
}

proof fn lemma_sum_from_push_front(x: RatV, rest: Seq<RatV>, q: int)
    requires
        0 <= q <= rest.len(),
    ensures
        sum_from(seq![x] + rest, q + 1) == sum_from(rest, q),
    decreases rest.len() - q,
{
    if q < rest.len() {
        lemma_sum_from_push_front(x, rest, q + 1);
        assert((seq![x] + rest)[q + 1] == rest[q]);
    }
}

proof fn lemma_sum_from_props(s: Seq<RatV>, j: int)
    requires
        entries_nonneg(s),
    ensures
        sum_from(s, j).d >= 1,
        sum_from(s, j).n >= 0,
    decreases s.len() - j,
{
    if 0 <= j < s.len() {
        lemma_sum_from_props(s, j + 1);
        lemma_add_val(s[j], sum_from(s, j + 1));
    }
}

proof fn lemma_zero_arg_add(x: RatV, y: RatV)
    requires
        x.d >= 1,
        y.d >= 1,
        x.n == 0,
    ensures
        rat_eq(spec_add(x, y), y),
        rat_eq(spec_add(y, x), y),
{
    lemma_add_val(x, y);
    lemma_add_val(y, x);
    assert((x.n * y.d + y.n * x.d) * y.d == y.n * (x.d * y.d)) by (nonlinear_arith)
        requires
            x.n == 0,
    ;
    assert((y.n * x.d + x.n * y.d) * y.d == y.n * (y.d * x.d)) by (nonlinear_arith)
        requires
            x.n == 0,
    ;
    lemma_eq_trans(spec_add(x, y), radd(x, y), y);
    lemma_eq_trans(spec_add(y, x), radd(y, x), y);
}

proof fn lemma_zero_mul(x: RatV, y: RatV)
    requires
        x.d >= 1,
        y.d >= 1,
        x.n == 0 || y.n == 0,
    ensures
        spec_mul(x, y).n == 0,
        spec_mul(x, y).d >= 1,
{
    lemma_mul_val(x, y);
    assert(x.n * y.n == 0) by (nonlinear_arith)
        requires
            x.n == 0 || y.n == 0,
    ;
    crate::rat::lemma_norm(rmul(x, y));
}

proof fn lemma_zero_div(x: RatV, y: RatV)
    requires
        x.d >= 1,
        y.d >= 1,
        x.n == 0,
        y.n != 0,
    ensures
        spec_div(x, y).n == 0,
        spec_div(x, y).d >= 1,
{
    lemma_div_val(x, y);
    assert(rdiv(x, y).n == 0) by (nonlinear_arith)
        requires
            x.n == 0,
            rdiv(x, y).n == if y.n >= 0 {
                x.n * y.d
            } else {
                -(x.n * y.d)
            },
    ;
    crate::rat::lemma_norm(rdiv(x, y));
}

proof fn lemma_one_mul(x: RatV, y: RatV)
    requires
        x.d >= 1,
        y.d >= 1,
        rat_eq(x, RatV { n: 1, d: 1 }),
    ensures
        rat_eq(spec_mul(x, y), y),
{
    lemma_mul_val(x, y);
    assert((x.n * y.n) * y.d == y.n * (x.d * y.d)) by (nonlinear_arith)
        requires
            x.n == x.d,
    ;
    lemma_eq_trans(spec_mul(x, y), rmul(x, y), y);
}

/// Span correctness: inside the domain the span `s` found for `t`
/// satisfies `kn[s] <= t < kn[s+1]`, except at the upper bound, where the
/// span is `n - 1`; on a clamped vector the span always lies between `p`
/// and `n - 1`.
pub proof fn lemma_span_in_range(kn: Seq<RatV>, n: int, p: int, t: RatV)
    requires
        seq_wf(kn),
        nondecreasing(kn),
        kn.len() == n + p + 1,
        1 <= n,
        0 <= p,
        rat_wf(t),
        !out_of_domain(kn, t),
    ensures
        ({
            let s = span_of(kn, n, t);
            &&& (rat_eq(t, kn[kn.len() - 1]) ==> s == n - 1)
            &&& (!rat_eq(t, kn[kn.len() - 1]) ==> 0 <= s && s + 1 < kn.len() && rat_le(kn[s], t)
                && rat_lt(t, kn[s + 1]))
            &&& (clamped(kn, n, p) ==> p <= s && s + 1 <= n)
        }),
{
    let m = kn.len();
    let s = span_of(kn, n, t);
    if !rat_eq(t, kn[m - 1]) {
        lemma_first_gt_props(kn, t, 0);
        let f = first_gt(kn, t, 0);
        assert(rat_le(t, kn[m - 1]));
        assert(rat_lt(t, kn[m - 1]));
        assert(f < m) by {
            if f == m {
                assert(!rat_lt(t, kn[m - 1]));
            }
        }
        assert(f >= 1) by {
            if f == 0 {
                assert(rat_lt(t, kn[0]));
            }
        }
        assert(s == f - 1);
        assert(!rat_lt(t, kn[s]));
        if clamped(kn, n, p) {
            if s < p {
                assert(rat_eq(kn[f], kn[0]));
                lemma_eq_le_compat(kn[f], kn[0], t, t);
                assert(!rat_lt(t, kn[0]));
            }
            assert(rat_eq(kn[n], kn[m - 1]));
            lemma_eq_le_compat(kn[n], kn[m - 1], t, t);
            assert(rat_lt(t, kn[n]));
            assert(f <= n) by {
                if f > n {
                    assert(!rat_lt(t, kn[n]));
                }
            }
        }
    }
}

/// Local support: every basis value that the evaluation returns for `t`
/// belongs to a function whose support `[kn[k], kn[k+p+1]]` contains `t`,
/// where `k = span - p + j` is the index of the `j`-th returned value.
pub proof fn lemma_support_covers(kn: Seq<RatV>, n: int, p: int, t: RatV)
    requires
        seq_wf(kn),
        nondecreasing(kn),
        kn.len() == n + p + 1,
        1 <= n,
        0 <= p,
        rat_wf(t),
        clamped(kn, n, p),
        !out_of_domain(kn, t),
    ensures
        forall|j: int|
            0 <= j <= p ==> rat_le(#[trigger] kn[span_of(kn, n, t) - p + j], t) && rat_le(
                t,
                kn[span_of(kn, n, t) + j + 1],
            ),
{
    let m = kn.len();
    let s = span_of(kn, n, t);
    lemma_span_in_range(kn, n, p, t);
    assert forall|j: int| 0 <= j <= p implies rat_le(#[trigger] kn[s - p + j], t) && rat_le(
        t,
        kn[s + j + 1],
    ) by {
        if rat_eq(t, kn[m - 1]) {
            // below: everything at or before the span is at most kn[n-1] < last
            lemma_sorted_le(kn, s - p + j, n - 1);
            lemma_le_lt_trans(kn[s - p + j], kn[n - 1], kn[n]);
            lemma_sorted_le(kn, n, m - 1);
            lemma_lt_le_trans(kn[s - p + j], kn[n], kn[m - 1]);
            lemma_eq_le_compat(kn[s - p + j], kn[s - p + j], kn[m - 1], t);
            // above: the knots from n on all equal the last, which equals t
            assert(rat_eq(kn[s + j + 1], kn[m - 1]));
            lemma_eq_le_compat(t, t, kn[s + j + 1], kn[m - 1]);
            assert(rat_le(t, kn[m - 1]));
        } else {
            lemma_sorted_le(kn, s - p + j, s);
            lemma_le_trans(kn[s - p + j], kn[s], t);
            lemma_sorted_le(kn, s + 1, s + j + 1);
            lemma_lt_le_trans(t, kn[s + 1], kn[s + j + 1]);
        }
    }
}

proof fn lemma_row_build_props(
    kn: Seq<RatV>,
    s: int,
    t: RatV,
    n: int,
    p: int,
    i: int,
    prev: Seq<RatV>,
    j: int,
    saved: RatV,
)
    requires
        seq_wf(kn),
        nondecreasing(kn),
        kn.len() == n + p + 1,
        rat_wf(t),
        1 <= n,
        p <= s,
        s + 1 <= n,
        1 <= i <= p,
        0 <= j <= i,
        !out_of_domain(kn, t),
        rat_eq(t, kn[kn.len() - 1]) ==> s == n - 1 && clamped(kn, n, p),
        !rat_eq(t, kn[kn.len() - 1]) ==> rat_le(kn[s], t) && rat_lt(t, kn[s + 1]),
        prev.len() == i,
        entries_nonneg(prev),
        saved.n >= 0,
        saved.d >= 1,
    ensures
        entries_nonneg(row_build(kn, s, t, i, prev, j, saved)),
        rat_eq(
            sum_from(row_build(kn, s, t, i, prev, j, saved), 0),
            spec_add(saved, sum_from(prev, j)),
        ),
        spec_add(saved, sum_from(prev, j)).d >= 1,
    decreases i - j,
{
    lemma_sum_from_props(prev, j);
    lemma_add_val(saved, sum_from(prev, j));
    if j >= i {
        let out = seq![saved];
        assert(sum_from(out, 1) == (RatV { n: 0, d: 1 }));
        assert(out[0] == saved);
        assert(sum_from(out, 0) == spec_add(saved, RatV { n: 0, d: 1 }));
        assert(sum_from(prev, j) == (RatV { n: 0, d: 1 }));
    } else {
        lemma_denom_pos(kn, s, t, n, p, i, j);
        let rj = sright(kn, s, t, j + 1);
        let lij = sleft(kn, s, t, i - j);
        let denom = spec_add(rj, lij);
        lemma_add_val(rj, lij);
        let tmp = spec_div(prev[j], denom);
        lemma_div_val(prev[j], denom);
        let rt = spec_mul(rj, tmp);
        lemma_mul_val(rj, tmp);
        let bj = spec_add(saved, rt);
        lemma_add_val(saved, rt);
        let sv2 = spec_mul(lij, tmp);
        lemma_mul_val(lij, tmp);
        lemma_row_build_props(kn, s, t, n, p, i, prev, j + 1, sv2);
        let rest = row_build(kn, s, t, i, prev, j + 1, sv2);
        let cat = row_build(kn, s, t, i, prev, j, saved);
        lemma_row_build_len(kn, s, t, i, prev, j + 1, sv2);
        assert(cat == seq![bj] + rest);
        // entries
        assert forall|k: int| 0 <= k < cat.len() implies (#[trigger] cat[k]).n >= 0 && cat[k].d
            >= 1 by {
            if k == 0 {
                assert(cat[0] == bj);
            } else {
                assert(cat[k] == rest[k - 1]);
            }
        }
        // sum
        lemma_sum_from_push_front(bj, rest, 0);
        assert(sum_from(cat, 0) == spec_add(bj, sum_from(rest, 0)));
        let ss = sum_from(prev, j + 1);
        lemma_sum_from_props(prev, j + 1);
        let x = sum_from(rest, 0);
        assert forall|k: int| 0 <= k < rest.len() implies (#[trigger] rest[k]).n >= 0 && rest[k].d
            >= 1 by {}
        lemma_sum_from_props(rest, 0);
        // x == sv2 + ss (recursion), so bj + x == (saved + rt) + (sv2 + ss)
        lemma_add_val(sv2, ss);
        lemma_add_val(bj, x);
        lemma_add_val(bj, spec_add(sv2, ss));
        lemma_spec_add_cong(bj, bj, x, spec_add(sv2, ss));
        lemma_add_assoc(saved, rt, spec_add(sv2, ss));
        lemma_add_val(rt, spec_add(sv2, ss));
        lemma_add_val(saved, spec_add(rt, spec_add(sv2, ss)));
        lemma_add_val(spec_add(saved, rt), spec_add(sv2, ss));
        lemma_eq_trans(
            spec_add(bj, x),
            spec_add(bj, spec_add(sv2, ss)),
            spec_add(saved, spec_add(rt, spec_add(sv2, ss))),
        );
        // rt + (sv2 + ss) == (rt + sv2) + ss == prev[j] + ss
        lemma_add_assoc(rt, sv2, ss);
        lemma_add_val(rt, sv2);
        lemma_add_val(spec_add(rt, sv2), ss);
        lemma_blend(rj, lij, prev[j]);
        lemma_spec_add_cong(spec_add(rt, sv2), prev[j], ss, ss);
        lemma_eq_trans(
            spec_add(rt, spec_add(sv2, ss)),
            spec_add(spec_add(rt, sv2), ss),
            spec_add(prev[j], ss),
        );
        // fold the right-hand side back to saved + sum_from(prev, j)
        assert(sum_from(prev, j) == spec_add(prev[j], ss));
        lemma_add_val(prev[j], ss);
        lemma_add_val(saved, spec_add(prev[j], ss));
        lemma_spec_add_cong(saved, saved, spec_add(rt, spec_add(sv2, ss)), spec_add(prev[j], ss));
        lemma_add_val(rt, sv2);
        lemma_eq_trans(
            spec_add(bj, x),
            spec_add(saved, spec_add(rt, spec_add(sv2, ss))),
            spec_add(saved, spec_add(prev[j], ss)),
        );
    }
}

proof fn lemma_basis_row_props(kn: Seq<RatV>, s: int, t: RatV, n: int, p: int, i: int)
    requires
        seq_wf(kn),
        nondecreasing(kn),
        kn.len() == n + p + 1,
        rat_wf(t),
        1 <= n,
        p <= s,
        s + 1 <= n,
        0 <= i <= p,
        !out_of_domain(kn, t),
        rat_eq(t, kn[kn.len() - 1]) ==> s == n - 1 && clamped(kn, n, p),
        !rat_eq(t, kn[kn.len() - 1]) ==> rat_le(kn[s], t) && rat_lt(t, kn[s + 1]),
    ensures
        entries_nonneg(basis_row(kn, s, t, i)),
        rat_eq(sum_from(basis_row(kn, s, t, i), 0), RatV { n: 1, d: 1 }),
    decreases i,
{
    let one = RatV { n: 1, d: 1 };
    let zero = RatV { n: 0, d: 1 };
    if i <= 0 {
        let row = basis_row(kn, s, t, i);
        assert(row == seq![one]);
        assert(sum_from(row, 1) == zero);
        assert(sum_from(row, 0) == spec_add(one, zero));
        lemma_add_val(one, zero);
        let ra = radd(one, zero);
        assert(ra.n == one.n * zero.d + zero.n * one.d);
        assert(ra.n == 1int);
        assert(ra.d == 1int);
        assert(ra == one);
        assert(rat_eq(spec_add(one, zero), one));
    } else {
        lemma_basis_row_props(kn, s, t, n, p, i - 1);
        let prev = basis_row(kn, s, t, i - 1);
        lemma_basis_row_len(kn, s, t, i - 1);
        lemma_row_build_props(kn, s, t, n, p, i, prev, 0, zero);
        lemma_sum_from_props(prev, 0);
        lemma_sum_from_props(basis_row(kn, s, t, i), 0);
        lemma_add_zero(sum_from(prev, 0));
        lemma_eq_trans(
            sum_from(basis_row(kn, s, t, i), 0),
            spec_add(zero, sum_from(prev, 0)),
            sum_from(prev, 0),
        );
        lemma_eq_trans(sum_from(basis_row(kn, s, t, i), 0), sum_from(prev, 0), one);
    }
}

/// Every entry has a positive denominator.
pub open spec fn entries_dpos(s: Seq<RatV>) -> bool {
    forall|k: int| 0 <= k < s.len() ==> (#[trigger] s[k]).d >= 1
}

proof fn lemma_row_build_first(
    kn: Seq<RatV>,
    s: int,
    t: RatV,
    n: int,
    p: int,
    i: int,
    prev: Seq<RatV>,
    j: int,
    saved: RatV,
)
    requires
        seq_wf(kn),
        nondecreasing(kn),
        kn.len() == n + p + 1,
        rat_wf(t),
        1 <= n,
        p <= s,
        s + 1 <= n,
        1 <= i <= p,
        0 <= j <= i,
        !out_of_domain(kn, t),
        rat_eq(t, kn[kn.len() - 1]) ==> s == n - 1 && clamped(kn, n, p),
        !rat_eq(t, kn[kn.len() - 1]) ==> rat_le(kn[s], t) && rat_lt(t, kn[s + 1]),
        prev.len() == i,
        entries_nonneg(prev),
        saved.d >= 1,
        saved.n == 0,
        forall|k: int| 1 <= k <= p ==> (#[trigger] sleft(kn, s, t, k)).n == 0,
        j == 0 ==> rat_eq(prev[0], RatV { n: 1, d: 1 }),
        forall|k: int| 1 <= k < i && j <= k ==> (#[trigger] prev[k]).n == 0,
    ensures
        ({
            let out = row_build(kn, s, t, i, prev, j, saved);
            &&& (j == 0 ==> rat_eq(out[0], RatV { n: 1, d: 1 }))
            &&& forall|q: int|
                (if j == 0 {
                    1int
                } else {
                    0int
                }) <= q < out.len() ==> (#[trigger] out[q]).n == 0
        }),
    decreases i - j,
{
    let one = RatV { n: 1, d: 1 };
    if j >= i {
        assert(row_build(kn, s, t, i, prev, j, saved) == seq![saved]);
    } else {
        lemma_denom_pos(kn, s, t, n, p, i, j);
        let rj = sright(kn, s, t, j + 1);
        let lij = sleft(kn, s, t, i - j);
        assert(lij.n == 0);
        let denom = spec_add(rj, lij);
        lemma_add_val(rj, lij);
        let tmp = spec_div(prev[j], denom);
        lemma_div_val(prev[j], denom);
        let rt = spec_mul(rj, tmp);
        lemma_mul_val(rj, tmp);
        let bj = spec_add(saved, rt);
        lemma_add_val(saved, rt);
        let sv2 = spec_mul(lij, tmp);
        lemma_zero_mul(lij, tmp);
        if j == 0 {
            lemma_blend(rj, lij, prev[0]);
            lemma_zero_arg_add(sv2, rt);
            lemma_add_val(rt, sv2);
            lemma_eq_trans(rt, spec_add(rt, sv2), prev[0]);
            lemma_zero_arg_add(saved, rt);
            lemma_eq_trans(bj, rt, prev[0]);
            lemma_eq_trans(bj, prev[0], one);
        } else {
            assert(prev[j].n == 0);
            lemma_zero_div(prev[j], denom);
            lemma_zero_mul(rj, tmp);
            assert(radd(saved, rt).n == 0) by (nonlinear_arith)
                requires
                    saved.n == 0,
                    rt.n == 0,
            ;
            lemma_norm(radd(saved, rt));
            assert(bj.n == 0);
        }
        lemma_row_build_first(kn, s, t, n, p, i, prev, j + 1, sv2);
        let rest = row_build(kn, s, t, i, prev, j + 1, sv2);
        let out = row_build(kn, s, t, i, prev, j, saved);
        lemma_row_build_len(kn, s, t, i, prev, j + 1, sv2);
        assert(out == seq![bj] + rest);
        assert forall|q: int|
            (if j == 0 {
                1int
            } else {
                0int
            }) <= q < out.len() implies (#[trigger] out[q]).n == 0 by {
            if q == 0 {
                assert(out[0] == bj);
            } else {
                assert(out[q] == rest[q - 1]);
            }
        }
    }
}

proof fn lemma_basis_row_first(kn: Seq<RatV>, s: int, t: RatV, n: int, p: int, i: int)
    requires
        seq_wf(kn),
        nondecreasing(kn),
        kn.len() == n + p + 1,
        rat_wf(t),
        1 <= n,
        p <= s,
        s + 1 <= n,
        0 <= i <= p,
        !out_of_domain(kn, t),
        rat_eq(t, kn[kn.len() - 1]) ==> s == n - 1 && clamped(kn, n, p),
        !rat_eq(t, kn[kn.len() - 1]) ==> rat_le(kn[s], t) && rat_lt(t, kn[s + 1]),
        forall|k: int| 1 <= k <= p ==> (#[trigger] sleft(kn, s, t, k)).n == 0,
    ensures
        rat_eq(basis_row(kn, s, t, i)[0], RatV { n: 1, d: 1 }),
        forall|q: int| 1 <= q < i + 1 ==> (#[trigger] basis_row(kn, s, t, i)[q]).n == 0,
    decreases i,
{
    let one = RatV { n: 1, d: 1 };
    let zero = RatV { n: 0, d: 1 };
    if i <= 0 {
        assert(basis_row(kn, s, t, i) == seq![one]);
    } else {
        lemma_basis_row_first(kn, s, t, n, p, i - 1);
        lemma_basis_row_props(kn, s, t, n, p, i - 1);
        let prev = basis_row(kn, s, t, i - 1);
        lemma_basis_row_len(kn, s, t, i - 1);
        lemma_row_build_first(kn, s, t, n, p, i, prev, 0, zero);
        lemma_basis_row_len(kn, s, t, i);
    }
}

proof fn lemma_row_build_last(
    kn: Seq<RatV>,
    s: int,
    t: RatV,
    n: int,
    p: int,
    i: int,
    prev: Seq<RatV>,
    j: int,
    saved: RatV,
)
    requires
        seq_wf(kn),
        nondecreasing(kn),
        kn.len() == n + p + 1,
        rat_wf(t),
        1 <= n,
        p <= s,
        s + 1 <= n,
        1 <= i <= p,
        0 <= j <= i - 1,
        !out_of_domain(kn, t),
        rat_eq(t, kn[kn.len() - 1]) ==> s == n - 1 && clamped(kn, n, p),
        !rat_eq(t, kn[kn.len() - 1]) ==> rat_le(kn[s], t) && rat_lt(t, kn[s + 1]),
        prev.len() == i,
        entries_nonneg(prev),
        saved.d >= 1,
        saved.n == 0,
        forall|k: int| 1 <= k <= p ==> (#[trigger] sright(kn, s, t, k)).n == 0,
        rat_eq(prev[i - 1], RatV { n: 1, d: 1 }),
        forall|k: int| j <= k < i - 1 ==> (#[trigger] prev[k]).n == 0,
    ensures
        ({
            let out = row_build(kn, s, t, i, prev, j, saved);
            &&& rat_eq(out[out.len() - 1], RatV { n: 1, d: 1 })
            &&& forall|q: int| 0 <= q < out.len() - 1 ==> (#[trigger] out[q]).n == 0
        }),
    decreases i - j,
{
    let one = RatV { n: 1, d: 1 };
    lemma_denom_pos(kn, s, t, n, p, i, j);
    let rj = sright(kn, s, t, j + 1);
    let lij = sleft(kn, s, t, i - j);
    assert(rj.n == 0);
    let denom = spec_add(rj, lij);
    lemma_add_val(rj, lij);
    let tmp = spec_div(prev[j], denom);
    lemma_div_val(prev[j], denom);
    let rt = spec_mul(rj, tmp);
    lemma_zero_mul(rj, tmp);
    let bj = spec_add(saved, rt);
    lemma_add_val(saved, rt);
    assert(radd(saved, rt).n == 0) by (nonlinear_arith)
        requires
            saved.n == 0,
            rt.n == 0,
    ;
    lemma_norm(radd(saved, rt));
    assert(bj.n == 0);
    let sv2 = spec_mul(lij, tmp);
    lemma_mul_val(lij, tmp);
    let out = row_build(kn, s, t, i, prev, j, saved);
    if j == i - 1 {
        lemma_blend(rj, lij, prev[j]);
        lemma_zero_arg_add(rt, sv2);
        lemma_add_val(rt, sv2);
        lemma_eq_trans(sv2, spec_add(rt, sv2), prev[j]);
        lemma_eq_trans(sv2, prev[j], one);
        assert(row_build(kn, s, t, i, prev, j + 1, sv2) == seq![sv2]);
        assert(out == seq![bj] + seq![sv2]);
        assert(out.len() == 2);
        assert(out[0] == bj && out[1] == sv2);
    } else {
        assert(prev[j].n == 0);
        lemma_zero_div(prev[j], denom);
        lemma_zero_mul(lij, tmp);
        lemma_row_build_last(kn, s, t, n, p, i, prev, j + 1, sv2);
        let rest = row_build(kn, s, t, i, prev, j + 1, sv2);
        lemma_row_build_len(kn, s, t, i, prev, j + 1, sv2);
        assert(out == seq![bj] + rest);
        assert(out[out.len() - 1] == rest[rest.len() - 1]);
        assert forall|q: int| 0 <= q < out.len() - 1 implies (#[trigger] out[q]).n == 0 by {
            if q == 0 {
                assert(out[0] == bj);
            } else {
                assert(out[q] == rest[q - 1]);
            }
        }
    }
}

proof fn lemma_basis_row_last(kn: Seq<RatV>, s: int, t: RatV, n: int, p: int, i: int)
    requires
        seq_wf(kn),
        nondecreasing(kn),
        kn.len() == n + p + 1,
        rat_wf(t),
        1 <= n,
        p <= s,
        s + 1 <= n,
        0 <= i <= p,
        !out_of_domain(kn, t),
        rat_eq(t, kn[kn.len() - 1]) ==> s == n - 1 && clamped(kn, n, p),
        !rat_eq(t, kn[kn.len() - 1]) ==> rat_le(kn[s], t) && rat_lt(t, kn[s + 1]),
        forall|k: int| 1 <= k <= p ==> (#[trigger] sright(kn, s, t, k)).n == 0,
    ensures
        rat_eq(basis_row(kn, s, t, i)[i], RatV { n: 1, d: 1 }),
        forall|q: int| 0 <= q < i ==> (#[trigger] basis_row(kn, s, t, i)[q]).n == 0,
    decreases i,
{
    let one = RatV { n: 1, d: 1 };
    let zero = RatV { n: 0, d: 1 };
    if i <= 0 {
        assert(basis_row(kn, s, t, i) == seq![one]);
    } else {
        lemma_basis_row_last(kn, s, t, n, p, i - 1);
        lemma_basis_row_props(kn, s, t, n, p, i - 1);
        let prev = basis_row(kn, s, t, i - 1);
        lemma_basis_row_len(kn, s, t, i - 1);
        lemma_row_build_last(kn, s, t, n, p, i, prev, 0, zero);
        lemma_basis_row_len(kn, s, t, i);
    }
}

proof fn lemma_wsum_zero_tail(vals: Seq<RatV>, coords: Seq<RatV>, j: int, acc: RatV)
    requires
        acc.d >= 1,
        coords.len() == vals.len(),
        entries_dpos(coords),
        forall|k: int| j <= k < vals.len() ==> (#[trigger] vals[k]).n == 0 && vals[k].d >= 1,
    ensures
        rat_eq(wsum(vals, coords, j, acc), acc),
        wsum(vals, coords, j, acc).d >= 1,
    decreases vals.len() - j,
{
    if 0 <= j < vals.len() {
        let m = spec_mul(vals[j], coords[j]);
        lemma_zero_mul(vals[j], coords[j]);
        let acc2 = spec_add(acc, m);
        lemma_add_val(acc, m);
        lemma_zero_arg_add(m, acc);
        lemma_wsum_zero_tail(vals, coords, j + 1, acc2);
        lemma_eq_trans(wsum(vals, coords, j, acc), acc2, acc);
    }
}

proof fn lemma_wsum_lead_zero(vals: Seq<RatV>, coords: Seq<RatV>, j: int, acc: RatV)
    requires
        acc.d >= 1,
        acc.n == 0,
        vals.len() >= 1,
        coords.len() == vals.len(),
        entries_dpos(coords),
        0 <= j <= vals.len() - 1,
        forall|k: int| j <= k < vals.len() - 1 ==> (#[trigger] vals[k]).n == 0 && vals[k].d >= 1,
        rat_eq(vals[vals.len() - 1], RatV { n: 1, d: 1 }),
        vals[vals.len() - 1].d >= 1,
    ensures
        rat_eq(wsum(vals, coords, j, acc), coords[coords.len() - 1]),
    decreases vals.len() - j,
{
    let last = vals.len() - 1;
    let m = spec_mul(vals[j], coords[j]);
    lemma_mul_val(vals[j], coords[j]);
    let acc2 = spec_add(acc, m);
    lemma_add_val(acc, m);
    if j < last {
        lemma_zero_mul(vals[j], coords[j]);
        assert(radd(acc, m).n == 0) by (nonlinear_arith)
            requires
                acc.n == 0,
                m.n == 0,
        ;
        lemma_norm(radd(acc, m));
        lemma_wsum_lead_zero(vals, coords, j + 1, acc2);
    } else {
        lemma_one_mul(vals[j], coords[j]);
        lemma_zero_arg_add(acc, m);
        lemma_eq_trans(acc2, m, coords[last]);
        assert(wsum(vals, coords, j + 1, acc2) == acc2);
        lemma_eq_trans(wsum(vals, coords, j, acc), acc2, coords[last]);
    }
}

/// Curve endpoint interpolation at the lower bound of a clamped knot
/// vector whose first break is a genuine jump: the curve coordinate at
/// `t == kn[0]` is the first control coordinate.
pub proof fn lemma_endpoint_first(kn: Seq<RatV>, n: int, p: int, coords: Seq<RatV>, t: RatV)
    requires
        seq_wf(kn),
        nondecreasing(kn),
        kn.len() == n + p + 1,
        1 <= n,
        0 <= p,
        rat_wf(t),
        clamped(kn, n, p),
        rat_lt(kn[p], kn[p + 1]),
        rat_eq(t, kn[0]),
        coords.len() == n,
        entries_dpos(coords),
    ensures
        !out_of_domain(kn, t),
        rat_eq(curve_coord(kn, n, p, coords, t), coords[0]),
{
    let m = kn.len();
    let one = RatV { n: 1, d: 1 };
    let zero = RatV { n: 0, d: 1 };
    // in the domain: t equals the first knot, which is at most the last
    lemma_sorted_le(kn, 0, m - 1);
    lemma_eq_le_compat(t, kn[0], kn[m - 1], kn[m - 1]);
    assert(!out_of_domain(kn, t));
    // strictly below the last knot, so the span search applies
    lemma_sorted_le(kn, 0, p);
    lemma_sorted_le(kn, p + 1, m - 1);
    lemma_eq_le_compat(t, kn[0], kn[p], kn[p]);
    lemma_le_lt_trans(t, kn[p], kn[p + 1]);
    lemma_lt_le_trans(t, kn[p + 1], kn[m - 1]);
    assert(!rat_eq(t, kn[m - 1]));
    lemma_span_in_range(kn, n, p, t);
    let s = span_of(kn, n, t);
    assert(s == p) by {
        if s > p {
            lemma_sorted_le(kn, p + 1, s);
            lemma_lt_le_trans(t, kn[p + 1], kn[s]);
        }
    }
    // every `left` distance vanishes: the knots below the span equal kn[0]
    assert forall|k: int| 1 <= k <= p implies (#[trigger] sleft(kn, s, t, k)).n == 0 by {
        let idx = s - k + 1;
        assert(rat_eq(kn[idx], kn[0]));
        lemma_eq_trans(t, kn[0], kn[idx]);
        assert(rsub(t, kn[idx]).n == 0);
        assert(rsub(t, kn[idx]).d >= 1) by (nonlinear_arith)
            requires
                t.d >= 1,
                kn[idx].d >= 1,
        ;
        lemma_norm(rsub(t, kn[idx]));
    }
    lemma_basis_row_first(kn, s, t, n, p, p);
    lemma_basis_row_props(kn, s, t, n, p, p);
    let row = basis_row(kn, s, t, p);
    lemma_basis_row_len(kn, s, t, p);
    let ax = active(coords, s, p);
    assert(ax.len() == p + 1);
    assert(ax[0] == coords[0]);
    // first summand picks out coords[0]; the rest vanish
    let m0 = spec_mul(row[0], ax[0]);
    lemma_one_mul(row[0], ax[0]);
    let acc1 = spec_add(zero, m0);
    lemma_mul_val(row[0], ax[0]);
    lemma_add_val(zero, m0);
    lemma_zero_arg_add(zero, m0);
    lemma_eq_trans(acc1, m0, coords[0]);
    assert forall|k: int| 1 <= k < row.len() implies (#[trigger] row[k]).n == 0 && row[k].d
        >= 1 by {}
    assert(entries_dpos(ax)) by {
        assert forall|k: int| 0 <= k < ax.len() implies (#[trigger] ax[k]).d >= 1 by {
            assert(ax[k] == coords[s - p + k]);
        }
    }
    lemma_wsum_zero_tail(row, ax, 1, acc1);
    assert(wsum(row, ax, 0, zero) == wsum(row, ax, 1, acc1));
    lemma_eq_trans(wsum(row, ax, 0, zero), acc1, coords[0]);
}

/// Curve endpoint interpolation at the upper bound of a clamped knot
/// vector: the curve coordinate at `t == kn[kn.len()-1]` is the last
/// control coordinate.
pub proof fn lemma_endpoint_last(kn: Seq<RatV>, n: int, p: int, coords: Seq<RatV>, t: RatV)
    requires
        seq_wf(kn),
        nondecreasing(kn),
        kn.len() == n + p + 1,
        1 <= n,
        0 <= p,
        rat_wf(t),
        clamped(kn, n, p),
        rat_eq(t, kn[kn.len() - 1]),
        coords.len() == n,
        entries_dpos(coords),
    ensures
        !out_of_domain(kn, t),
        rat_eq(curve_coord(kn, n, p, coords, t), coords[n - 1]),
{
    let m = kn.len();
    let one = RatV { n: 1, d: 1 };
    let zero = RatV { n: 0, d: 1 };
    lemma_sorted_le(kn, 0, m - 1);
    lemma_eq_le_compat(t, t, kn[0], kn[0]);
    lemma_eq_le_compat(kn[0], kn[0], kn[m - 1], t);
    assert(!out_of_domain(kn, t));
    lemma_span_in_range(kn, n, p, t);
    let s = span_of(kn, n, t);
    assert(s == n - 1);
    // every `right` distance vanishes: the knots above the span equal the last
    assert forall|k: int| 1 <= k <= p implies (#[trigger] sright(kn, s, t, k)).n == 0 by {
        let idx = s + k;
        assert(rat_eq(kn[idx], kn[m - 1]));
        lemma_eq_trans(kn[idx], kn[m - 1], t);
        assert(rsub(kn[idx], t).n == 0);
        assert(rsub(kn[idx], t).d >= 1) by (nonlinear_arith)
            requires
                t.d >= 1,
                kn[idx].d >= 1,
        ;
        lemma_norm(rsub(kn[idx], t));
    }
    lemma_basis_row_last(kn, s, t, n, p, p);
    lemma_basis_row_props(kn, s, t, n, p, p);
    let row = basis_row(kn, s, t, p);
    lemma_basis_row_len(kn, s, t, p);
    let ax = active(coords, s, p);
    assert(ax.len() == p + 1);
    assert(ax[p] == coords[n - 1]);
    assert(entries_dpos(ax)) by {
        assert forall|k: int| 0 <= k < ax.len() implies (#[trigger] ax[k]).d >= 1 by {
            assert(ax[k] == coords[s - p + k]);
        }
    }
    assert forall|k: int| 0 <= k < row.len() - 1 implies (#[trigger] row[k]).n == 0 && row[k].d
        >= 1 by {}
    lemma_wsum_lead_zero(row, ax, 0, zero);
}

/// Partition of unity: at every parameter inside the domain of a clamped
/// knot vector, the `p+1` returned basis values are non-negative and sum
/// exactly to one.
pub proof fn lemma_partition_of_unity(kn: Seq<RatV>, n: int, p: int, t: RatV)
    requires
        seq_wf(kn),
        nondecreasing(kn),
        kn.len() == n + p + 1,
        1 <= n,
        0 <= p,
        rat_wf(t),
        clamped(kn, n, p),
        !out_of_domain(kn, t),
    ensures
        ({
            let row = basis_row(kn, span_of(kn, n, t), t, p);
            &&& entries_nonneg(row)
            &&& rat_eq(sum_from(row, 0), RatV { n: 1, d: 1 })
        }),
{
    let s = span_of(kn, n, t);
    lemma_span_in_range(kn, n, p, t);
    lemma_basis_row_props(kn, s, t, n, p, p);
}

} // verus!
