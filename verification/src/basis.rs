//! B-spline basis: span search and the Cox-de Boor recurrence.

use vstd::prelude::*;
use crate::SplineError;
use crate::rat::{Rat, RatV, rat_eq, rat_le, rat_lt, rat_wf, fits, norm, radd, rsub, rmul, rdiv};
use crate::rat::{spec_add, spec_sub, spec_mul, spec_div};
use crate::rat::{lemma_le_trans, lemma_lt_le_trans, lemma_le_lt_trans, lemma_eq_le_compat,
    lemma_norm};
use crate::knots::{KnotVec, seq_wf, nondecreasing, lemma_sorted_le};

verus! {

/// `t` lies outside the closed knot domain.
pub open spec fn out_of_domain(kn: Seq<RatV>, t: RatV) -> bool {
    rat_lt(t, kn[0]) || rat_lt(kn[kn.len() - 1], t)
}

/// First index at or after `i` whose knot exceeds `t` (`kn.len()` if none).
pub open spec fn first_gt(kn: Seq<RatV>, t: RatV, i: int) -> int
    recommends
        0 <= i <= kn.len(),
    decreases kn.len() - i,
{
    if i >= kn.len() {
        i
    } else if rat_lt(t, kn[i]) {
        i
    } else {
        first_gt(kn, t, i + 1)
    }
}

/// The active span index: the last `i` with `kn[i] <= t`, except that the
/// upper domain bound is folded back into the last valid span `n - 1`.
pub open spec fn span_of(kn: Seq<RatV>, n: int, t: RatV) -> int {
    if rat_eq(t, kn[kn.len() - 1]) {
        n - 1
    } else {
        first_gt(kn, t, 0) - 1
    }
}

/// A clamped (open) knot vector for `n` basis functions of degree `p`:
/// the first and the last knot value each fill `p+1` positions, and the
/// last distinct break is a genuine jump.
pub open spec fn clamped(kn: Seq<RatV>, n: int, p: int) -> bool {
    &&& p + 1 <= n
    &&& forall|i: int| 0 <= i <= p ==> rat_eq(#[trigger] kn[i], kn[0])
    &&& forall|i: int| n <= i < kn.len() ==> rat_eq(#[trigger] kn[i], kn[kn.len() - 1])
    &&& rat_lt(kn[n - 1], kn[n])
}

proof fn lemma_first_gt_at(kn: Seq<RatV>, t: RatV, i: int, f: int)
    requires
        0 <= i <= f <= kn.len(),
        forall|k: int| i <= k < f ==> !rat_lt(t, #[trigger] kn[k]),
        f < kn.len() ==> rat_lt(t, kn[f]),
    ensures
        first_gt(kn, t, i) == f,
    decreases f - i,
{
    if i < f {
        lemma_first_gt_at(kn, t, i + 1, f);
    }
}

pub proof fn lemma_first_gt_props(kn: Seq<RatV>, t: RatV, i: int)
    requires
        0 <= i <= kn.len(),
    ensures
        i <= first_gt(kn, t, i) <= kn.len(),
        forall|k: int| i <= k < first_gt(kn, t, i) ==> !rat_lt(t, #[trigger] kn[k]),
        first_gt(kn, t, i) < kn.len() ==> rat_lt(t, kn[first_gt(kn, t, i)]),
    decreases kn.len() - i,
{
    if i < kn.len() && !rat_lt(t, kn[i]) {
        lemma_first_gt_props(kn, t, i + 1);
    }
}

/// `left[k]` of the recurrence: the distance from the knot `k` places
/// below the span up to `t`.
pub open spec fn sleft(kn: Seq<RatV>, s: int, t: RatV, k: int) -> RatV {
    spec_sub(t, kn[s - k + 1])
}

/// `right[k]` of the recurrence: the distance from `t` up to the knot `k`
/// places above the span.
pub open spec fn sright(kn: Seq<RatV>, s: int, t: RatV, k: int) -> RatV {
    spec_sub(kn[s + k], t)
}

/// Entries `j..=i` of the degree-`i` row of the Cox-de Boor triangle,
/// folded with the running `saved` term.
pub open spec fn row_build(
    kn: Seq<RatV>,
    s: int,
    t: RatV,
    i: int,
    prev: Seq<RatV>,
    j: int,
    saved: RatV,
) -> Seq<RatV>
    decreases i - j,
{
    if j >= i {
        seq![saved]
    } else {
        let denom = spec_add(sright(kn, s, t, j + 1), sleft(kn, s, t, i - j));
        let tmp = spec_div(prev[j], denom);
        seq![spec_add(saved, spec_mul(sright(kn, s, t, j + 1), tmp))] + row_build(
            kn,
            s,
            t,
            i,
            prev,
            j + 1,
            spec_mul(sleft(kn, s, t, i - j), tmp),
        )
    }
}

/// The `i+1` non-vanishing basis values of degree `i` at `t` on span `s`.
pub open spec fn basis_row(kn: Seq<RatV>, s: int, t: RatV, i: int) -> Seq<RatV>
    decreases i,
{
    if i <= 0 {
        seq![RatV { n: 1, d: 1 }]
    } else {
        row_build(kn, s, t, i, basis_row(kn, s, t, i - 1), 0, RatV { n: 0, d: 1 })
    }
}

/// Every intermediate of the `j..` tail of the degree-`i` step stays
/// representable.
pub open spec fn row_ok(
    kn: Seq<RatV>,
    s: int,
    t: RatV,
    i: int,
    prev: Seq<RatV>,
    j: int,
    saved: RatV,
) -> bool
    decreases i - j,
{
    if j >= i {
        true
    } else {
        let rj = sright(kn, s, t, j + 1);
        let lij = sleft(kn, s, t, i - j);
        let denom = spec_add(rj, lij);
        let tmp = spec_div(prev[j], denom);
        &&& fits(radd(rj, lij))
        &&& fits(rdiv(prev[j], denom))
        &&& fits(rmul(rj, tmp))
        &&& fits(radd(saved, spec_mul(rj, tmp)))
        &&& fits(rmul(lij, tmp))
        &&& row_ok(kn, s, t, i, prev, j + 1, spec_mul(lij, tmp))
    }
}

/// Every intermediate from the degree-`i` step upward stays representable.
pub open spec fn rows_ok(kn: Seq<RatV>, s: int, t: RatV, p: int, i: int) -> bool
    decreases p + 1 - i,
{
    if i > p {
        true
    } else {
        &&& fits(rsub(t, kn[s - i + 1]))
        &&& fits(rsub(kn[s + i], t))
        &&& row_ok(kn, s, t, i, basis_row(kn, s, t, i - 1), 0, RatV { n: 0, d: 1 })
        &&& rows_ok(kn, s, t, p, i + 1)
    }
}

/// The whole degree-`p` evaluation at `t` on span `s` stays representable.
pub open spec fn eval_ok(kn: Seq<RatV>, s: int, t: RatV, p: int) -> bool {
    rows_ok(kn, s, t, p, 1)
}

pub proof fn lemma_row_build_len(
    kn: Seq<RatV>,
    s: int,
    t: RatV,
    i: int,
    prev: Seq<RatV>,
    j: int,
    saved: RatV,
)
    requires
        j <= i,
    ensures
        row_build(kn, s, t, i, prev, j, saved).len() == i - j + 1,
    decreases i - j,
{
    if j < i {
        let denom = spec_add(sright(kn, s, t, j + 1), sleft(kn, s, t, i - j));
        let tmp = spec_div(prev[j], denom);
        lemma_row_build_len(kn, s, t, i, prev, j + 1, spec_mul(sleft(kn, s, t, i - j), tmp));
    }
}

pub proof fn lemma_basis_row_len(kn: Seq<RatV>, s: int, t: RatV, i: int)
    requires
        0 <= i,
    ensures
        basis_row(kn, s, t, i).len() == i + 1,
{
    if i > 0 {
        lemma_row_build_len(kn, s, t, i, basis_row(kn, s, t, i - 1), 0, RatV { n: 0, d: 1 });
    }
}

/// The denominator `right[j+1] + left[i-j]` of the recurrence spans the
/// knot jump at the active span, so it is strictly positive; the lemma
/// also fixes the signs of the two distances.
pub proof fn lemma_denom_pos(kn: Seq<RatV>, s: int, t: RatV, n: int, p: int, i: int, j: int)
    requires
        seq_wf(kn),
        nondecreasing(kn),
        kn.len() == n + p + 1,
        rat_wf(t),
        1 <= n,
        p <= s,
        s + 1 <= n,
        1 <= i <= p,
        0 <= j < i,
        !out_of_domain(kn, t),
        rat_eq(t, kn[kn.len() - 1]) ==> s == n - 1 && clamped(kn, n, p),
        !rat_eq(t, kn[kn.len() - 1]) ==> rat_le(kn[s], t) && rat_lt(t, kn[s + 1]),
    ensures
        sright(kn, s, t, j + 1).n >= 0,
        sright(kn, s, t, j + 1).d >= 1,
        sleft(kn, s, t, i - j).n >= 0,
        sleft(kn, s, t, i - j).d >= 1,
        spec_add(sright(kn, s, t, j + 1), sleft(kn, s, t, i - j)).n >= 1,
        spec_add(sright(kn, s, t, j + 1), sleft(kn, s, t, i - j)).d >= 1,
{
    let m = kn.len();
    let a = kn[s + j + 1];
    let b = kn[s - (i - j) + 1];
    let rraw = rsub(a, t);
    let lraw = rsub(t, b);
    assert(rat_wf(a));
    assert(rat_wf(b));
    assert(rraw.d >= 1 && lraw.d >= 1) by (nonlinear_arith)
        requires
            a.d >= 1,
            b.d >= 1,
            t.d >= 1,
            rraw.d == a.d * t.d,
            lraw.d == t.d * b.d,
    ;
    if !rat_eq(t, kn[m - 1]) {
        lemma_sorted_le(kn, s + 1, s + j + 1);
        lemma_lt_le_trans(t, kn[s + 1], a);
        lemma_sorted_le(kn, s - (i - j) + 1, s);
        lemma_le_trans(b, kn[s], t);
        assert(rraw.n >= 1);
        assert(lraw.n >= 0);
    } else {
        assert(s == n - 1);
        assert(rat_eq(kn[s + j + 1], kn[m - 1]));
        assert(rat_eq(a, t)) by (nonlinear_arith)
            requires
                a.n * kn[m - 1].d == kn[m - 1].n * a.d,
                t.n * kn[m - 1].d == kn[m - 1].n * t.d,
                kn[m - 1].d >= 1,
                a.d >= 1,
                t.d >= 1,
        ;
        assert(rraw.n == 0);
        lemma_sorted_le(kn, s - (i - j) + 1, n - 1);
        lemma_le_lt_trans(b, kn[n - 1], kn[n]);
        lemma_sorted_le(kn, n, m - 1);
        lemma_lt_le_trans(b, kn[n], kn[m - 1]);
        lemma_eq_le_compat(b, b, kn[m - 1], t);
        assert(lraw.n >= 1);
    }
    lemma_norm(rraw);
    lemma_norm(lraw);
    let rv = norm(rraw);
    let lv = norm(lraw);
    assert(rv == sright(kn, s, t, j + 1));
    assert(lv == sleft(kn, s, t, i - j));
    let draw = radd(rv, lv);
    assert(draw.n >= 1 && draw.d >= 1) by (nonlinear_arith)
        requires
            draw.n == rv.n * lv.d + lv.n * rv.d,
            draw.d == rv.d * lv.d,
            rv.d >= 1,
            lv.d >= 1,
            rv.n >= 0,
            lv.n >= 0,
            rv.n >= 1 || lv.n >= 1,
    ;
    lemma_norm(draw);
}

/// A B-spline basis of `n` functions of degree `p` over a knot vector of
/// length `n + p + 1`.
#[derive(Clone, Debug)]
pub struct SplineBasis {
    /// Knot vector for the allocation of the basis functions.
    pub knots: KnotVec,
    /// Number of basis functions.
    pub n: usize,
    /// Degree of basis functions.
    pub p: usize,
}

impl SplineBasis {
    /// Knot vector sorted and sized to fit `n` and `p`.
    pub open spec fn wf(&self) -> bool {
        &&& self.knots.wf()
        &&& self.knots@.len() == self.n + self.p + 1
        &&& 1 <= self.n
    }

    /// Constructs a new [`SplineBasis`].
    pub fn new(knots: KnotVec, n: usize, p: usize) -> (r: SplineBasis)
        requires
            knots.wf(),
            knots@.len() == n + p + 1,
            1 <= n,
        ensures
            r.knots == knots,
            r.n == n,
            r.p == p,
            r.wf(),
    {
        SplineBasis { knots, n, p }
    }

    /// Constructs a new [`SplineBasis`] on an open knot vector of size `n+p+1`.
    pub fn open(n: usize, p: usize) -> (r: SplineBasis)
        requires
            p + 1 <= n,
            n + p + 1 <= usize::MAX,
            n - p <= i64::MAX,
        ensures
            r.n == n,
            r.p == p,
            r.wf(),
            clamped(r.knots@, n as int, p as int),
            rat_lt(r.knots@[p as int], r.knots@[p + 1]),
            rat_eq(r.knots@[0], RatV { n: 0, d: 1 }),
            rat_eq(r.knots@[r.knots@.len() - 1], RatV { n: 1, d: 1 }),
            forall|i: int| p < i < n ==> rat_eq(#[trigger] r.knots@[i], RatV { n: i - p, d: n - p }),
    {
        let knots = KnotVec::open(n, p);
        let r = SplineBasis { knots, n, p };
        proof {
            let kn = r.knots@;
            let m = kn.len();
            assert forall|i: int| 0 <= i <= p implies rat_eq(#[trigger] kn[i], kn[0]) by {
                assert(kn[i] == kn[0]);
            }
            assert forall|i: int| n <= i < m implies rat_eq(#[trigger] kn[i], kn[m - 1]) by {
                assert(kn[i] == kn[m - 1]);
            }
            // the first break is a jump: kn[p] is 0, kn[p+1] is interior or 1
            let fhi = kn[p + 1];
            if p + 1 < n {
                let fiv = RatV { n: 1, d: (n - p) as int };
                lemma_norm(fiv);
                assert(kn[p as int].n * fiv.d < fiv.n * kn[p as int].d) by (nonlinear_arith)
                    requires
                        kn[p as int].n == 0,
                        kn[p as int].d == 1,
                        fiv.n == 1,
                        fiv.d >= 1,
                ;
                lemma_eq_le_compat(fiv, fhi, fiv, fhi);
                lemma_eq_le_compat(kn[p as int], kn[p as int], fiv, fhi);
            } else {
                assert(fhi == (RatV { n: 1, d: 1 }));
                assert(rat_lt(kn[p as int], fhi));
            }
            // the last break is a jump: kn[n-1] is 0 or an interior knot, kn[n] is 1
            let lo = kn[n - 1];
            let hi = kn[n as int];
            assert(hi == (RatV { n: 1, d: 1 }));
            if n - 1 <= p {
                assert(lo == (RatV { n: 0, d: 1 }));
                assert(rat_lt(lo, hi));
            } else {
                let iv = RatV { n: (n - 1 - p) as int, d: (n - p) as int };
                lemma_norm(iv);
                assert(iv.n * hi.d < hi.n * iv.d) by (nonlinear_arith)
                    requires
                        hi.n == 1,
                        hi.d == 1,
                        iv.n < iv.d,
                ;
                lemma_eq_le_compat(lo, iv, hi, hi);
            }
        }
        r
    }

    /// Finds the index `i` such that `knots[i] <= t < knots[i+1]`, with the
    /// upper domain bound mapped to span `n - 1`; a parameter outside the
    /// knot range is a domain error.
    pub fn find_span(&self, t: Rat) -> (r: Result<usize, SplineError>)
        requires
            self.wf(),
            rat_wf(t@),
        ensures
            r is Err <==> out_of_domain(self.knots@, t@),
            r is Err ==> r->Err_0 == SplineError::Domain,
            r is Ok ==> r->Ok_0 == span_of(self.knots@, self.n as int, t@),
            r is Ok && rat_eq(t@, self.knots@[self.knots@.len() - 1]) ==> r->Ok_0 + 1 == self.n,
            r is Ok && !rat_eq(t@, self.knots@[self.knots@.len() - 1]) ==> {
                let s = r->Ok_0 as int;
                &&& s + 1 < self.knots@.len()
                &&& rat_le(self.knots@[s], t@)
                &&& rat_lt(t@, self.knots@[s + 1])
            },
            r is Ok && clamped(self.knots@, self.n as int, self.p as int) ==> self.p <= r->Ok_0
                && r->Ok_0 + 1 <= self.n,
    {
        let ghost kn = self.knots@;
        let ghost m = kn.len();
        let first = self.knots.first();
        let last = self.knots.last();
        if t.lt(&first) || last.lt(&t) {
            return Err(SplineError::Domain);
        }
        if t.eq_val(&last) {
            proof {
                if clamped(kn, self.n as int, self.p as int) {
                    assert(self.p + 1 <= self.n);
                }
            }
            return Ok(self.n - 1);
        }
        let len = self.knots.len();
        let mut lo: usize = 0;
        let mut hi: usize = len;
        while lo < hi
            invariant
                lo <= hi <= len,
                len == kn.len(),
                self.wf(),
                rat_wf(t@),
                kn == self.knots@,
                forall|k: int| 0 <= k < lo ==> !rat_lt(t@, #[trigger] kn[k]),
                forall|k: int| hi <= k < len ==> rat_lt(t@, #[trigger] kn[k]),
            decreases hi - lo,
        {
            let mid = lo + (hi - lo) / 2;
            if self.knots.at(mid).le(&t) {
                proof {
                    assert forall|k: int| 0 <= k <= mid implies !rat_lt(t@, #[trigger] kn[k]) by {
                        lemma_sorted_le(kn, k, mid as int);
                        lemma_le_trans(kn[k], kn[mid as int], t@);
                    }
                }
                lo = mid + 1;
            } else {
                proof {
                    assert forall|k: int| mid <= k < len implies rat_lt(t@, #[trigger] kn[k]) by {
                        lemma_sorted_le(kn, mid as int, k);
                        lemma_lt_le_trans(t@, kn[mid as int], kn[k]);
                    }
                }
                hi = mid;
            }
        }
        proof {
            // the final one is above `t`, so the search stopped before it
            assert(rat_le(t@, kn[m - 1]));
            assert(rat_lt(t@, kn[m - 1]));
            assert(lo < len) by {
                if lo == len {
                    assert(!rat_lt(t@, kn[m - 1]));
                }
            }
            assert(lo >= 1) by {
                if lo == 0 {
                    assert(rat_lt(t@, kn[0]));
                }
            }
            lemma_first_gt_at(kn, t@, 0, lo as int);
            let s = lo - 1;
            if clamped(kn, self.n as int, self.p as int) {
                // prefix knots all equal the first, which is below `t`
                if s < self.p {
                    assert(rat_eq(kn[lo as int], kn[0]));
                    lemma_eq_le_compat(kn[lo as int], kn[0], t@, t@);
                    assert(!rat_lt(t@, kn[0]));
                }
                // `t` is strictly below the (n)-th knot, which equals the last
                assert(rat_eq(kn[self.n as int], kn[m - 1]));
                lemma_eq_le_compat(kn[self.n as int], kn[m - 1], t@, t@);
                assert(rat_lt(t@, kn[self.n as int]));
                assert(s + 1 <= self.n) by {
                    if lo > self.n {
                        assert(!rat_lt(t@, kn[self.n as int]));
                    }
                }
            }
        }
        Ok(lo - 1)
    }

    /// Evaluates the `p+1` non-vanishing basis functions at the parametric
    /// point `t`: entry `j` is basis function `span - p + j`. Fails with a
    /// domain error outside the knot range and with an overflow error when
    /// an exact intermediate value leaves the representable range.
    pub fn eval(&self, t: Rat) -> (r: Result<Vec<Rat>, SplineError>)
        requires
            self.wf(),
            rat_wf(t@),
            clamped(self.knots@, self.n as int, self.p as int),
        ensures
            ({
                let kn = self.knots@;
                let s = span_of(kn, self.n as int, t@);
                &&& ((r is Err && r->Err_0 == SplineError::Domain) <==> out_of_domain(kn, t@))
                &&& ((r is Err && r->Err_0 == SplineError::Overflow) <==> (!out_of_domain(kn, t@)
                    && !eval_ok(kn, s, t@, self.p as int)))
                &&& (r is Ok <==> (!out_of_domain(kn, t@) && eval_ok(kn, s, t@, self.p as int)))
                &&& (r is Ok ==> r->Ok_0@.map_values(|x: Rat| x@) == basis_row(
                    kn,
                    s,
                    t@,
                    self.p as int,
                ) && r->Ok_0@.len() == self.p + 1 && seq_wf(r->Ok_0@.map_values(|x: Rat| x@)))
            }),
    {
        let ghost kn = self.knots@;
        let ghost nn = self.n as int;
        let ghost pp = self.p as int;
        let span = match self.find_span(t) {
            Ok(s) => s,
            Err(e) => {
                return Err(e);
            },
        };
        let ghost sp = span as int;
        let p = self.p;
        let len = self.knots.len();
        proof {
            assert(kn.len() <= usize::MAX);
        }
        let mut left: Vec<Rat> = Vec::new();
        let mut right: Vec<Rat> = Vec::new();
        let mut b: Vec<Rat> = Vec::new();
        let mut k: usize = 0;
        while k < p + 1
            invariant
                p < usize::MAX,
                k <= p + 1,
                left@.len() == k,
                right@.len() == k,
                b@.len() == k,
                forall|q: int| 0 <= q < k ==> (#[trigger] left@[q])@ == (RatV { n: 0, d: 1 }),
                forall|q: int| 0 <= q < k ==> (#[trigger] right@[q])@ == (RatV { n: 0, d: 1 }),
                forall|q: int| 0 <= q < k ==> (#[trigger] b@[q])@ == (RatV { n: 0, d: 1 }),
            decreases p + 1 - k,
        {
            left.push(Rat::zero());
            right.push(Rat::zero());
            b.push(Rat::zero());
            k += 1;
        }
        b.set(0, Rat::one());
        proof {
            lemma_basis_row_len(kn, sp, t@, 0);
        }
        let mut i: usize = 1;
        while i <= p
            invariant
                1 <= i <= p + 1,
                kn.len() <= usize::MAX,
                self.wf(),
                rat_wf(t@),
                clamped(kn, nn, pp),
                kn == self.knots@,
                nn == self.n as int,
                pp == p as int,
                p == self.p,
                sp == span as int,
                sp == span_of(kn, nn, t@),
                pp <= sp,
                sp + 1 <= nn,
                !out_of_domain(kn, t@),
                rat_eq(t@, kn[kn.len() - 1]) ==> sp == nn - 1,
                !rat_eq(t@, kn[kn.len() - 1]) ==> rat_le(kn[sp], t@) && rat_lt(t@, kn[sp + 1]),
                left@.len() == p + 1,
                right@.len() == p + 1,
                b@.len() == p + 1,
                forall|q: int| 0 <= q < p + 1 ==> rat_wf((#[trigger] left@[q])@),
                forall|q: int| 0 <= q < p + 1 ==> rat_wf((#[trigger] right@[q])@),
                forall|q: int| 0 <= q < p + 1 ==> rat_wf((#[trigger] b@[q])@),
                forall|q: int| 1 <= q < i ==> (#[trigger] left@[q])@ == sleft(kn, sp, t@, q),
                forall|q: int| 1 <= q < i ==> (#[trigger] right@[q])@ == sright(kn, sp, t@, q),
                forall|q: int| 0 <= q < i ==> (#[trigger] b@[q])@ == basis_row(kn, sp, t@, i - 1)[q],
                eval_ok(kn, sp, t@, pp) == rows_ok(kn, sp, t@, pp, i as int),
            decreases p + 1 - i,
        {
            let lk = self.knots.at(span - i + 1);
            let lv = match t.sub(lk) {
                Some(v) => v,
                None => {
                    return Err(SplineError::Overflow);
                },
            };
            left.set(i, lv);
            let rk = self.knots.at(span + i);
            let rv = match rk.sub(t) {
                Some(v) => v,
                None => {
                    return Err(SplineError::Overflow);
                },
            };
            right.set(i, rv);
            let ghost prev = basis_row(kn, sp, t@, i - 1);
            let ghost row = basis_row(kn, sp, t@, i as int);
            proof {
                lemma_basis_row_len(kn, sp, t@, i - 1);
                lemma_basis_row_len(kn, sp, t@, i as int);
                assert(row.skip(0) =~= row);
            }
            let mut saved = Rat::zero();
            let mut j: usize = 0;
            while j < i
                invariant
                    j <= i,
                    kn.len() <= usize::MAX,
                    1 <= i <= p,
                    self.wf(),
                    rat_wf(t@),
                    clamped(kn, nn, pp),
                    kn == self.knots@,
                    nn == self.n as int,
                    pp == p as int,
                    p == self.p,
                    sp == span as int,
                    sp == span_of(kn, nn, t@),
                    pp <= sp,
                    sp + 1 <= nn,
                    !out_of_domain(kn, t@),
                    rat_eq(t@, kn[kn.len() - 1]) ==> sp == nn - 1,
                    !rat_eq(t@, kn[kn.len() - 1]) ==> rat_le(kn[sp], t@) && rat_lt(t@, kn[sp + 1]),
                    left@.len() == p + 1,
                    right@.len() == p + 1,
                    b@.len() == p + 1,
                    forall|q: int| 0 <= q < p + 1 ==> rat_wf((#[trigger] left@[q])@),
                    forall|q: int| 0 <= q < p + 1 ==> rat_wf((#[trigger] right@[q])@),
                    forall|q: int| 0 <= q < p + 1 ==> rat_wf((#[trigger] b@[q])@),
                    forall|q: int| 1 <= q <= i ==> (#[trigger] left@[q])@ == sleft(kn, sp, t@, q),
                    forall|q: int| 1 <= q <= i ==> (#[trigger] right@[q])@ == sright(kn, sp, t@, q),
                    prev == basis_row(kn, sp, t@, i - 1),
                    row == basis_row(kn, sp, t@, i as int),
                    prev.len() == i,
                    row.len() == i + 1,
                    forall|q: int| 0 <= q < j ==> (#[trigger] b@[q])@ == row[q],
                    forall|q: int| j <= q < i ==> (#[trigger] b@[q])@ == prev[q],
                    rat_wf(saved@),
                    row.skip(j as int) == row_build(kn, sp, t@, i as int, prev, j as int, saved@),
                    eval_ok(kn, sp, t@, pp) == (row_ok(kn, sp, t@, i as int, prev, j as int, saved@)
                        && rows_ok(kn, sp, t@, pp, i + 1)),
                decreases i - j,
            {
                proof {
                    lemma_denom_pos(kn, sp, t@, nn, pp, i as int, j as int);
                }
                let ghost rj = sright(kn, sp, t@, j + 1);
                let ghost lij = sleft(kn, sp, t@, i - j);
                let denom = match right[j + 1].add(left[i - j]) {
                    Some(v) => v,
                    None => {
                        return Err(SplineError::Overflow);
                    },
                };
                let tmp = match b[j].div(denom) {
                    Some(v) => v,
                    None => {
                        return Err(SplineError::Overflow);
                    },
                };
                let rt = match right[j + 1].mul(tmp) {
                    Some(v) => v,
                    None => {
                        return Err(SplineError::Overflow);
                    },
                };
                let bj = match saved.add(rt) {
                    Some(v) => v,
                    None => {
                        return Err(SplineError::Overflow);
                    },
                };
                let ls = match left[i - j].mul(tmp) {
                    Some(v) => v,
                    None => {
                        return Err(SplineError::Overflow);
                    },
                };
                b.set(j, bj);
                proof {
                    let saved2 = spec_mul(lij, spec_div(prev[j as int], spec_add(rj, lij)));
                    assert(ls@ == saved2);
                    assert(row.skip(j as int)[0] == row[j as int]);
                    assert(row[j as int] == bj@);
                    let tail = row_build(kn, sp, t@, i as int, prev, j + 1, saved2);
                    lemma_row_build_len(kn, sp, t@, i as int, prev, j + 1, saved2);
                    assert(row.skip(j + 1) =~= tail) by {
                        assert forall|q: int| 0 <= q < i - j implies row.skip(j + 1)[q] == tail[q]
                        by {
                            assert(row.skip(j as int)[q + 1] == row[j + q + 1]);
                            assert(row.skip(j + 1)[q] == row[j + 1 + q]);
                            assert(row.skip(j as int)[q + 1] == (seq![row.skip(j as int)[0]]
                                + tail)[q + 1]);
                        }
                    }
                }
                saved = ls;
                j += 1;
            }
            b.set(i, saved);
            proof {
                assert(row.skip(i as int) == seq![saved@]);
                assert(row.skip(i as int)[0] == row[i as int]);
                assert forall|q: int| 0 <= q < i + 1 implies (#[trigger] b@[q])@ == row[q] by {}
            }
            i += 1;
        }
        proof {
            lemma_basis_row_len(kn, sp, t@, pp);
            assert(b@.map_values(|x: Rat| x@) =~= basis_row(kn, sp, t@, pp));
        }
        Ok(b)
    }
}

} // verus!
