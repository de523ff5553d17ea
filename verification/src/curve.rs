//! B-spline curves: control points weighted by basis values.

use vstd::prelude::*;
use crate::SplineError;
use crate::rat::{Rat, RatV, rat_wf, fits, radd, rsub, rmul, rdiv, spec_add, spec_sub, spec_mul,
    spec_div};
use crate::knots::seq_wf;
use crate::basis::{SplineBasis, clamped, out_of_domain, span_of, basis_row, eval_ok,
    lemma_basis_row_len};

verus! {

/// Model of a planar point: both coordinates as model rationals.
pub ghost struct PointV {
    pub x: RatV,
    pub y: RatV,
}

/// A planar control or curve point with exact rational coordinates.
#[derive(Clone, Copy, Debug, PartialEq, Eq, Structural)]
pub struct Point {
    pub x: Rat,
    pub y: Rat,
}

impl View for Point {
    type V = PointV;

    open spec fn view(&self) -> PointV {
        PointV { x: self.x@, y: self.y@ }
    }
}

/// Both coordinates representable.
pub open spec fn point_wf(q: PointV) -> bool {
    rat_wf(q.x) && rat_wf(q.y)
}

/// Every point of the sequence is well-formed.
pub open spec fn points_wf(s: Seq<PointV>) -> bool {
    forall|i: int| 0 <= i < s.len() ==> point_wf(#[trigger] s[i])
}

impl Point {
    pub fn new(x: Rat, y: Rat) -> (r: Point)
        ensures
            r@ == (PointV { x: x@, y: y@ }),
    {
        Point { x, y }
    }
}

/// The `x` coordinates of a point sequence.
pub open spec fn xs(s: Seq<PointV>) -> Seq<RatV> {
    s.map_values(|q: PointV| q.x)
}

/// The `y` coordinates of a point sequence.
pub open spec fn ys(s: Seq<PointV>) -> Seq<RatV> {
    s.map_values(|q: PointV| q.y)
}

/// Weighted sum `acc + sum_{k >= j} vals[k] * coords[k]`, folded exactly
/// as the evaluation loop computes it.
pub open spec fn wsum(vals: Seq<RatV>, coords: Seq<RatV>, j: int, acc: RatV) -> RatV
    decreases vals.len() - j,
{
    if j < 0 || j >= vals.len() {
        acc
    } else {
        wsum(vals, coords, j + 1, spec_add(acc, spec_mul(vals[j], coords[j])))
    }
}

/// Every intermediate of the weighted sum stays representable.
pub open spec fn wsum_ok(vals: Seq<RatV>, coords: Seq<RatV>, j: int, acc: RatV) -> bool
    decreases vals.len() - j,
{
    if j < 0 || j >= vals.len() {
        true
    } else {
        &&& fits(rmul(vals[j], coords[j]))
        &&& fits(radd(acc, spec_mul(vals[j], coords[j])))
        &&& wsum_ok(vals, coords, j + 1, spec_add(acc, spec_mul(vals[j], coords[j])))
    }
}

/// The control-point window `s-p ..= s` that is active on span `s`.
pub open spec fn active(coords: Seq<RatV>, s: int, p: int) -> Seq<RatV> {
    coords.subrange(s - p, s + 1)
}

/// The exact curve coordinate at `t`: basis values on the active span,
/// weighted by the active window of `coords`.
pub open spec fn curve_coord(kn: Seq<RatV>, n: int, p: int, coords: Seq<RatV>, t: RatV) -> RatV {
    let s = span_of(kn, n, t);
    wsum(basis_row(kn, s, t, p), active(coords, s, p), 0, RatV { n: 0, d: 1 })
}

/// The whole curve evaluation at `t` stays representable.
pub open spec fn curve_eval_ok(kn: Seq<RatV>, n: int, p: int, pts: Seq<PointV>, t: RatV) -> bool {
    let s = span_of(kn, n, t);
    let vals = basis_row(kn, s, t, p);
    &&& eval_ok(kn, s, t, p)
    &&& wsum_ok(vals, active(xs(pts), s, p), 0, RatV { n: 0, d: 1 })
    &&& wsum_ok(vals, active(ys(pts), s, p), 0, RatV { n: 0, d: 1 })
}

/// The `k`-th of `count` parameters spacing the knot domain uniformly:
/// `first + (last - first) * k / (count - 1)`.
pub open spec fn param_at(kn: Seq<RatV>, count: int, k: int) -> RatV {
    if count <= 1 {
        kn[0]
    } else {
        spec_add(
            kn[0],
            spec_div(
                spec_mul(spec_sub(kn[kn.len() - 1], kn[0]), RatV { n: k, d: 1 }),
                RatV { n: count - 1, d: 1 },
            ),
        )
    }
}

/// From sample `k` on, every mesh parameter is representable, inside the
/// domain, and evaluable without overflow.
pub open spec fn mesh_ok(
    kn: Seq<RatV>,
    n: int,
    p: int,
    pts: Seq<PointV>,
    count: int,
    k: int,
) -> bool
    decreases count - k,
{
    if k >= count {
        true
    } else {
        let diff = spec_sub(kn[kn.len() - 1], kn[0]);
        let num = spec_mul(diff, RatV { n: k, d: 1 });
        let t = param_at(kn, count, k);
        &&& (count > 1 ==> {
            &&& fits(rsub(kn[kn.len() - 1], kn[0]))
            &&& fits(rmul(diff, RatV { n: k, d: 1 }))
            &&& fits(rdiv(num, RatV { n: count - 1, d: 1 }))
            &&& fits(radd(kn[0], spec_div(num, RatV { n: count - 1, d: 1 })))
        })
        &&& !out_of_domain(kn, t)
        &&& curve_eval_ok(kn, n, p, pts, t)
        &&& mesh_ok(kn, n, p, pts, count, k + 1)
    }
}

/// A B-spline curve: one control point per basis function.
#[derive(Clone, Debug)]
pub struct SplineCurve {
    /// Control points, one per basis function.
    pub control_points: Vec<Point>,
    /// The underlying basis.
    pub basis: SplineBasis,
}

impl SplineCurve {
    /// Sized control polygon over a well-formed basis.
    pub open spec fn wf(&self) -> bool {
        &&& self.basis.wf()
        &&& self.control_points@.len() == self.basis.n
        &&& points_wf(self.control_points@.map_values(|q: Point| q@))
    }

    /// Pairs control points with a basis; a count that differs from the
    /// number of basis functions is a cardinality error, and no such curve
    /// is ever constructed.
    pub fn new(control_points: Vec<Point>, basis: SplineBasis) -> (r: Result<
        SplineCurve,
        SplineError,
    >)
        requires
            basis.wf(),
            points_wf(control_points@.map_values(|q: Point| q@)),
        ensures
            r is Ok <==> control_points@.len() == basis.n,
            r is Err <==> control_points@.len() != basis.n,
            r is Err ==> r->Err_0 == SplineError::Cardinality,
            r is Ok ==> r->Ok_0.control_points == control_points && r->Ok_0.basis == basis
                && r->Ok_0.wf(),
    {
        if control_points.len() != basis.n {
            Err(SplineError::Cardinality)
        } else {
            Ok(SplineCurve { control_points, basis })
        }
    }

    /// Evaluates the curve at `t`: the weighted sum of the `p+1` active
    /// control points by the non-vanishing basis values. Fails with a
    /// domain error outside the knot range and with an overflow error when
    /// an exact intermediate value leaves the representable range.
    pub fn eval(&self, t: Rat) -> (r: Result<Point, SplineError>)
        requires
            self.wf(),
            rat_wf(t@),
            clamped(self.basis.knots@, self.basis.n as int, self.basis.p as int),
        ensures
            ({
                let kn = self.basis.knots@;
                let n = self.basis.n as int;
                let p = self.basis.p as int;
                let pts = self.control_points@.map_values(|q: Point| q@);
                &&& ((r is Err && r->Err_0 == SplineError::Domain) <==> out_of_domain(kn, t@))
                &&& ((r is Err && r->Err_0 == SplineError::Overflow) <==> (!out_of_domain(kn, t@)
                    && !curve_eval_ok(kn, n, p, pts, t@)))
                &&& (r is Ok <==> (!out_of_domain(kn, t@) && curve_eval_ok(kn, n, p, pts, t@)))
                &&& (r is Ok ==> (r->Ok_0)@.x == curve_coord(kn, n, p, xs(pts), t@)
                    && (r->Ok_0)@.y == curve_coord(kn, n, p, ys(pts), t@) && point_wf((r->Ok_0)@))
            }),
    {
        let ghost kn = self.basis.knots@;
        let ghost nn = self.basis.n as int;
        let ghost pp = self.basis.p as int;
        let ghost pts = self.control_points@.map_values(|q: Point| q@);
        let ghost sp = span_of(kn, nn, t@);
        let vals = match self.basis.eval(t) {
            Ok(v) => v,
            Err(e) => {
                return Err(e);
            },
        };
        let span = match self.basis.find_span(t) {
            Ok(s) => s,
            Err(e) => {
                return Err(e);
            },
        };
        let p = self.basis.p;
        let m = self.basis.knots.len();
        proof {
            assert(kn.len() <= usize::MAX);
        }
        let base = span - p;
        let ghost row = basis_row(kn, sp, t@, pp);
        let ghost ax = active(xs(pts), sp, pp);
        let ghost ay = active(ys(pts), sp, pp);
        proof {
            lemma_basis_row_len(kn, sp, t@, pp);
            assert(ax.len() == pp + 1);
            assert(ay.len() == pp + 1);
        }
        let mut accx = Rat::zero();
        let mut accy = Rat::zero();
        let mut j: usize = 0;
        while j < p + 1
            invariant
                j <= p + 1,
                kn.len() <= usize::MAX,
                p == self.basis.p,
                self.wf(),
                rat_wf(t@),
                kn == self.basis.knots@,
                nn == self.basis.n as int,
                pp == p as int,
                pts == self.control_points@.map_values(|q: Point| q@),
                sp == span_of(kn, nn, t@),
                !out_of_domain(kn, t@),
                eval_ok(kn, sp, t@, pp),
                pp <= span as int,
                span + 1 <= self.basis.n,
                sp == span as int,
                base == span - p,
                row == basis_row(kn, sp, t@, pp),
                row.len() == pp + 1,
                ax == active(xs(pts), sp, pp),
                ay == active(ys(pts), sp, pp),
                vals@.len() == p + 1,
                vals@.map_values(|x: Rat| x@) == row,
                seq_wf(vals@.map_values(|x: Rat| x@)),
                rat_wf(accx@),
                rat_wf(accy@),
                wsum(row, ax, 0, RatV { n: 0, d: 1 }) == wsum(row, ax, j as int, accx@),
                wsum(row, ay, 0, RatV { n: 0, d: 1 }) == wsum(row, ay, j as int, accy@),
                wsum_ok(row, ax, 0, RatV { n: 0, d: 1 }) == wsum_ok(row, ax, j as int, accx@),
                wsum_ok(row, ay, 0, RatV { n: 0, d: 1 }) == wsum_ok(row, ay, j as int, accy@),
            decreases p + 1 - j,
        {
            let ghost vj = row[j as int];
            proof {
                assert(vals@[j as int]@ == row[j as int]);
                assert(rat_wf(vj));
                assert(pts[base + j] == self.control_points@[base + j]@);
                assert(ax[j as int] == xs(pts)[base + j]);
                assert(ay[j as int] == ys(pts)[base + j]);
            }
            let cp = self.control_points[base + j];
            let tx = match vals[j].mul(cp.x) {
                Some(v) => v,
                None => {
                    proof {
                        assert(!fits(rmul(row[j as int], ax[j as int])));
                        assert(!wsum_ok(row, ax, j as int, accx@));
                    }
                    return Err(SplineError::Overflow);
                },
            };
            let nx = match accx.add(tx) {
                Some(v) => v,
                None => {
                    proof {
                        assert(!fits(radd(accx@, spec_mul(row[j as int], ax[j as int]))));
                        assert(!wsum_ok(row, ax, j as int, accx@));
                    }
                    return Err(SplineError::Overflow);
                },
            };
            let ty = match vals[j].mul(cp.y) {
                Some(v) => v,
                None => {
                    proof {
                        assert(!fits(rmul(row[j as int], ay[j as int])));
                        assert(!wsum_ok(row, ay, j as int, accy@));
                    }
                    return Err(SplineError::Overflow);
                },
            };
            let ny = match accy.add(ty) {
                Some(v) => v,
                None => {
                    proof {
                        assert(!fits(radd(accy@, spec_mul(row[j as int], ay[j as int]))));
                        assert(!wsum_ok(row, ay, j as int, accy@));
                    }
                    return Err(SplineError::Overflow);
                },
            };
            accx = nx;
            accy = ny;
            j += 1;
        }
        Ok(Point { x: accx, y: accy })
    }

    /// Samples the curve at `count` parameters spanning the whole domain
    /// uniformly; two calls with the same `count` return the same points.
    pub fn mesh(&self, count: usize) -> (r: Result<Vec<Point>, SplineError>)
        requires
            self.wf(),
            clamped(self.basis.knots@, self.basis.n as int, self.basis.p as int),
            count <= i64::MAX,
        ensures
            ({
                let kn = self.basis.knots@;
                let n = self.basis.n as int;
                let p = self.basis.p as int;
                let pts = self.control_points@.map_values(|q: Point| q@);
                &&& (r is Ok <==> mesh_ok(kn, n, p, pts, count as int, 0))
                &&& (r is Ok ==> r->Ok_0@.len() == count && (forall|k: int|
                    0 <= k < count ==> (#[trigger] r->Ok_0@[k])@.x == curve_coord(
                        kn,
                        n,
                        p,
                        xs(pts),
                        param_at(kn, count as int, k),
                    ) && r->Ok_0@[k]@.y == curve_coord(kn, n, p, ys(pts), param_at(
                        kn,
                        count as int,
                        k,
                    ))))
                &&& (r is Err ==> r->Err_0 == SplineError::Domain || r->Err_0
                    == SplineError::Overflow)
            }),
    {
        let ghost kn = self.basis.knots@;
        let ghost nn = self.basis.n as int;
        let ghost pp = self.basis.p as int;
        let ghost pts = self.control_points@.map_values(|q: Point| q@);
        let first = self.basis.knots.first();
        let last = self.basis.knots.last();
        let mut out: Vec<Point> = Vec::new();
        let mut k: usize = 0;
        while k < count
            invariant
                k <= count,
                count <= i64::MAX,
                self.wf(),
                clamped(kn, nn, pp),
                kn == self.basis.knots@,
                nn == self.basis.n as int,
                pp == self.basis.p as int,
                pts == self.control_points@.map_values(|q: Point| q@),
                first@ == kn[0],
                last@ == kn[kn.len() - 1],
                rat_wf(first@),
                rat_wf(last@),
                out@.len() == k,
                forall|q: int|
                    0 <= q < k ==> (#[trigger] out@[q])@.x == curve_coord(
                        kn,
                        nn,
                        pp,
                        xs(pts),
                        param_at(kn, count as int, q),
                    ) && out@[q]@.y == curve_coord(kn, nn, pp, ys(pts), param_at(
                        kn,
                        count as int,
                        q,
                    )),
                mesh_ok(kn, nn, pp, pts, count as int, 0) == mesh_ok(
                    kn,
                    nn,
                    pp,
                    pts,
                    count as int,
                    k as int,
                ),
            decreases count - k,
        {
            let ghost diff_s = spec_sub(kn[kn.len() - 1], kn[0]);
            let ghost num_s = spec_mul(diff_s, RatV { n: k as int, d: 1 });
            let ghost tpar = param_at(kn, count as int, k as int);
            let t: Rat;
            if count > 1 {
                let diff = match last.sub(first) {
                    Some(v) => v,
                    None => {
                        return Err(SplineError::Overflow);
                    },
                };
                let num = match diff.mul(Rat::from_int(k as i64)) {
                    Some(v) => v,
                    None => {
                        return Err(SplineError::Overflow);
                    },
                };
                let den = Rat::from_int((count - 1) as i64);
                let frac = match num.div(den) {
                    Some(v) => v,
                    None => {
                        return Err(SplineError::Overflow);
                    },
                };
                t = match first.add(frac) {
                    Some(v) => v,
                    None => {
                        return Err(SplineError::Overflow);
                    },
                };
            } else {
                t = first;
            }
            proof {
                assert(t@ == tpar);
            }
            let pt = match self.eval(t) {
                Ok(v) => v,
                Err(e) => {
                    return Err(e);
                },
            };
            out.push(pt);
            k += 1;
        }
        Ok(out)
    }
}

} // verus!
