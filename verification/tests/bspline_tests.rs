use bspline::SplineError;
use bspline::basis::SplineBasis;
use bspline::curve::{Point, SplineCurve};
use bspline::knots::KnotVec;
use bspline::rat::Rat;

fn r(num: i64, den: i64) -> Rat {
    Rat::new(num, den).unwrap()
}

#[test]
fn knots() {
    let xi1 = KnotVec::from_sorted(vec![r(0, 1), r(0, 1), r(1, 2), r(1, 1), r(1, 1)]).unwrap();
    let xi2 = KnotVec::open(6, 2);
    let (m, z): (Vec<_>, Vec<_>) = xi1.breaks_with_multiplicity().into_iter().unzip();
    println!("Z: {:?}", z);
    println!("m: {:?}", m);
    println!("{:?}", xi1);
    println!("{:?}", xi2);
    assert_eq!(m, vec![r(0, 1), r(1, 2), r(1, 1)]);
    assert_eq!(z, vec![2, 1, 2]);
    assert_eq!(xi2.len(), 9);
}

#[test]
fn splines() {
    let n = 4;
    let p = 2;
    let knots = KnotVec::open(n, p);
    let splines = SplineBasis::new(knots.clone(), n, p);

    let t = r(3, 5);
    let idx = splines.find_span(t).unwrap();
    println!("{:?}", knots);
    println!(
        "index {} in interval [{}, {})",
        idx,
        format!("{:?}", knots.at(idx)),
        format!("{:?}", knots.at(idx + 1))
    );

    println!("{:?}", splines.eval(t));
    assert_eq!(idx, 3);
    assert!(knots.at(idx).le(&t));
    assert!(t.lt(&knots.at(idx + 1)));
}

#[test]
fn spline_curves() {
    let n = 5;
    let p = 2;
    let knots = KnotVec::open(n, p);
    let splines = SplineBasis::new(knots.clone(), n, p);
    let curve = SplineCurve::new(
        vec![
            Point::new(r(-1, 1), r(0, 1)),
            Point::new(r(-1, 2), r(7, 10)),
            Point::new(r(0, 1), r(0, 1)),
            Point::new(r(1, 2), r(-7, 10)),
            Point::new(r(1, 1), r(0, 1)),
        ],
        splines,
    )
    .unwrap();

    println!("{:?}", curve);

    let count = 1000;
    let mesh = curve.mesh(count).unwrap();
    assert_eq!(mesh.len(), 1000);
    // the sampling spans the whole domain: it starts and ends on the curve's endpoints
    assert!(mesh[0].x.eq_val(&r(-1, 1)));
    assert!(mesh[0].y.eq_val(&r(0, 1)));
    assert!(mesh[999].x.eq_val(&r(1, 1)));
    assert!(mesh[999].y.eq_val(&r(0, 1)));
}

#[test]
fn open_knot_vector_layout() {
    // n=4, p=2 gives [0, 0, 0, 1/2, 1, 1, 1]
    let knots = KnotVec::open(4, 2);
    assert_eq!(knots.len(), 7);
    let expected = [r(0, 1), r(0, 1), r(0, 1), r(1, 2), r(1, 1), r(1, 1), r(1, 1)];
    for (i, e) in expected.iter().enumerate() {
        assert!(knots.at(i).eq_val(e));
    }
}

#[test]
fn span_and_partition_at_three_fifths() {
    let basis = SplineBasis::open(4, 2);
    let t = r(3, 5);
    assert_eq!(basis.find_span(t).unwrap(), 3);
    let vals = basis.eval(t).unwrap();
    assert_eq!(vals.len(), 3);
    let zero = r(0, 1);
    let mut sum = zero;
    for v in vals.iter() {
        assert!(zero.le(v));
        sum = sum.add(*v).unwrap();
    }
    assert!(sum.eq_val(&r(1, 1)));
}

#[test]
fn partition_of_unity_across_domain() {
    let basis = SplineBasis::open(5, 2);
    let params = [r(0, 1), r(1, 4), r(1, 2), r(3, 5), r(9, 10), r(1, 1)];
    let zero = r(0, 1);
    for t in params.iter() {
        let vals = basis.eval(*t).unwrap();
        let mut sum = zero;
        for v in vals.iter() {
            assert!(zero.le(v));
            sum = sum.add(*v).unwrap();
        }
        assert!(sum.eq_val(&r(1, 1)));
    }
}

#[test]
fn boundary_span_is_last_valid() {
    let basis = SplineBasis::open(4, 2);
    // at t == last knot the span folds back to n - 1
    assert_eq!(basis.find_span(r(1, 1)).unwrap(), 3);
}

#[test]
fn domain_rejection() {
    let basis = SplineBasis::open(4, 2);
    assert_eq!(basis.find_span(r(-1, 10)), Err(SplineError::Domain));
    assert_eq!(basis.find_span(r(11, 10)), Err(SplineError::Domain));
    assert!(basis.eval(r(-1, 10)).is_err());
    assert!(basis.eval(r(11, 10)).is_err());
    let curve = SplineCurve::new(
        vec![
            Point::new(r(0, 1), r(0, 1)),
            Point::new(r(1, 2), r(1, 2)),
            Point::new(r(1, 1), r(0, 1)),
            Point::new(r(3, 2), r(1, 2)),
        ],
        SplineBasis::open(4, 2),
    )
    .unwrap();
    assert_eq!(curve.eval(r(-1, 10)).unwrap_err(), SplineError::Domain);
    assert_eq!(curve.eval(r(2, 1)).unwrap_err(), SplineError::Domain);
}

#[test]
fn curve_endpoint_interpolation() {
    let curve = SplineCurve::new(
        vec![
            Point::new(r(-1, 1), r(0, 1)),
            Point::new(r(-1, 2), r(7, 10)),
            Point::new(r(0, 1), r(0, 1)),
            Point::new(r(1, 2), r(-7, 10)),
            Point::new(r(1, 1), r(0, 1)),
        ],
        SplineBasis::open(5, 2),
    )
    .unwrap();
    let start = curve.eval(r(0, 1)).unwrap();
    assert!(start.x.eq_val(&r(-1, 1)));
    assert!(start.y.eq_val(&r(0, 1)));
    let end = curve.eval(r(1, 1)).unwrap();
    assert!(end.x.eq_val(&r(1, 1)));
    assert!(end.y.eq_val(&r(0, 1)));
}

#[test]
fn cardinality_rejection() {
    // 4 control points against a basis of 5 functions
    let four = vec![
        Point::new(r(0, 1), r(0, 1)),
        Point::new(r(1, 4), r(1, 1)),
        Point::new(r(1, 2), r(0, 1)),
        Point::new(r(3, 4), r(1, 1)),
    ];
    let res = SplineCurve::new(four, SplineBasis::open(5, 2));
    assert_eq!(res.err(), Some(SplineError::Cardinality));
    // every mismatched count is rejected: zero, one below, one above
    let basis = SplineBasis::open(5, 2);
    assert_eq!(
        SplineCurve::new(vec![], basis.clone()).err(),
        Some(SplineError::Cardinality)
    );
    let six = vec![
        Point::new(r(0, 1), r(0, 1)),
        Point::new(r(1, 5), r(0, 1)),
        Point::new(r(2, 5), r(0, 1)),
        Point::new(r(3, 5), r(0, 1)),
        Point::new(r(4, 5), r(0, 1)),
        Point::new(r(1, 1), r(0, 1)),
    ];
    assert_eq!(
        SplineCurve::new(six, basis).err(),
        Some(SplineError::Cardinality)
    );
}

#[test]
fn rational_arithmetic_is_exact() {
    assert_eq!(r(2, 4), r(1, 2));
    assert!(r(1, 3).add(r(1, 6)).unwrap().eq_val(&r(1, 2)));
    assert!(r(1, 2).sub(r(7, 10)).unwrap().eq_val(&r(-1, 5)));
    assert!(r(2, 3).mul(r(3, 4)).unwrap().eq_val(&r(1, 2)));
    assert!(r(1, 2).div(r(1, 4)).unwrap().eq_val(&r(2, 1)));
    assert!(r(-1, 2).lt(&r(1, 10)));
    assert!(Rat::from_int(i64::MAX).add(Rat::from_int(i64::MAX)).is_none());
}

#[test]
fn evaluation_overflow_is_reported() {
    // a knot gap too wide to subtract exactly within i64 components
    let big = Rat::from_int(i64::MAX);
    let knots =
        KnotVec::from_sorted(vec![r(0, 1), r(0, 1), big, big]).unwrap();
    let basis = SplineBasis::new(knots, 2, 1);
    assert_eq!(basis.eval(r(1, 3)).unwrap_err(), SplineError::Overflow);
}

#[test]
fn mesh_is_deterministic() {
    let curve = SplineCurve::new(
        vec![
            Point::new(r(0, 1), r(0, 1)),
            Point::new(r(1, 2), r(1, 1)),
            Point::new(r(1, 1), r(0, 1)),
        ],
        SplineBasis::open(3, 2),
    )
    .unwrap();
    let a = curve.mesh(17).unwrap();
    let b = curve.mesh(17).unwrap();
    assert_eq!(a.len(), 17);
    assert_eq!(a, b);
}

#[test]
fn from_sorted_rejects_misordered_input() {
    assert!(KnotVec::from_sorted(vec![r(0, 1), r(1, 1), r(1, 2)]).is_none());
    assert!(KnotVec::from_sorted(vec![r(0, 1), r(1, 2), r(1, 1)]).is_some());
}
