//! Exact rational scalars: the number field the spline code computes over.
//!
//! A value is a fraction of two `i64`s with a positive denominator; every
//! operation reduces its result by the greatest common divisor and reports
//! an out-of-range result as `None` instead of overflowing.

use vstd::prelude::*;
use vstd::arithmetic::div_mod::lemma_fundamental_div_mod;
use vstd::arithmetic::div_mod::lemma_div_multiples_vanish;

verus! {

/// Mathematical model of a rational: numerator over positive denominator.
pub ghost struct RatV {
    pub n: int,
    pub d: int,
}

/// Absolute value of a mathematical integer.
pub open spec fn rabs(n: int) -> nat {
    if n >= 0 {
        n as nat
    } else {
        (-n) as nat
    }
}

/// Euclid's greatest common divisor.
pub open spec fn gcd(a: nat, b: nat) -> nat
    decreases b,
{
    if b == 0 {
        a
    } else {
        gcd(b, a % b)
    }
}

/// `d` divides `x`.
pub open spec fn divides(d: nat, x: nat) -> bool {
    exists|k: nat| x == #[trigger] (d * k)
}

/// The two model rationals denote the same number (cross multiplication).
pub open spec fn rat_eq(a: RatV, b: RatV) -> bool {
    a.n * b.d == b.n * a.d
}

/// `a <= b` as numbers (valid when both denominators are positive).
pub open spec fn rat_le(a: RatV, b: RatV) -> bool {
    a.n * b.d <= b.n * a.d
}

/// `a < b` as numbers (valid when both denominators are positive).
pub open spec fn rat_lt(a: RatV, b: RatV) -> bool {
    a.n * b.d < b.n * a.d
}

/// Raw (unreduced) sum of two model rationals.
pub open spec fn radd(a: RatV, b: RatV) -> RatV {
    RatV { n: a.n * b.d + b.n * a.d, d: a.d * b.d }
}

/// Raw (unreduced) difference of two model rationals.
pub open spec fn rsub(a: RatV, b: RatV) -> RatV {
    RatV { n: a.n * b.d - b.n * a.d, d: a.d * b.d }
}

/// Raw (unreduced) product of two model rationals.
pub open spec fn rmul(a: RatV, b: RatV) -> RatV {
    RatV { n: a.n * b.n, d: a.d * b.d }
}

/// Raw (unreduced) quotient of two model rationals (`b.n != 0`), with the
/// sign moved into the numerator so the denominator stays positive.
pub open spec fn rdiv(a: RatV, b: RatV) -> RatV {
    if b.n >= 0 {
        RatV { n: a.n * b.d, d: a.d * b.n }
    } else {
        RatV { n: -(a.n * b.d), d: a.d * (-b.n) }
    }
}

/// Reduction by the greatest common divisor of numerator and denominator.
pub open spec fn norm(r: RatV) -> RatV
    recommends
        r.d >= 1,
{
    let g = gcd(rabs(r.n), r.d as nat);
    let m = rabs(r.n) / g;
    RatV {
        n: if r.n >= 0 {
            m as int
        } else {
            -(m as int)
        },
        d: (r.d as nat / g) as int,
    }
}

/// The reduced form of `r` is representable with `i64` components.
pub open spec fn fits(r: RatV) -> bool {
    let s = norm(r);
    -(i64::MAX as int) <= s.n <= i64::MAX as int && s.d <= i64::MAX as int
}

/// Reduced sum, as the executable addition computes it.
pub open spec fn spec_add(a: RatV, b: RatV) -> RatV {
    norm(radd(a, b))
}

/// Reduced difference, as the executable subtraction computes it.
pub open spec fn spec_sub(a: RatV, b: RatV) -> RatV {
    norm(rsub(a, b))
}

/// Reduced product, as the executable multiplication computes it.
pub open spec fn spec_mul(a: RatV, b: RatV) -> RatV {
    norm(rmul(a, b))
}

/// Reduced quotient, as the executable division computes it.
pub open spec fn spec_div(a: RatV, b: RatV) -> RatV {
    norm(rdiv(a, b))
}

/// A model rational with `i64`-representable components and positive
/// denominator; every `Rat` satisfies this.
pub open spec fn rat_wf(r: RatV) -> bool {
    1 <= r.d <= i64::MAX as int && -(i64::MAX as int) <= r.n <= i64::MAX as int
}

pub proof fn lemma_gcd_divides(a: nat, b: nat)
    ensures
        divides(gcd(a, b), a),
        divides(gcd(a, b), b),
        b > 0 ==> gcd(a, b) >= 1,
        b == 0 ==> gcd(a, b) == a,
    decreases b,
{
    if b == 0 {
        assert(a == gcd(a, b) * 1);
        assert(b == gcd(a, b) * 0);
    } else {
        lemma_gcd_divides(b, a % b);
        let g = gcd(b, a % b);
        let k1 = choose|k: nat| b == #[trigger] (g * k);
        let k2 = choose|k: nat| (a % b) == #[trigger] (g * k);
        let q = a as int / b as int;
        lemma_fundamental_div_mod(a as int, b as int);
        assert(a == b * q + a % b);
        assert(a == g * (k1 * q + k2)) by (nonlinear_arith)
            requires
                b == g * k1,
                (a % b) as int == g * k2,
                a == b * q + a % b,
        ;
        assert(k1 * q + k2 >= 0) by (nonlinear_arith)
            requires
                g * (k1 * q + k2) == a,
                g >= 1,
                a >= 0,
        ;
        assert(divides(g, a)) by {
            assert(a == g * ((k1 * q + k2) as nat));
        }
        if a % b > 0 {
            assert(g >= 1);
        } else {
            assert(g == b);
        }
    }
}

pub proof fn lemma_norm(r: RatV)
    requires
        r.d >= 1,
    ensures
        norm(r).d >= 1,
        rat_eq(norm(r), r),
        rabs(norm(r).n) <= rabs(r.n),
        norm(r).d <= r.d,
        r.n >= 0 <==> norm(r).n >= 0,
        r.n == 0 <==> norm(r).n == 0,
{
    let m = rabs(r.n);
    let d = r.d as nat;
    let g = gcd(m, d);
    lemma_gcd_divides(m, d);
    let km = choose|k: nat| m == #[trigger] (g * k);
    let kd = choose|k: nat| d == #[trigger] (g * k);
    assert(m / g == km) by {
        lemma_div_multiples_vanish(km as int, g as int);
        assert(g * km == (g as int) * (km as int)) by (nonlinear_arith);
    }
    assert(d / g == kd) by {
        lemma_div_multiples_vanish(kd as int, g as int);
        assert(g * kd == (g as int) * (kd as int)) by (nonlinear_arith);
    }
    assert(kd >= 1) by (nonlinear_arith)
        requires
            d == g * kd,
            d >= 1,
    ;
    assert(km <= m && kd <= d) by (nonlinear_arith)
        requires
            m == g * km,
            d == g * kd,
            g >= 1,
            km >= 0,
            kd >= 0,
    ;
    if r.n >= 0 {
        assert((km as int) * r.d == r.n * (kd as int)) by (nonlinear_arith)
            requires
                r.n == g * km,
                r.d == g * kd,
        ;
    } else {
        assert((-(km as int)) * r.d == r.n * (kd as int)) by (nonlinear_arith)
            requires
                -r.n == g * km,
                r.d == g * kd,
        ;
    }
    assert(km == 0 ==> m == 0) by (nonlinear_arith)
        requires
            m == g * km,
    ;
    assert(m == 0 ==> km == 0);
}

pub proof fn lemma_le_trans(a: RatV, b: RatV, c: RatV)
    requires
        a.d >= 1,
        b.d >= 1,
        c.d >= 1,
        rat_le(a, b),
        rat_le(b, c),
    ensures
        rat_le(a, c),
{
    assert(a.n * c.d <= c.n * a.d) by (nonlinear_arith)
        requires
            a.d >= 1,
            b.d >= 1,
            c.d >= 1,
            a.n * b.d <= b.n * a.d,
            b.n * c.d <= c.n * b.d,
    ;
}

pub proof fn lemma_lt_le_trans(a: RatV, b: RatV, c: RatV)
    requires
        a.d >= 1,
        b.d >= 1,
        c.d >= 1,
        rat_lt(a, b),
        rat_le(b, c),
    ensures
        rat_lt(a, c),
{
    assert(a.n * c.d < c.n * a.d) by (nonlinear_arith)
        requires
            a.d >= 1,
            b.d >= 1,
            c.d >= 1,
            a.n * b.d < b.n * a.d,
            b.n * c.d <= c.n * b.d,
    ;
}

pub proof fn lemma_le_lt_trans(a: RatV, b: RatV, c: RatV)
    requires
        a.d >= 1,
        b.d >= 1,
        c.d >= 1,
        rat_le(a, b),
        rat_lt(b, c),
    ensures
        rat_lt(a, c),
{
    assert(a.n * c.d < c.n * a.d) by (nonlinear_arith)
        requires
            a.d >= 1,
            b.d >= 1,
            c.d >= 1,
            a.n * b.d <= b.n * a.d,
            b.n * c.d < c.n * b.d,
    ;
}

pub proof fn lemma_eq_trans(a: RatV, b: RatV, c: RatV)
    requires
        a.d >= 1,
        b.d >= 1,
        c.d >= 1,
        rat_eq(a, b),
        rat_eq(b, c),
    ensures
        rat_eq(a, c),
{
    assert(a.n * c.d == c.n * a.d) by (nonlinear_arith)
        requires
            a.d >= 1,
            b.d >= 1,
            c.d >= 1,
            a.n * b.d == b.n * a.d,
            b.n * c.d == c.n * b.d,
    ;
}

/// Replacing either side of `<=` by an equal-valued rational keeps it.
pub proof fn lemma_eq_le_compat(a: RatV, a2: RatV, b: RatV, b2: RatV)
    requires
        a.d >= 1,
        a2.d >= 1,
        b.d >= 1,
        b2.d >= 1,
        rat_eq(a, a2),
        rat_eq(b, b2),
    ensures
        rat_le(a, b) == rat_le(a2, b2),
        rat_lt(a, b) == rat_lt(a2, b2),
        rat_eq(a, b) == rat_eq(a2, b2),
{
    assert((a.n * b.d <= b.n * a.d) == (a2.n * b2.d <= b2.n * a2.d)
        && (a.n * b.d < b.n * a.d) == (a2.n * b2.d < b2.n * a2.d)
        && (a.n * b.d == b.n * a.d) == (a2.n * b2.d == b2.n * a2.d)) by (nonlinear_arith)
        requires
            a.d >= 1,
            a2.d >= 1,
            b.d >= 1,
            b2.d >= 1,
            a.n * a2.d == a2.n * a.d,
            b.n * b2.d == b2.n * b.d,
    ;
}

/// The reduced sum denotes the raw sum; signs carry over.
pub proof fn lemma_add_val(a: RatV, b: RatV)
    requires
        a.d >= 1,
        b.d >= 1,
    ensures
        radd(a, b).d >= 1,
        spec_add(a, b).d >= 1,
        rat_eq(spec_add(a, b), radd(a, b)),
        a.n >= 0 && b.n >= 0 ==> radd(a, b).n >= 0 && spec_add(a, b).n >= 0,
        a.n >= 1 && b.n >= 0 ==> radd(a, b).n >= 1 && spec_add(a, b).n >= 1,
{
    assert(radd(a, b).d >= 1 && (a.n >= 0 && b.n >= 0 ==> radd(a, b).n >= 0) && (a.n >= 1 && b.n
        >= 0 ==> radd(a, b).n >= 1)) by (nonlinear_arith)
        requires
            a.d >= 1,
            b.d >= 1,
    ;
    lemma_norm(radd(a, b));
}

/// The reduced product denotes the raw product; signs carry over.
pub proof fn lemma_mul_val(a: RatV, b: RatV)
    requires
        a.d >= 1,
        b.d >= 1,
    ensures
        rmul(a, b).d >= 1,
        spec_mul(a, b).d >= 1,
        rat_eq(spec_mul(a, b), rmul(a, b)),
        a.n >= 0 && b.n >= 0 ==> rmul(a, b).n >= 0 && spec_mul(a, b).n >= 0,
{
    assert(rmul(a, b).d >= 1 && (a.n >= 0 && b.n >= 0 ==> rmul(a, b).n >= 0)) by (nonlinear_arith)
        requires
            a.d >= 1,
            b.d >= 1,
    ;
    lemma_norm(rmul(a, b));
}

/// The reduced quotient denotes the raw quotient; signs carry over when
/// the divisor is positive.
pub proof fn lemma_div_val(a: RatV, b: RatV)
    requires
        a.d >= 1,
        b.d >= 1,
        b.n != 0,
    ensures
        rdiv(a, b).d >= 1,
        spec_div(a, b).d >= 1,
        rat_eq(spec_div(a, b), rdiv(a, b)),
        a.n >= 0 && b.n >= 1 ==> rdiv(a, b).n >= 0 && spec_div(a, b).n >= 0,
{
    assert(rdiv(a, b).d >= 1 && (a.n >= 0 && b.n >= 1 ==> rdiv(a, b).n >= 0)) by (nonlinear_arith)
        requires
            a.d >= 1,
            b.d >= 1,
            b.n != 0,
    ;
    lemma_norm(rdiv(a, b));
}

/// Raw addition respects value equality.
#[verifier::rlimit(100)]
pub proof fn lemma_add_cong(a: RatV, a2: RatV, b: RatV, b2: RatV)
    requires
        a.d >= 1,
        a2.d >= 1,
        b.d >= 1,
        b2.d >= 1,
        rat_eq(a, a2),
        rat_eq(b, b2),
    ensures
        rat_eq(radd(a, b), radd(a2, b2)),
{
    assert((a.n * b.d) * (a2.d * b2.d) == (a2.n * b2.d) * (a.d * b.d)) by (nonlinear_arith)
        requires
            a.n * a2.d == a2.n * a.d,
    ;
    assert((b.n * a.d) * (a2.d * b2.d) == (b2.n * a2.d) * (a.d * b.d)) by (nonlinear_arith)
        requires
            b.n * b2.d == b2.n * b.d,
    ;
    assert((a.n * b.d + b.n * a.d) * (a2.d * b2.d) == (a2.n * b2.d + b2.n * a2.d) * (a.d
        * b.d)) by (nonlinear_arith)
        requires
            (a.n * b.d) * (a2.d * b2.d) == (a2.n * b2.d) * (a.d * b.d),
            (b.n * a.d) * (a2.d * b2.d) == (b2.n * a2.d) * (a.d * b.d),
    ;
}

/// Raw multiplication respects value equality.
pub proof fn lemma_mul_cong(a: RatV, a2: RatV, b: RatV, b2: RatV)
    requires
        a.d >= 1,
        a2.d >= 1,
        b.d >= 1,
        b2.d >= 1,
        rat_eq(a, a2),
        rat_eq(b, b2),
    ensures
        rat_eq(rmul(a, b), rmul(a2, b2)),
{
    assert((a.n * b.n) * (a2.d * b2.d) == (a2.n * b2.n) * (a.d * b.d)) by (nonlinear_arith)
        requires
            a.n * a2.d == a2.n * a.d,
            b.n * b2.d == b2.n * b.d,
    ;
}

/// Raw division by equal positive divisors respects value equality.
pub proof fn lemma_div_cong(a: RatV, a2: RatV, b: RatV, b2: RatV)
    requires
        a.d >= 1,
        a2.d >= 1,
        b.d >= 1,
        b2.d >= 1,
        b.n >= 1,
        b2.n >= 1,
        rat_eq(a, a2),
        rat_eq(b, b2),
    ensures
        rat_eq(rdiv(a, b), rdiv(a2, b2)),
{
    assert((a.n * b.d) * (a2.d * b2.n) == (a2.n * b2.d) * (a.d * b.n)) by (nonlinear_arith)
        requires
            a.n * a2.d == a2.n * a.d,
            b.n * b2.d == b2.n * b.d,
    ;
}

/// Reduced addition is associative up to value equality.
pub proof fn lemma_add_assoc(x: RatV, y: RatV, z: RatV)
    requires
        x.d >= 1,
        y.d >= 1,
        z.d >= 1,
    ensures
        rat_eq(spec_add(spec_add(x, y), z), spec_add(x, spec_add(y, z))),
{
    lemma_add_val(x, y);
    lemma_add_val(y, z);
    lemma_add_val(spec_add(x, y), z);
    lemma_add_val(x, spec_add(y, z));
    lemma_add_cong(spec_add(x, y), radd(x, y), z, z);
    lemma_add_cong(spec_add(y, z), radd(y, z), x, x);
    assert(rat_eq(radd(radd(x, y), z), radd(x, radd(y, z)))) by (nonlinear_arith)
        requires
            x.d >= 1,
            y.d >= 1,
            z.d >= 1,
    ;
    lemma_add_val(radd(x, y), z);
    lemma_add_val(x, radd(y, z));
    let l1 = spec_add(spec_add(x, y), z);
    let l2 = radd(spec_add(x, y), z);
    let l3 = radd(radd(x, y), z);
    let r3 = radd(x, radd(y, z));
    let r2 = radd(x, spec_add(y, z));
    let r1 = spec_add(x, spec_add(y, z));
    lemma_eq_trans(l1, l2, l3);
    lemma_eq_trans(l1, l3, r3);
    assert(rat_eq(r3, r2)) by {
        lemma_add_cong(x, x, radd(y, z), spec_add(y, z));
    }
    lemma_eq_trans(l1, r3, r2);
    assert(rat_eq(r2, r1));
    lemma_eq_trans(l1, r2, r1);
}

/// Reduced addition respects value equality.
pub proof fn lemma_spec_add_cong(a: RatV, a2: RatV, b: RatV, b2: RatV)
    requires
        a.d >= 1,
        a2.d >= 1,
        b.d >= 1,
        b2.d >= 1,
        rat_eq(a, a2),
        rat_eq(b, b2),
    ensures
        rat_eq(spec_add(a, b), spec_add(a2, b2)),
{
    lemma_add_val(a, b);
    lemma_add_val(a2, b2);
    lemma_add_cong(a, a2, b, b2);
    lemma_eq_trans(spec_add(a, b), radd(a, b), radd(a2, b2));
    assert(rat_eq(radd(a2, b2), spec_add(a2, b2)));
    lemma_eq_trans(spec_add(a, b), radd(a2, b2), spec_add(a2, b2));
}

/// Adding zero does not change the value.
pub proof fn lemma_add_zero(x: RatV)
    requires
        x.d >= 1,
    ensures
        rat_eq(spec_add(RatV { n: 0, d: 1 }, x), x),
        spec_add(RatV { n: 0, d: 1 }, x).d >= 1,
{
    let z = RatV { n: 0, d: 1 };
    assert(radd(z, x) == x);
    lemma_norm(x);
    lemma_add_val(z, x);
}

/// The blending identity of the recurrence: with `denom = r + l`,
/// `r*(b/denom) + l*(b/denom)` gives back `b`.
#[verifier::rlimit(100)]
pub proof fn lemma_blend(r: RatV, l: RatV, b: RatV)
    requires
        r.d >= 1,
        l.d >= 1,
        b.d >= 1,
        spec_add(r, l).n >= 1,
    ensures
        ({
            let denom = spec_add(r, l);
            let tmp = spec_div(b, denom);
            rat_eq(spec_add(spec_mul(r, tmp), spec_mul(l, tmp)), b)
        }),
{
    let denom = spec_add(r, l);
    let rd = radd(r, l);
    lemma_add_val(r, l);
    assert(rd.n >= 1) by {
        lemma_norm(rd);
    }
    let tmp = spec_div(b, denom);
    lemma_div_val(b, denom);
    let q = rdiv(b, rd);
    lemma_div_cong(b, b, denom, rd);
    lemma_div_val(b, rd);
    // tmp == b/denom == b/rd up to value
    lemma_eq_trans(tmp, rdiv(b, denom), q);
    // replace the two products by raw products over q
    lemma_mul_val(r, tmp);
    lemma_mul_val(l, tmp);
    lemma_mul_cong(r, r, tmp, q);
    lemma_mul_val(r, q);
    lemma_mul_val(l, q);
    lemma_eq_trans(spec_mul(r, tmp), rmul(r, tmp), rmul(r, q));
    lemma_mul_cong(l, l, tmp, q);
    lemma_eq_trans(spec_mul(l, tmp), rmul(l, tmp), rmul(l, q));
    // the raw identity itself, expanded one rearrangement at a time
    let t1 = (r.n * q.n) * (l.d * q.d);
    let t2 = (l.n * q.n) * (r.d * q.d);
    let w = (b.n * b.d) * (rd.d * rd.n);
    assert(t1 == (r.n * l.d) * w) by (nonlinear_arith)
        requires
            t1 == (r.n * q.n) * (l.d * q.d),
            w == (b.n * b.d) * (rd.d * rd.n),
            q.n == b.n * rd.d,
            q.d == b.d * rd.n,
    ;
    assert(t2 == (l.n * r.d) * w) by (nonlinear_arith)
        requires
            t2 == (l.n * q.n) * (r.d * q.d),
            w == (b.n * b.d) * (rd.d * rd.n),
            q.n == b.n * rd.d,
            q.d == b.d * rd.n,
    ;
    assert(t1 + t2 == rd.n * w) by (nonlinear_arith)
        requires
            t1 == (r.n * l.d) * w,
            t2 == (l.n * r.d) * w,
            rd.n == r.n * l.d + l.n * r.d,
    ;
    assert((r.d * q.d) * (l.d * q.d) == rd.d * ((b.d * b.d) * (rd.n * rd.n))) by (nonlinear_arith)
        requires
            q.d == b.d * rd.n,
            rd.d == r.d * l.d,
    ;
    assert((rd.n * ((b.n * b.d) * (rd.d * rd.n))) * b.d == b.n * (rd.d * ((b.d * b.d) * (rd.n
        * rd.n)))) by (nonlinear_arith);
    assert((t1 + t2) * b.d == b.n * ((r.d * q.d) * (l.d * q.d)));
    assert(rat_eq(radd(rmul(r, q), rmul(l, q)), b));
    // assemble: spec_add(m1, m2) == radd(m1, m2) == radd(raw, raw) == b
    let m1 = spec_mul(r, tmp);
    let m2 = spec_mul(l, tmp);
    lemma_add_val(m1, m2);
    lemma_add_cong(m1, rmul(r, q), m2, rmul(l, q));
    lemma_add_val(rmul(r, q), rmul(l, q));
    lemma_eq_trans(spec_add(m1, m2), radd(m1, m2), radd(rmul(r, q), rmul(l, q)));
    lemma_eq_trans(spec_add(m1, m2), radd(rmul(r, q), rmul(l, q)), b);
}

/// A rational built from small components is always representable.
pub proof fn lemma_fits_small(r: RatV)
    requires
        1 <= r.d <= i64::MAX as int,
        -(i64::MAX as int) <= r.n <= i64::MAX as int,
    ensures
        fits(r),
        rat_eq(norm(r), r),
{
    lemma_norm(r);
}

/// An exact rational number: `num / den` with `den >= 1`, both `i64`.
#[derive(Clone, Copy, Debug, PartialEq, Eq, Structural)]
pub struct Rat {
    num: i64,
    den: i64,
}

impl View for Rat {
    type V = RatV;

    closed spec fn view(&self) -> RatV {
        RatV { n: self.num as int, d: self.den as int }
    }
}

fn gcd_u128(a: u128, b: u128) -> (g: u128)
    ensures
        g as nat == gcd(a as nat, b as nat),
    decreases b,
{
    if b == 0 {
        a
    } else {
        gcd_u128(b, a % b)
    }
}

/// Builds the reduced `Rat` denoting `n / d`, or `None` when the reduced
/// form does not fit in `i64` components.
fn rat_make(n: i128, d: i128) -> (r: Option<Rat>)
    requires
        1 <= d,
        -(i128::MAX as int) <= n,
    ensures
        r is Some <==> fits(RatV { n: n as int, d: d as int }),
        r is Some ==> (r->0)@ == norm(RatV { n: n as int, d: d as int }) && r->0.wf(),
{
    let ghost rv = RatV { n: n as int, d: d as int };
    let neg = n < 0;
    let m: u128 = if neg {
        (-n) as u128
    } else {
        n as u128
    };
    proof {
        assert(m as nat == rabs(rv.n));
        lemma_gcd_divides(m as nat, d as nat);
        lemma_norm(rv);
    }
    let g = gcd_u128(m, d as u128);
    let mr = m / g;
    let dr = (d as u128) / g;
    if mr <= i64::MAX as u128 && dr <= i64::MAX as u128 {
        let num: i64 = if neg {
            -(mr as i64)
        } else {
            mr as i64
        };
        let den: i64 = dr as i64;
        proof {
            assert(norm(rv).d == dr as int);
            assert(rabs(norm(rv).n) == mr as nat);
        }
        Some(Rat { num, den })
    } else {
        proof {
            assert(!fits(rv));
        }
        None
    }
}

proof fn lemma_abs_mul(a: int, b: int, ma: int, mb: int)
    requires
        -ma <= a <= ma,
        -mb <= b <= mb,
        0 <= ma,
        0 <= mb,
    ensures
        -(ma * mb) <= a * b <= ma * mb,
{
    assert(-(ma * mb) <= a * b <= ma * mb) by (nonlinear_arith)
        requires
            -ma <= a <= ma,
            -mb <= b <= mb,
            0 <= ma,
            0 <= mb,
    ;
}

impl Rat {
    /// The representation invariant: positive denominator, components in
    /// symmetric `i64` range.
    pub open spec fn wf(&self) -> bool {
        rat_wf(self@)
    }

    /// The rational `i`.
    pub fn from_int(i: i64) -> (r: Rat)
        requires
            i > i64::MIN,
        ensures
            r@ == (RatV { n: i as int, d: 1 }),
            r.wf(),
    {
        Rat { num: i, den: 1 }
    }

    /// The rational `num / den`; `None` when `den < 1` or the reduced form
    /// does not fit.
    pub fn new(num: i64, den: i64) -> (r: Option<Rat>)
        ensures
            r is Some <==> den >= 1 && fits(RatV { n: num as int, d: den as int }),
            r is Some ==> (r->0)@ == norm(RatV { n: num as int, d: den as int }) && r->0.wf(),
    {
        if den < 1 {
            None
        } else {
            rat_make(num as i128, den as i128)
        }
    }

    /// Zero.
    pub fn zero() -> (r: Rat)
        ensures
            r@ == (RatV { n: 0, d: 1 }),
            r.wf(),
    {
        Rat { num: 0, den: 1 }
    }

    /// One.
    pub fn one() -> (r: Rat)
        ensures
            r@ == (RatV { n: 1, d: 1 }),
            r.wf(),
    {
        Rat { num: 1, den: 1 }
    }

    /// Exact sum, reduced; `None` when it leaves the representable range.
    pub fn add(self, o: Rat) -> (r: Option<Rat>)
        requires
            self.wf(),
            o.wf(),
        ensures
            r is Some <==> fits(radd(self@, o@)),
            r is Some ==> (r->0)@ == spec_add(self@, o@) && r->0.wf(),
    {
        proof {
            lemma_abs_mul(self@.n, o@.d, i64::MAX as int, i64::MAX as int);
            lemma_abs_mul(o@.n, self@.d, i64::MAX as int, i64::MAX as int);
            lemma_abs_mul(self@.d, o@.d, i64::MAX as int, i64::MAX as int);
            assert((self@.d) * (o@.d) >= 1) by (nonlinear_arith)
                requires
                    self@.d >= 1,
                    o@.d >= 1,
            ;
        }
        let n: i128 = (self.num as i128) * (o.den as i128) + (o.num as i128) * (self.den as i128);
        let d: i128 = (self.den as i128) * (o.den as i128);
        rat_make(n, d)
    }

    /// Exact difference, reduced; `None` when it leaves the representable range.
    pub fn sub(self, o: Rat) -> (r: Option<Rat>)
        requires
            self.wf(),
            o.wf(),
        ensures
            r is Some <==> fits(rsub(self@, o@)),
            r is Some ==> (r->0)@ == spec_sub(self@, o@) && r->0.wf(),
    {
        proof {
            lemma_abs_mul(self@.n, o@.d, i64::MAX as int, i64::MAX as int);
            lemma_abs_mul(o@.n, self@.d, i64::MAX as int, i64::MAX as int);
            lemma_abs_mul(self@.d, o@.d, i64::MAX as int, i64::MAX as int);
            assert((self@.d) * (o@.d) >= 1) by (nonlinear_arith)
                requires
                    self@.d >= 1,
                    o@.d >= 1,
            ;
        }
        let n: i128 = (self.num as i128) * (o.den as i128) - (o.num as i128) * (self.den as i128);
        let d: i128 = (self.den as i128) * (o.den as i128);
        rat_make(n, d)
    }

    /// Exact product, reduced; `None` when it leaves the representable range.
    pub fn mul(self, o: Rat) -> (r: Option<Rat>)
        requires
            self.wf(),
            o.wf(),
        ensures
            r is Some <==> fits(rmul(self@, o@)),
            r is Some ==> (r->0)@ == spec_mul(self@, o@) && r->0.wf(),
    {
        proof {
            lemma_abs_mul(self@.n, o@.n, i64::MAX as int, i64::MAX as int);
            lemma_abs_mul(self@.d, o@.d, i64::MAX as int, i64::MAX as int);
            assert((self@.d) * (o@.d) >= 1) by (nonlinear_arith)
                requires
                    self@.d >= 1,
                    o@.d >= 1,
            ;
        }
        let n: i128 = (self.num as i128) * (o.num as i128);
        let d: i128 = (self.den as i128) * (o.den as i128);
        rat_make(n, d)
    }

    /// Exact quotient by a nonzero rational, reduced; `None` when it leaves
    /// the representable range.
    pub fn div(self, o: Rat) -> (r: Option<Rat>)
        requires
            self.wf(),
            o.wf(),
            o@.n != 0,
        ensures
            r is Some <==> fits(rdiv(self@, o@)),
            r is Some ==> (r->0)@ == spec_div(self@, o@) && r->0.wf(),
    {
        proof {
            lemma_abs_mul(self@.n, o@.d, i64::MAX as int, i64::MAX as int);
            lemma_abs_mul(self@.d, o@.n, i64::MAX as int, i64::MAX as int);
            lemma_abs_mul(self@.d, -o@.n, i64::MAX as int, i64::MAX as int);
            if o@.n >= 1 {
                assert((self@.d) * (o@.n) >= 1) by (nonlinear_arith)
                    requires
                        self@.d >= 1,
                        o@.n >= 1,
                ;
            } else {
                assert((self@.d) * (-o@.n) >= 1) by (nonlinear_arith)
                    requires
                        self@.d >= 1,
                        -o@.n >= 1,
                ;
            }
        }
        if o.num >= 0 {
            let n: i128 = (self.num as i128) * (o.den as i128);
            let d: i128 = (self.den as i128) * (o.num as i128);
            rat_make(n, d)
        } else {
            let n: i128 = -((self.num as i128) * (o.den as i128));
            let d: i128 = (self.den as i128) * (-(o.num as i128));
            rat_make(n, d)
        }
    }

    /// `self <= o` as numbers.
    pub fn le(&self, o: &Rat) -> (r: bool)
        requires
            self.wf(),
            o.wf(),
        ensures
            r == rat_le(self@, o@),
    {
        proof {
            lemma_abs_mul(self@.n, o@.d, i64::MAX as int, i64::MAX as int);
            lemma_abs_mul(o@.n, self@.d, i64::MAX as int, i64::MAX as int);
        }
        (self.num as i128) * (o.den as i128) <= (o.num as i128) * (self.den as i128)
    }

    /// `self < o` as numbers.
    pub fn lt(&self, o: &Rat) -> (r: bool)
        requires
            self.wf(),
            o.wf(),
        ensures
            r == rat_lt(self@, o@),
    {
        proof {
            lemma_abs_mul(self@.n, o@.d, i64::MAX as int, i64::MAX as int);
            lemma_abs_mul(o@.n, self@.d, i64::MAX as int, i64::MAX as int);
        }
        (self.num as i128) * (o.den as i128) < (o.num as i128) * (self.den as i128)
    }

    /// `self == o` as numbers (representations may differ).
    pub fn eq_val(&self, o: &Rat) -> (r: bool)
        requires
            self.wf(),
            o.wf(),
        ensures
            r == rat_eq(self@, o@),
    {
        proof {
            lemma_abs_mul(self@.n, o@.d, i64::MAX as int, i64::MAX as int);
            lemma_abs_mul(o@.n, self@.d, i64::MAX as int, i64::MAX as int);
        }
        (self.num as i128) * (o.den as i128) == (o.num as i128) * (self.den as i128)
    }

    /// Numerator of the reduced representation.
    pub fn numerator(&self) -> (r: i64)
        ensures
            r as int == self@.n,
    {
        self.num
    }

    /// Denominator of the reduced representation.
    pub fn denominator(&self) -> (r: i64)
        ensures
            r as int == self@.d,
    {
        self.den
    }
}

} // verus!
