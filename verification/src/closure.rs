//! Closure of the group law: over an odd prime modulus, the chord and
//! tangent constructions always produce a point that satisfies the curve
//! equation again, so adding two points of one curve never fails and every
//! scalar-multiplication chain is defined. The argument is the classical
//! one: the cubic `t^3 + a*t + b - (slope-line)^2` has the two known
//! abscissas among its roots, so the third symmetric root is one too.

use crate::fermat::lemma_fermat_inverse;
use crate::finite_body::{inv_val, is_prime, lemma_euclid, lemma_prime_coprime};
use crate::point_elliptic_curve::{
    chord_slope, dbl_slope, lemma_nonzero_diff, on_curve_vals, PointEllipticCurve,
};
use vstd::prelude::*;

verus! {

/// Congruence modulo `p`.
pub open spec fn cong(p: int, x: int, y: int) -> bool {
    (x - y) % p == 0
}

/// Congruence is the same as equality of Euclidean remainders.
proof fn lemma_cong_is_mod_eq(p: int, x: int, y: int)
    requires
        p >= 1,
    ensures
        cong(p, x, y) <==> x % p == y % p,
{
    if x % p == y % p {
        vstd::arithmetic::div_mod::lemma_sub_mod_noop(x, y, p);
        vstd::arithmetic::div_mod::lemma_small_mod(0nat, p as nat);
    }
    if (x - y) % p == 0 {
        vstd::arithmetic::div_mod::lemma_fundamental_div_mod(x - y, p);
        let k = (x - y) / p;
        assert(x == p * k + y);
        vstd::arithmetic::div_mod::lemma_mod_multiples_vanish(k, y, p);
    }
}

/// Reduction modulo `p` preserves congruence.
proof fn lemma_cong_of_mod(p: int, x: int)
    requires
        p >= 1,
    ensures
        cong(p, x % p, x),
{
    vstd::arithmetic::div_mod::lemma_mod_twice(x, p);
    lemma_cong_is_mod_eq(p, x % p, x);
}

/// Congruence is compatible with addition and subtraction.
proof fn lemma_cong_add(p: int, a1: int, a2: int, b1: int, b2: int)
    requires
        p >= 1,
        cong(p, a1, a2),
        cong(p, b1, b2),
    ensures
        cong(p, a1 + b1, a2 + b2),
        cong(p, a1 - b1, a2 - b2),
{
    vstd::arithmetic::div_mod::lemma_fundamental_div_mod(a1 - a2, p);
    vstd::arithmetic::div_mod::lemma_fundamental_div_mod(b1 - b2, p);
    let ka = (a1 - a2) / p;
    let kb = (b1 - b2) / p;
    assert((a1 + b1) - (a2 + b2) == p * (ka + kb)) by (nonlinear_arith)
        requires
            a1 - a2 == p * ka,
            b1 - b2 == p * kb,
    ;
    assert((a1 - b1) - (a2 - b2) == p * (ka - kb)) by (nonlinear_arith)
        requires
            a1 - a2 == p * ka,
            b1 - b2 == p * kb,
    ;
    vstd::arithmetic::div_mod::lemma_mod_multiples_basic(ka + kb, p);
    vstd::arithmetic::div_mod::lemma_mod_multiples_basic(ka - kb, p);
}

/// Congruence is compatible with multiplication.
proof fn lemma_cong_mul(p: int, a1: int, a2: int, b1: int, b2: int)
    requires
        p >= 1,
        cong(p, a1, a2),
        cong(p, b1, b2),
    ensures
        cong(p, a1 * b1, a2 * b2),
{
    vstd::arithmetic::div_mod::lemma_fundamental_div_mod(a1 - a2, p);
    vstd::arithmetic::div_mod::lemma_fundamental_div_mod(b1 - b2, p);
    let ka = (a1 - a2) / p;
    let kb = (b1 - b2) / p;
    assert(a1 * b1 - a2 * b2 == p * (ka * b1 + a2 * kb)) by (nonlinear_arith)
        requires
            a1 - a2 == p * ka,
            b1 - b2 == p * kb,
    ;
    vstd::arithmetic::div_mod::lemma_mod_multiples_basic(ka * b1 + a2 * kb, p);
}

/// Congruence is reflexive, symmetric and transitive.
proof fn lemma_cong_equiv(p: int, x: int, y: int, z: int)
    requires
        p >= 1,
    ensures
        cong(p, x, x),
        cong(p, x, y) ==> cong(p, y, x),
        cong(p, x, y) && cong(p, y, z) ==> cong(p, x, z),
{
    lemma_cong_is_mod_eq(p, x, x);
    lemma_cong_is_mod_eq(p, x, y);
    lemma_cong_is_mod_eq(p, y, x);
    lemma_cong_is_mod_eq(p, y, z);
    lemma_cong_is_mod_eq(p, x, z);
}

/// A product congruent to zero with a unit factor forces the other factor
/// to be congruent to zero.
proof fn lemma_cong_cancel(p: int, d: int, w: int)
    requires
        is_prime(p),
        1 <= d < p,
        cong(p, d * w, 0),
    ensures
        cong(p, w, 0),
{
    lemma_prime_coprime(p as nat, d as nat);
    assert((d * w) % p == 0) by {
        lemma_cong_is_mod_eq(p, d * w, 0);
        vstd::arithmetic::div_mod::lemma_small_mod(0nat, p as nat);
    }
    lemma_euclid(p as nat, d as nat, w);
    lemma_cong_is_mod_eq(p, w, 0);
    vstd::arithmetic::div_mod::lemma_small_mod(0nat, p as nat);
}

/// The polynomial backbone of the chord argument: the cubic minus the
/// squared secant line is a line `alpha*t + beta` away from the product of
/// the three root factors, evaluated here at `x1`, `x2`, and the symmetric
/// third abscissa `s^2 - x1 - x2`. Exact integer identities.
proof fn lemma_chord_identities(s: int, x1: int, x2: int, y2: int, a: int, b: int) -> (r: (
    int,
    int,
))
    ensures
        ({
            let u1 = s * (x1 - x2) + y2;
            x1 * x1 * x1 + a * x1 + b - u1 * u1 == r.0 * x1 + r.1
        }),
        x2 * x2 * x2 + a * x2 + b - y2 * y2 == r.0 * x2 + r.1,
        ({
            let x3 = s * s - x1 - x2;
            let u3 = s * (x3 - x2) + y2;
            x3 * x3 * x3 + a * x3 + b - u3 * u3 == r.0 * x3 + r.1
        }),
{
    let ss = s * s;
    let sy = s * y2;
    let xx1 = x1 * x1;
    let xx2 = x2 * x2;
    let x12 = x1 * x2;
    let yy = y2 * y2;
    let s4 = ss * ss;
    let s6 = s4 * ss;
    let dv = x1 - x2;
    let dd = dv * dv;
    let u1 = s * dv + y2;
    let x3 = ss - x1 - x2;
    let dt3 = x3 - x2;
    let xx3 = x3 * x3;
    let dd3 = dt3 * dt3;
    let u3 = s * dt3 + y2;
    let alpha = a + ss * x2 - ss * x1 - 2 * sy + xx1 + x12 + xx2;
    let beta = b - ss * xx2 + 2 * (sy * x2) - yy + ss * x12 - xx1 * x2 - x12 * x2;
    // glue between equal monomials written over different atoms
    assert(x12 * x1 == xx1 * x2) by (nonlinear_arith)
        requires
            x12 == x1 * x2,
            xx1 == x1 * x1,
    ;
    assert(xx2 * x1 == x12 * x2) by (nonlinear_arith)
        requires
            x12 == x1 * x2,
            xx2 == x2 * x2,
    ;
    // the squared secant line at x1
    assert(u1 * u1 == ss * dd + 2 * (sy * dv) + yy) by (nonlinear_arith)
        requires
            u1 == s * dv + y2,
            ss == s * s,
            sy == s * y2,
            yy == y2 * y2,
            dd == dv * dv,
    ;
    assert(dd == xx1 - 2 * x12 + xx2) by (nonlinear_arith)
        requires
            dd == dv * dv,
            dv == x1 - x2,
            xx1 == x1 * x1,
            x12 == x1 * x2,
            xx2 == x2 * x2,
    ;
    assert(ss * dd == ss * xx1 - 2 * (ss * x12) + ss * xx2) by (nonlinear_arith)
        requires
            dd == xx1 - 2 * x12 + xx2,
    ;
    assert(sy * dv == sy * x1 - sy * x2) by (nonlinear_arith)
        requires
            dv == x1 - x2,
    ;
    // the line evaluated at x1 and at x2
    assert(alpha * x1 == a * x1 + ss * x12 - ss * xx1 - 2 * (sy * x1) + xx1 * x1 + x12 * x1 + xx2
        * x1) by (nonlinear_arith)
        requires
            alpha == a + ss * x2 - ss * x1 - 2 * sy + xx1 + x12 + xx2,
            x12 == x1 * x2,
            xx1 == x1 * x1,
    ;
    assert(alpha * x2 == a * x2 + ss * xx2 - ss * x12 - 2 * (sy * x2) + xx1 * x2 + x12 * x2 + xx2
        * x2) by (nonlinear_arith)
        requires
            alpha == a + ss * x2 - ss * x1 - 2 * sy + xx1 + x12 + xx2,
            x12 == x1 * x2,
            xx2 == x2 * x2,
    ;
    assert(x1 * x1 * x1 + a * x1 + b - u1 * u1 == alpha * x1 + beta);
    assert(x2 * x2 * x2 + a * x2 + b - yy == alpha * x2 + beta);
    // the squared secant line at the third abscissa
    assert(u3 * u3 == ss * dd3 + 2 * (sy * dt3) + yy) by (nonlinear_arith)
        requires
            u3 == s * dt3 + y2,
            ss == s * s,
            sy == s * y2,
            yy == y2 * y2,
            dd3 == dt3 * dt3,
    ;
    assert(dd3 == s4 - 2 * (ss * x1) - 4 * (ss * x2) + xx1 + 4 * x12 + 4 * xx2)
        by (nonlinear_arith)
        requires
            dd3 == dt3 * dt3,
            dt3 == ss - x1 - 2 * x2,
            s4 == ss * ss,
            xx1 == x1 * x1,
            x12 == x1 * x2,
            xx2 == x2 * x2,
    ;
    assert(ss * dd3 == s6 - 2 * (s4 * x1) - 4 * (s4 * x2) + ss * xx1 + 4 * (ss * x12) + 4 * (ss
        * xx2)) by (nonlinear_arith)
        requires
            dd3 == s4 - 2 * (ss * x1) - 4 * (ss * x2) + xx1 + 4 * x12 + 4 * xx2,
            s4 == ss * ss,
            s6 == s4 * ss,
    ;
    assert(sy * dt3 == sy * ss - sy * x1 - 2 * (sy * x2)) by (nonlinear_arith)
        requires
            dt3 == ss - x1 - 2 * x2,
    ;
    // the cube of the third abscissa, one linear factor at a time
    assert(xx3 == s4 - 2 * (ss * x1) - 2 * (ss * x2) + xx1 + 2 * x12 + xx2) by (nonlinear_arith)
        requires
            xx3 == x3 * x3,
            x3 == ss - x1 - x2,
            s4 == ss * ss,
            xx1 == x1 * x1,
            x12 == x1 * x2,
            xx2 == x2 * x2,
    ;
    assert(xx3 * ss == s6 - 2 * (s4 * x1) - 2 * (s4 * x2) + ss * xx1 + 2 * (ss * x12) + ss * xx2)
        by (nonlinear_arith)
        requires
            xx3 == s4 - 2 * (ss * x1) - 2 * (ss * x2) + xx1 + 2 * x12 + xx2,
            s4 == ss * ss,
            s6 == s4 * ss,
    ;
    assert(xx3 * x1 == s4 * x1 - 2 * (ss * xx1) - 2 * (ss * x12) + xx1 * x1 + 2 * (xx1 * x2)
        + x12 * x2) by (nonlinear_arith)
        requires
            xx3 == s4 - 2 * (ss * x1) - 2 * (ss * x2) + xx1 + 2 * x12 + xx2,
            xx1 == x1 * x1,
            x12 == x1 * x2,
            xx2 == x2 * x2,
    ;
    assert(xx3 * x2 == s4 * x2 - 2 * (ss * x12) - 2 * (ss * xx2) + xx1 * x2 + 2 * (x12 * x2)
        + xx2 * x2) by (nonlinear_arith)
        requires
            xx3 == s4 - 2 * (ss * x1) - 2 * (ss * x2) + xx1 + 2 * x12 + xx2,
            xx1 == x1 * x1,
            x12 == x1 * x2,
            xx2 == x2 * x2,
    ;
    assert(xx3 * x3 == xx3 * ss - xx3 * x1 - xx3 * x2) by (nonlinear_arith)
        requires
            x3 == ss - x1 - x2,
    ;
    // the line evaluated at the third abscissa
    assert(a * x3 == a * ss - a * x1 - a * x2) by (nonlinear_arith)
        requires
            x3 == ss - x1 - x2,
    ;
    assert(alpha * ss == a * ss + s4 * x2 - s4 * x1 - 2 * (sy * ss) + ss * xx1 + ss * x12 + ss
        * xx2) by (nonlinear_arith)
        requires
            alpha == a + ss * x2 - ss * x1 - 2 * sy + xx1 + x12 + xx2,
            s4 == ss * ss,
    ;
    assert(alpha * x3 == alpha * ss - alpha * x1 - alpha * x2) by (nonlinear_arith)
        requires
            x3 == ss - x1 - x2,
    ;
    assert(sy * ss == ss * sy) by (nonlinear_arith);
    assert(x3 * x3 * x3 + a * x3 + b - u3 * u3 == alpha * x3 + beta);
    (alpha, beta)
}

/// The chord construction stays on the curve: when two curve points have
/// distinct abscissas, the reflected third intersection of their secant
/// line satisfies the curve equation again.
proof fn lemma_chord_on_curve(p: int, a: int, b: int, x1: int, y1: int, x2: int, y2: int)
    requires
        is_prime(p),
        0 <= a < p,
        0 <= b < p,
        0 <= x1 < p,
        0 <= y1 < p,
        0 <= x2 < p,
        0 <= y2 < p,
        x1 != x2,
        on_curve_vals(p, a, b, x1, y1),
        on_curve_vals(p, a, b, x2, y2),
    ensures
        ({
            let s = chord_slope(p, x1, y1, x2, y2);
            let rx = (s * s - x1 - x2) % p;
            let ry = (s * (x2 - rx) - y2) % p;
            on_curve_vals(p, a, b, rx, ry)
        }),
{
    let d = (x1 - x2) % p;
    lemma_nonzero_diff(p, x1, x2);
    vstd::arithmetic::div_mod::lemma_mod_division_less_than_divisor(x1 - x2, p);
    let w = inv_val(p, d);
    lemma_fermat_inverse(p, d);
    let s = chord_slope(p, x1, y1, x2, y2);
    vstd::arithmetic::div_mod::lemma_small_mod(1nat, p as nat);
    // the slope times the abscissa difference gives the ordinate difference
    assert(cong(p, s * (x1 - x2), y1 - y2)) by {
        lemma_cong_of_mod(p, (y1 - y2) * w);
        lemma_cong_of_mod(p, x1 - x2);
        lemma_cong_equiv(p, d, x1 - x2, 0);
        lemma_cong_mul(p, s, (y1 - y2) * w, x1 - x2, d);
        assert(((y1 - y2) * w) * d == (y1 - y2) * (d * w)) by (nonlinear_arith);
        lemma_cong_is_mod_eq(p, d * w, 1);
        lemma_cong_equiv(p, d * w, 1, 0);
        lemma_cong_mul(p, y1 - y2, y1 - y2, d * w, 1);
        lemma_cong_equiv(p, s * (x1 - x2), (y1 - y2) * (d * w), (y1 - y2) * 1);
        lemma_cong_equiv(p, s * (x1 - x2), (y1 - y2) * 1, y1 - y2);
    }
    // the secant line meets the curve at both known points
    let u1 = s * (x1 - x2) + y2;
    assert(cong(p, x1 * x1 * x1 + a * x1 + b - u1 * u1, 0)) by {
        lemma_cong_equiv(p, y2, y2, 0);
        lemma_cong_add(p, s * (x1 - x2), y1 - y2, y2, y2);
        assert(cong(p, u1, y1));
        lemma_cong_mul(p, u1, y1, u1, y1);
        lemma_cong_is_mod_eq(p, y1 * y1, x1 * x1 * x1 + a * x1 + b);
        lemma_cong_equiv(p, u1 * u1, y1 * y1, x1 * x1 * x1 + a * x1 + b);
        lemma_cong_equiv(p, u1 * u1, x1 * x1 * x1 + a * x1 + b, 0);
        lemma_cong_add(
            p,
            x1 * x1 * x1 + a * x1 + b,
            x1 * x1 * x1 + a * x1 + b,
            u1 * u1,
            x1 * x1 * x1 + a * x1 + b,
        );
        lemma_cong_equiv(p, x1 * x1 * x1 + a * x1 + b, x1 * x1 * x1 + a * x1 + b, 0);
    }
    assert(cong(p, x2 * x2 * x2 + a * x2 + b - y2 * y2, 0)) by {
        lemma_cong_is_mod_eq(p, y2 * y2, x2 * x2 * x2 + a * x2 + b);
        lemma_cong_equiv(p, y2 * y2, x2 * x2 * x2 + a * x2 + b, 0);
        lemma_cong_add(
            p,
            x2 * x2 * x2 + a * x2 + b,
            x2 * x2 * x2 + a * x2 + b,
            y2 * y2,
            x2 * x2 * x2 + a * x2 + b,
        );
        lemma_cong_equiv(p, x2 * x2 * x2 + a * x2 + b, x2 * x2 * x2 + a * x2 + b, 0);
    }
    // the difference between the cubic and the secant square is a line
    // `alpha*t + beta` plus the product of the three root factors
    let x3 = s * s - x1 - x2;
    let u3 = s * (x3 - x2) + y2;
    let (alpha, beta) = lemma_chord_identities(s, x1, x2, y2, a, b);
    // the line vanishes at both abscissas, so it vanishes identically
    assert(cong(p, alpha * x1 + beta, 0));
    assert(cong(p, alpha * x2 + beta, 0));
    assert(cong(p, alpha, 0)) by {
        lemma_cong_add(p, alpha * x1 + beta, 0, alpha * x2 + beta, 0);
        assert((alpha * x1 + beta) - (alpha * x2 + beta) == alpha * (x1 - x2))
            by (nonlinear_arith);
        lemma_cong_of_mod(p, x1 - x2);
        lemma_cong_equiv(p, d, x1 - x2, 0);
        lemma_cong_equiv(p, alpha, alpha, 0);
        lemma_cong_mul(p, alpha, alpha, x1 - x2, d);
        lemma_cong_equiv(p, alpha * (x1 - x2), alpha * d, 0);
        lemma_cong_equiv(p, alpha * d, alpha * (x1 - x2), 0);
        assert(alpha * d == d * alpha) by (nonlinear_arith);
        lemma_cong_cancel(p, d, alpha);
    }
    assert(cong(p, beta, 0)) by {
        lemma_cong_mul(p, alpha, 0, x1, x1);
        assert(0 * x1 == 0) by (nonlinear_arith);
        lemma_cong_add(p, alpha * x1 + beta, 0, alpha * x1, 0);
        assert((alpha * x1 + beta) - alpha * x1 == beta);
    }
    // hence the third intersection satisfies the curve equation
    assert(cong(p, x3 * x3 * x3 + a * x3 + b, u3 * u3)) by {
        lemma_cong_mul(p, alpha, 0, x3, x3);
        assert(0 * x3 == 0) by (nonlinear_arith);
        lemma_cong_add(p, alpha * x3, 0, beta, 0);
        assert(cong(p, x3 * x3 * x3 + a * x3 + b - u3 * u3, 0));
    }
    // transfer to the reduced coordinates
    let rx = (s * s - x1 - x2) % p;
    let ry = (s * (x2 - rx) - y2) % p;
    assert(cong(p, rx, x3)) by {
        lemma_cong_of_mod(p, s * s - x1 - x2);
    }
    assert(cong(p, s * (x2 - rx) - y2, -u3)) by {
        lemma_cong_equiv(p, x2, x2, 0);
        lemma_cong_equiv(p, s, s, 0);
        lemma_cong_equiv(p, y2, y2, 0);
        lemma_cong_add(p, x2, x2, rx, x3);
        lemma_cong_mul(p, s, s, x2 - rx, x2 - x3);
        lemma_cong_add(p, s * (x2 - rx), s * (x2 - x3), y2, y2);
        assert(s * (x2 - x3) - y2 == -u3) by (nonlinear_arith)
            requires
                u3 == s * (x3 - x2) + y2,
        ;
    }
    assert(cong(p, ry, -u3)) by {
        lemma_cong_of_mod(p, s * (x2 - rx) - y2);
        lemma_cong_equiv(p, ry, s * (x2 - rx) - y2, -u3);
    }
    assert(cong(p, ry * ry, u3 * u3)) by {
        lemma_cong_mul(p, ry, -u3, ry, -u3);
        assert((-u3) * (-u3) == u3 * u3) by (nonlinear_arith);
    }
    assert(cong(p, rx * rx * rx + a * rx + b, x3 * x3 * x3 + a * x3 + b)) by {
        lemma_cong_mul(p, rx, x3, rx, x3);
        lemma_cong_mul(p, rx * rx, x3 * x3, rx, x3);
        lemma_cong_equiv(p, a, a, 0);
        lemma_cong_mul(p, a, a, rx, x3);
        lemma_cong_equiv(p, b, b, 0);
        lemma_cong_add(p, rx * rx * rx, x3 * x3 * x3, a * rx, a * x3);
        lemma_cong_add(p, rx * rx * rx + a * rx, x3 * x3 * x3 + a * x3, b, b);
    }
    assert(cong(p, ry * ry, rx * rx * rx + a * rx + b)) by {
        lemma_cong_equiv(p, x3 * x3 * x3 + a * x3 + b, u3 * u3, 0);
        lemma_cong_equiv(p, ry * ry, u3 * u3, x3 * x3 * x3 + a * x3 + b);
        lemma_cong_equiv(p, rx * rx * rx + a * rx + b, x3 * x3 * x3 + a * x3 + b, 0);
        lemma_cong_equiv(p, ry * ry, x3 * x3 * x3 + a * x3 + b, rx * rx * rx + a * rx + b);
    }
    lemma_cong_is_mod_eq(p, ry * ry, rx * rx * rx + a * rx + b);
}

/// The polynomial backbone of the tangent argument: the cubic minus the
/// squared tangent line is a line `alpha*t + beta` away from the product of
/// the root factors with `x` doubled, evaluated at `x` and at the third
/// abscissa `s^2 - 2x`. Exact integer identities.
proof fn lemma_dbl_identities(s: int, x: int, y: int, a: int, b: int) -> (r: (int, int))
    ensures
        r.0 == a + 3 * (x * x) - 2 * (s * y),
        x * x * x + a * x + b - y * y == r.0 * x + r.1,
        ({
            let x3 = s * s - 2 * x;
            let u3 = s * (x3 - x) + y;
            x3 * x3 * x3 + a * x3 + b - u3 * u3 == r.0 * x3 + r.1
        }),
{
    let ss = s * s;
    let sy = s * y;
    let xx = x * x;
    let yy = y * y;
    let s4 = ss * ss;
    let s6 = s4 * ss;
    let x3 = ss - 2 * x;
    let dt = x3 - x;
    let xx3 = x3 * x3;
    let ddt = dt * dt;
    let u3 = s * dt + y;
    let alpha = a + 3 * xx - 2 * sy;
    let beta = b + 2 * (sy * x) - yy - 2 * (xx * x);
    assert(x * x * x + a * x + b - yy == alpha * x + beta) by (nonlinear_arith)
        requires
            alpha == a + 3 * xx - 2 * sy,
            beta == b + 2 * (sy * x) - yy - 2 * (xx * x),
            xx == x * x,
    ;
    assert(u3 * u3 == ss * ddt + 2 * (sy * dt) + yy) by (nonlinear_arith)
        requires
            u3 == s * dt + y,
            ss == s * s,
            sy == s * y,
            yy == y * y,
            ddt == dt * dt,
    ;
    assert(ddt == s4 - 6 * (ss * x) + 9 * xx) by (nonlinear_arith)
        requires
            ddt == dt * dt,
            dt == ss - 3 * x,
            s4 == ss * ss,
            xx == x * x,
    ;
    assert(ss * ddt == s6 - 6 * (s4 * x) + 9 * (ss * xx)) by (nonlinear_arith)
        requires
            ddt == s4 - 6 * (ss * x) + 9 * xx,
            s4 == ss * ss,
            s6 == s4 * ss,
    ;
    assert(sy * dt == sy * ss - 3 * (sy * x)) by (nonlinear_arith)
        requires
            dt == ss - 3 * x,
    ;
    assert(xx3 == s4 - 4 * (ss * x) + 4 * xx) by (nonlinear_arith)
        requires
            xx3 == x3 * x3,
            x3 == ss - 2 * x,
            s4 == ss * ss,
            xx == x * x,
    ;
    assert(xx3 * ss == s6 - 4 * (s4 * x) + 4 * (ss * xx)) by (nonlinear_arith)
        requires
            xx3 == s4 - 4 * (ss * x) + 4 * xx,
            s4 == ss * ss,
            s6 == s4 * ss,
    ;
    assert(xx3 * x == s4 * x - 4 * (ss * xx) + 4 * (xx * x)) by (nonlinear_arith)
        requires
            xx3 == s4 - 4 * (ss * x) + 4 * xx,
            xx == x * x,
    ;
    assert(xx3 * x3 == xx3 * ss - 2 * (xx3 * x)) by (nonlinear_arith)
        requires
            x3 == ss - 2 * x,
    ;
    assert(a * x3 == a * ss - 2 * (a * x)) by (nonlinear_arith)
        requires
            x3 == ss - 2 * x,
    ;
    assert(alpha * x3 == a * ss - 2 * (a * x) + 3 * (ss * xx) - 6 * (xx * x) - 2 * (sy * ss) + 4
        * (sy * x)) by (nonlinear_arith)
        requires
            alpha == a + 3 * xx - 2 * sy,
            x3 == ss - 2 * x,
    ;
    assert(x3 * x3 * x3 + a * x3 + b - u3 * u3 == alpha * x3 + beta);
    (alpha, beta)
}

/// The tangent construction stays on the curve: doubling a curve point with
/// a nonzero ordinate produces coordinates that satisfy the curve equation
/// again, for any odd prime modulus.
proof fn lemma_dbl_on_curve(p: int, a: int, b: int, x: int, y: int)
    requires
        is_prime(p),
        p % 2 == 1,
        0 <= a < p,
        0 <= b < p,
        0 <= x < p,
        0 < y < p,
        on_curve_vals(p, a, b, x, y),
    ensures
        1 <= (2 * y) % p < p,
        ({
            let s = dbl_slope(p, a, x, y);
            let rx = (s * s - 2 * x) % p;
            let ry = (s * (x - rx) - y) % p;
            on_curve_vals(p, a, b, rx, ry)
        }),
{
    let den = (2 * y) % p;
    // an odd prime never divides twice a nonzero residue below it
    assert(1 <= den < p) by {
        vstd::arithmetic::div_mod::lemma_mod_division_less_than_divisor(2 * y, p);
        assert((2 * y) % 2 == 0) by {
            vstd::arithmetic::div_mod::lemma_mod_multiples_basic(y, 2);
        }
        if 2 * y < p {
            vstd::arithmetic::div_mod::lemma_small_mod((2 * y) as nat, p as nat);
        } else {
            assert(2 * y != p);
            vstd::arithmetic::div_mod::lemma_fundamental_div_mod_converse_mod(
                2 * y,
                p,
                1,
                2 * y - p,
            );
        }
    }
    let w = inv_val(p, den);
    lemma_fermat_inverse(p, den);
    vstd::arithmetic::div_mod::lemma_small_mod(1nat, p as nat);
    let s = dbl_slope(p, a, x, y);
    // the slope times twice the ordinate gives the tangent numerator
    assert(cong(p, s * (2 * y), 3 * (x * x) + a)) by {
        lemma_cong_of_mod(p, (3 * (x * x) + a) * w);
        lemma_cong_of_mod(p, 2 * y);
        lemma_cong_equiv(p, den, 2 * y, 0);
        lemma_cong_mul(p, s, (3 * (x * x) + a) * w, 2 * y, den);
        assert(((3 * (x * x) + a) * w) * den == (3 * (x * x) + a) * (den * w))
            by (nonlinear_arith);
        lemma_cong_is_mod_eq(p, den * w, 1);
        lemma_cong_equiv(p, den * w, 1, 0);
        lemma_cong_mul(p, 3 * (x * x) + a, 3 * (x * x) + a, den * w, 1);
        lemma_cong_equiv(p, s * (2 * y), (3 * (x * x) + a) * (den * w), (3 * (x * x) + a) * 1);
        lemma_cong_equiv(p, s * (2 * y), (3 * (x * x) + a) * 1, 3 * (x * x) + a);
    }
    let x3 = s * s - 2 * x;
    let u3 = s * (x3 - x) + y;
    let (alpha, beta) = lemma_dbl_identities(s, x, y, a, b);
    // the tangent condition makes the residual line's slope vanish
    assert(cong(p, alpha, 0)) by {
        assert(s * (2 * y) == 2 * (s * y)) by (nonlinear_arith);
        lemma_cong_add(p, 3 * (x * x) + a, 3 * (x * x) + a, 2 * (s * y), 3 * (x * x) + a);
        lemma_cong_equiv(p, 3 * (x * x) + a, 3 * (x * x) + a, 0);
    }
    // the curve point itself makes the line vanish at `x`
    assert(cong(p, alpha * x + beta, 0)) by {
        lemma_cong_is_mod_eq(p, y * y, x * x * x + a * x + b);
        lemma_cong_equiv(p, y * y, x * x * x + a * x + b, 0);
        lemma_cong_add(
            p,
            x * x * x + a * x + b,
            x * x * x + a * x + b,
            y * y,
            x * x * x + a * x + b,
        );
        lemma_cong_equiv(p, x * x * x + a * x + b, x * x * x + a * x + b, 0);
    }
    assert(cong(p, beta, 0)) by {
        lemma_cong_mul(p, alpha, 0, x, x);
        assert(0 * x == 0) by (nonlinear_arith);
        lemma_cong_add(p, alpha * x + beta, 0, alpha * x, 0);
        assert((alpha * x + beta) - alpha * x == beta);
    }
    // hence the doubled point satisfies the curve equation
    assert(cong(p, x3 * x3 * x3 + a * x3 + b, u3 * u3)) by {
        lemma_cong_mul(p, alpha, 0, x3, x3);
        assert(0 * x3 == 0) by (nonlinear_arith);
        lemma_cong_add(p, alpha * x3, 0, beta, 0);
        assert(cong(p, x3 * x3 * x3 + a * x3 + b - u3 * u3, 0));
    }
    // transfer to the reduced coordinates
    let rx = (s * s - 2 * x) % p;
    let ry = (s * (x - rx) - y) % p;
    assert(cong(p, rx, x3)) by {
        lemma_cong_of_mod(p, s * s - 2 * x);
    }
    assert(cong(p, s * (x - rx) - y, -u3)) by {
        lemma_cong_equiv(p, x, x, 0);
        lemma_cong_equiv(p, s, s, 0);
        lemma_cong_equiv(p, y, y, 0);
        lemma_cong_add(p, x, x, rx, x3);
        lemma_cong_mul(p, s, s, x - rx, x - x3);
        lemma_cong_add(p, s * (x - rx), s * (x - x3), y, y);
        assert(s * (x - x3) - y == -u3) by (nonlinear_arith)
            requires
                u3 == s * (x3 - x) + y,
        ;
    }
    assert(cong(p, ry, -u3)) by {
        lemma_cong_of_mod(p, s * (x - rx) - y);
        lemma_cong_equiv(p, ry, s * (x - rx) - y, -u3);
    }
    assert(cong(p, ry * ry, u3 * u3)) by {
        lemma_cong_mul(p, ry, -u3, ry, -u3);
        assert((-u3) * (-u3) == u3 * u3) by (nonlinear_arith);
    }
    assert(cong(p, rx * rx * rx + a * rx + b, x3 * x3 * x3 + a * x3 + b)) by {
        lemma_cong_mul(p, rx, x3, rx, x3);
        lemma_cong_mul(p, rx * rx, x3 * x3, rx, x3);
        lemma_cong_equiv(p, a, a, 0);
        lemma_cong_mul(p, a, a, rx, x3);
        lemma_cong_equiv(p, b, b, 0);
        lemma_cong_add(p, rx * rx * rx, x3 * x3 * x3, a * rx, a * x3);
        lemma_cong_add(p, rx * rx * rx + a * rx, x3 * x3 * x3 + a * x3, b, b);
    }
    assert(cong(p, ry * ry, rx * rx * rx + a * rx + b)) by {
        lemma_cong_equiv(p, x3 * x3 * x3 + a * x3 + b, u3 * u3, 0);
        lemma_cong_equiv(p, ry * ry, u3 * u3, x3 * x3 * x3 + a * x3 + b);
        lemma_cong_equiv(p, rx * rx * rx + a * rx + b, x3 * x3 * x3 + a * x3 + b, 0);
        lemma_cong_equiv(p, ry * ry, x3 * x3 * x3 + a * x3 + b, rx * rx * rx + a * rx + b);
    }
    lemma_cong_is_mod_eq(p, ry * ry, rx * rx * rx + a * rx + b);
}

/// Law (closure of the group law): over an odd prime modulus, adding two
/// well-formed points involves only defined divisions, and the sum of two
/// points of one curve always exists.
pub proof fn lemma_add_defined(p1: PointEllipticCurve, p2: PointEllipticCurve)
    requires
        p1.wf(),
        p2.wf(),
        is_prime(p1.field_p()),
        p1.field_p() % 2 == 1,
    ensures
        p1.add_div_ok(p2),
        p1.a == p2.a && p1.b == p2.b ==> p1.spec_add(p2) is Some,
{
    let p = p1.field_p();
    if p1.a == p2.a && p1.b == p2.b && !p1.is_inf() && !p2.is_inf() {
        let x1 = p1.x.unwrap();
        let y1 = p1.y.unwrap();
        let x2 = p2.x.unwrap();
        let y2 = p2.y.unwrap();
        let av = p1.a.value as int;
        let bv = p1.b.value as int;
        if x1 == x2 && y1 == y2 && y1.value != 0 {
            lemma_dbl_on_curve(p, av, bv, x1.value as int, y1.value as int);
            let den = (2 * y1.value) % p;
            crate::finite_body::lemma_pow_mod_nonzero(
                p as nat,
                den as nat,
                crate::finite_body::fermat_exp(p),
            );
        } else if x1 != x2 {
            assert(x1.value != x2.value);
            lemma_nonzero_diff(p, x1.value as int, x2.value as int);
            let d = (x1.value - x2.value) % p;
            vstd::arithmetic::div_mod::lemma_mod_division_less_than_divisor(
                x1.value - x2.value,
                p,
            );
            crate::finite_body::lemma_pow_mod_nonzero(
                p as nat,
                d as nat,
                crate::finite_body::fermat_exp(p),
            );
            lemma_chord_on_curve(
                p,
                av,
                bv,
                x1.value as int,
                y1.value as int,
                x2.value as int,
                y2.value as int,
            );
        }
    }
}

/// Law (totality of scalar multiplication): over an odd prime modulus,
/// every scalar multiple of a well-formed point is defined.
pub proof fn lemma_scalar_mul_defined(g: PointEllipticCurve, k: nat)
    requires
        g.wf(),
        is_prime(g.field_p()),
        g.field_p() % 2 == 1,
    ensures
        g.spec_scalar_mul(k) is Some,
    decreases k,
{
    if k > 0 {
        lemma_scalar_mul_defined(g, (k - 1) as nat);
        let q = g.spec_scalar_mul((k - 1) as nat).unwrap();
        crate::point_elliptic_curve::lemma_scalar_chain_wf(g, (k - 1) as nat);
        lemma_add_defined(q, g);
    }
}

/// Law (totality of scalar multiplication, quantified): over an odd prime
/// modulus, the whole scalar-multiplication chain of a well-formed point is
/// defined at once; this discharges the preconditions of the searches and
/// of key agreement.
pub proof fn lemma_all_scalar_muls_defined(g: PointEllipticCurve)
    requires
        g.wf(),
        is_prime(g.field_p()),
        g.field_p() % 2 == 1,
    ensures
        forall|k: nat| (#[trigger] g.spec_scalar_mul(k)) is Some,
{
    assert forall|k: nat| (#[trigger] g.spec_scalar_mul(k)) is Some by {
        lemma_scalar_mul_defined(g, k);
    }
}

} // verus!
