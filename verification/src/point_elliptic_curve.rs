//! Points on a short-Weierstrass curve `y^2 = x^3 + a*x + b` over the prime
//! field of `FiniteBody` residues, including the point at infinity, with the
//! elliptic-curve group law: addition, doubling, negation and scalar
//! multiplication by repeated addition.

use crate::finite_body::{inv_val, FiniteBody};
use vstd::prelude::*;

verus! {

/// A curve point: either a finite affine point (both coordinates present)
/// or the point at infinity (both absent), tagged with the curve parameters
/// `a` and `b`. A finite point always satisfies the curve equation.
#[derive(Clone, Copy, Debug, Hash)]
pub struct PointEllipticCurve {
    pub x: Option<FiniteBody>,
    pub y: Option<FiniteBody>,
    pub a: FiniteBody,
    pub b: FiniteBody,
}

/// Alternative name under which the same point type is exported.
pub type PointElipticCurve = PointEllipticCurve;

/// The Weierstrass equation at the residue level: `y^2 == x^3 + a*x + b`
/// modulo `p`.
pub open spec fn on_curve_vals(p: int, a: int, b: int, x: int, y: int) -> bool {
    (y * y) % p == (x * x * x + a * x + b) % p
}

/// The value of the tangent slope used when doubling `(x, y)`:
/// `(3*x^2 + a) / (2*y)` with the division done by Fermat inversion.
pub open spec fn dbl_slope(p: int, a: int, x: int, y: int) -> int {
    ((3 * (x * x) + a) * inv_val(p, (2 * y) % p)) % p
}

/// The value of the chord slope between distinct points:
/// `(y1 - y2) / (x1 - x2)` with the division done by Fermat inversion.
pub open spec fn chord_slope(p: int, x1: int, y1: int, x2: int, y2: int) -> int {
    ((y1 - y2) * inv_val(p, (x1 - x2) % p)) % p
}

impl PointEllipticCurve {
    /// The modulus shared by the curve parameters and the coordinates.
    pub open spec fn field_p(self) -> int {
        self.a.p as int
    }

    /// The group identity: no affine coordinates.
    pub open spec fn is_inf(self) -> bool {
        self.x is None && self.y is None
    }

    /// Well-formed: parameters share one modulus, and a finite point has
    /// canonical coordinates that satisfy the curve equation.
    pub open spec fn wf(self) -> bool {
        &&& self.a.wf()
        &&& self.b.wf()
        &&& self.b.p == self.a.p
        &&& match (self.x, self.y) {
            (Option::None, Option::None) => true,
            (Option::Some(x), Option::Some(y)) => {
                &&& x.wf()
                &&& y.wf()
                &&& x.p == self.a.p
                &&& y.p == self.a.p
                &&& on_curve_vals(
                    self.field_p(),
                    self.a.value as int,
                    self.b.value as int,
                    x.value as int,
                    y.value as int,
                )
            },
            _ => false,
        }
    }

    /// The point at infinity on the curve `(a, b)`.
    pub open spec fn spec_inf(a: FiniteBody, b: FiniteBody) -> PointEllipticCurve {
        PointEllipticCurve { x: None, y: None, a, b }
    }

    /// What validated construction returns: the finite point when the curve
    /// equation holds, nothing otherwise.
    pub open spec fn spec_new(x: FiniteBody, y: FiniteBody, a: FiniteBody, b: FiniteBody) -> Option<
        PointEllipticCurve,
    > {
        if on_curve_vals(a.p as int, a.value as int, b.value as int, x.value as int, y.value as int) {
            Some(PointEllipticCurve { x: Some(x), y: Some(y), a, b })
        } else {
            None
        }
    }

    /// Validated construction of a finite point: checks the curve equation
    /// `y^2 == x^3 + a*x + b` and refuses coordinates not on the curve.
    pub fn new(x: FiniteBody, y: FiniteBody, a: FiniteBody, b: FiniteBody) -> (r: Option<
        PointEllipticCurve,
    >)
        requires
            x.wf(),
            y.wf(),
            a.wf(),
            b.wf(),
            x.p == a.p,
            y.p == a.p,
            b.p == a.p,
        ensures
            r == Self::spec_new(x, y, a, b),
            r matches Some(pt) ==> pt.wf(),
    {
        let lhs = y.pow(2);
        let rhs = x.pow(3).add(a.mul(x)).add(b);
        proof {
            lemma_curve_eq_chain(
                a.p as int,
                a.value as int,
                b.value as int,
                x.value as int,
                y.value as int,
            );
        }
        if lhs != rhs {
            return None;
        }
        Some(PointEllipticCurve { x: Some(x), y: Some(y), a, b })
    }

    /// The point at infinity: the additive identity of the curve group.
    pub fn new_inf(a: FiniteBody, b: FiniteBody) -> (r: PointEllipticCurve)
        requires
            a.wf(),
            b.wf(),
            b.p == a.p,
        ensures
            r == Self::spec_inf(a, b),
            r.wf(),
            r.is_inf(),
    {
        PointEllipticCurve { x: None, y: None, a, b }
    }

    /// The full group-law case analysis, in the order the addition applies
    /// it: curve mismatch, identity cases, vertical chord, vertical tangent,
    /// doubling, and the chord between distinct points.
    pub open spec fn spec_add(self, other: Self) -> Option<PointEllipticCurve> {
        if self.a != other.a || self.b != other.b {
            None
        } else if self.is_inf() {
            Some(other)
        } else if other.is_inf() {
            Some(self)
        } else {
            let p = self.a.p as int;
            let x1 = self.x.unwrap();
            let y1 = self.y.unwrap();
            let x2 = other.x.unwrap();
            let y2 = other.y.unwrap();
            if x1 == x2 && y1 != y2 {
                Some(Self::spec_inf(self.a, self.b))
            } else if x1 == x2 && y1 == y2 && y1.value == 0 {
                Some(Self::spec_inf(self.a, self.b))
            } else if x1 == x2 && y1 == y2 {
                let s = dbl_slope(p, self.a.value as int, x1.value as int, y1.value as int);
                let rx = (s * s - 2 * x1.value) % p;
                let ry = (s * (x1.value - rx) - y1.value) % p;
                Self::spec_new(
                    FiniteBody { p: self.a.p, value: rx as i64 },
                    FiniteBody { p: self.a.p, value: ry as i64 },
                    self.a,
                    self.b,
                )
            } else {
                let s = chord_slope(
                    p,
                    x1.value as int,
                    y1.value as int,
                    x2.value as int,
                    y2.value as int,
                );
                let rx = (s * s - x1.value - x2.value) % p;
                let ry = (s * (x2.value - rx) - y2.value) % p;
                Self::spec_new(
                    FiniteBody { p: self.a.p, value: rx as i64 },
                    FiniteBody { p: self.a.p, value: ry as i64 },
                    self.a,
                    self.b,
                )
            }
        }
    }

    /// The divisions that addition would perform are defined: the doubling
    /// denominator `2*y` and the chord denominator `x1 - x2` are nonzero and
    /// invertible under the Fermat power in the cases that reach them.
    pub open spec fn add_div_ok(self, other: Self) -> bool {
        if self.a == other.a && self.b == other.b && !self.is_inf() && !other.is_inf() {
            let p = self.a.p as int;
            let x1 = self.x.unwrap();
            let y1 = self.y.unwrap();
            let x2 = other.x.unwrap();
            let y2 = other.y.unwrap();
            if x1 == x2 && y1 == y2 && y1.value != 0 {
                (2 * y1.value) % p != 0 && inv_val(p, (2 * y1.value) % p) != 0
            } else if x1 != x2 {
                inv_val(p, (x1.value - x2.value) % p) != 0
            } else {
                true
            }
        } else {
            true
        }
    }

    /// Adds two points under the elliptic-curve group law. Fails exactly on
    /// a curve-parameter mismatch; a computed point is re-validated through
    /// construction.
    pub fn add(self, other: Self) -> (r: Option<PointEllipticCurve>)
        requires
            self.wf(),
            other.wf(),
            self.add_div_ok(other),
        ensures
            r == self.spec_add(other),
            r matches Some(pt) ==> pt.wf(),
    {
        if self.a != other.a || self.b != other.b {
            return None;
        }
        if self.x.is_none() && self.y.is_none() {
            return Some(other);
        }
        if other.x.is_none() && other.y.is_none() {
            return Some(self);
        }
        let x1 = self.x.unwrap();
        let y1 = self.y.unwrap();
        let x2 = other.x.unwrap();
        let y2 = other.y.unwrap();
        if x1 == x2 && y1 != y2 {
            return Some(Self::new_inf(self.a, self.b));
        }
        if x1 == x2 && y1 == y2 && y1.value == 0 {
            return Some(Self::new_inf(self.a, self.b));
        }
        let ghost p = self.a.p as int;
        if x1 == x2 && y1 == y2 {
            let den = y1.scalar_mul(2);
            let num = x1.pow(2).scalar_mul(3).add(self.a);
            proof {
                assert(y1.p == self.a.p);
                assert(den.value == (2 * y1.value as int) % p);
            }
            let s = num.div(den);
            proof {
                lemma_dbl_slope_chain(p, self.a.value as int, x1.value as int, y1.value as int);
            }
            let rx = s.pow(2).sub(x1.scalar_mul(2));
            let ry = s.mul(x1.sub(rx)).sub(y1);
            proof {
                lemma_result_coords(
                    p,
                    s.value as int,
                    x1.value as int,
                    x1.value as int,
                    y1.value as int,
                );
            }
            return Self::new(rx, ry, self.a, self.b);
        }
        let den = x1.sub(x2);
        proof {
            lemma_nonzero_diff(p, x1.value as int, x2.value as int);
        }
        let s = y1.sub(y2).div(den);
        proof {
            lemma_chord_slope_chain(
                p,
                x1.value as int,
                y1.value as int,
                x2.value as int,
                y2.value as int,
            );
        }
        let rx = s.pow(2).sub(x1).sub(x2);
        let ry = s.mul(x2.sub(rx)).sub(y2);
        proof {
            lemma_result_coords(p, s.value as int, x1.value as int, x2.value as int, y2.value as int);
        }
        Self::new(rx, ry, self.a, self.b)
    }

    /// What `k` successive additions of `self`, starting from the point at
    /// infinity, produce: nothing if any intermediate step has an undefined
    /// division or an off-curve result.
    pub open spec fn spec_scalar_mul(self, k: nat) -> Option<PointEllipticCurve>
        decreases k,
    {
        if k == 0 {
            Some(Self::spec_inf(self.a, self.b))
        } else {
            match self.spec_scalar_mul((k - 1) as nat) {
                Option::None => None,
                Option::Some(q) => if q.add_div_ok(self) {
                    q.spec_add(self)
                } else {
                    None
                },
            }
        }
    }

    /// Multiplies the point by a non-negative scalar through `k` repeated
    /// additions. Every intermediate addition must be defined; for a point
    /// genuinely on a curve over a prime field this always holds.
    pub fn scalar_mul(self, k: u64) -> (r: PointEllipticCurve)
        requires
            self.wf(),
            self.spec_scalar_mul(k as nat) is Some,
        ensures
            Some(r) == self.spec_scalar_mul(k as nat),
            r.wf(),
    {
        let mut result = Self::new_inf(self.a, self.b);
        let mut i: u64 = 0;
        while i < k
            invariant
                self.wf(),
                self.spec_scalar_mul(k as nat) is Some,
                i <= k,
                Some(result) == self.spec_scalar_mul(i as nat),
                result.wf(),
            decreases k - i,
        {
            proof {
                lemma_scalar_chain_prefix(self, k as nat, (i + 1) as nat);
            }
            let partial = result.add(self);
            result = partial.unwrap();
            i = i + 1;
        }
        result
    }

    /// The additive inverse of a point: infinity is its own inverse, and a
    /// finite point's `y` coordinate is negated (then re-validated).
    pub open spec fn spec_neg(self) -> Option<PointEllipticCurve> {
        if self.is_inf() {
            Some(self)
        } else {
            let p = self.a.p;
            let y = self.y.unwrap();
            Self::spec_new(
                self.x.unwrap(),
                FiniteBody { p, value: ((p - y.value) as int % p as int) as i64 },
                self.a,
                self.b,
            )
        }
    }

    /// Negates the point. On a well-formed point the mirrored coordinates
    /// satisfy the curve equation again, so a value is always produced.
    pub fn neg(self) -> (r: Option<PointEllipticCurve>)
        requires
            self.wf(),
        ensures
            r == self.spec_neg(),
            r is Some,
            r matches Some(pt) ==> pt.wf(),
    {
        if self.x.is_none() && self.y.is_none() {
            return Some(self);
        }
        let x = self.x.unwrap();
        let y = self.y.unwrap();
        let ny = y.neg();
        proof {
            lemma_neg_preserves_curve(
                self.field_p(),
                self.a.value as int,
                self.b.value as int,
                x.value as int,
                y.value as int,
            );
        }
        Self::new(x, ny, self.a, self.b)
    }
}

impl PartialEq for PointEllipticCurve {
    /// Two points are equal when they have the same coordinates (or are both
    /// infinity) and lie on the same curve.
    fn eq(&self, other: &Self) -> (r: bool) {
        let x_eq = match (self.x, other.x) {
            (Option::None, Option::None) => true,
            (Option::Some(u), Option::Some(v)) => u == v,
            _ => false,
        };
        let y_eq = match (self.y, other.y) {
            (Option::None, Option::None) => true,
            (Option::Some(u), Option::Some(v)) => u == v,
            _ => false,
        };
        x_eq && y_eq && self.a == other.a && self.b == other.b
    }
}

impl vstd::std_specs::cmp::PartialEqSpecImpl for PointEllipticCurve {
    open spec fn obeys_eq_spec() -> bool {
        true
    }

    open spec fn eq_spec(&self, other: &Self) -> bool {
        self.x == other.x && self.y == other.y && self.a == other.a && self.b == other.b
    }
}

/// The executable curve-equation check, which reduces after every operation,
/// agrees with the single-reduction form of the Weierstrass equation.
pub(crate) proof fn lemma_curve_eq_chain(p: int, a: int, b: int, x: int, y: int)
    requires
        1 <= p,
        0 <= a < p,
        0 <= b < p,
        0 <= x < p,
        0 <= y < p,
    ensures
        vstd::arithmetic::power::pow(y, 2) % p == (y * y) % p,
        ((vstd::arithmetic::power::pow(x, 3) % p + (a * x) % p) % p + b) % p == (x * x * x + a * x
            + b) % p,
{
    vstd::arithmetic::power::lemma_square_is_pow2(y);
    vstd::arithmetic::power::lemma_square_is_pow2(x);
    assert(vstd::arithmetic::power::pow(x, 3) == x * (x * x)) by {
        vstd::arithmetic::power::lemma_pow_adds(x, 1, 2);
        vstd::arithmetic::power::lemma_pow1(x);
    }
    assert(x * (x * x) == x * x * x) by (nonlinear_arith);
    let x3 = x * x * x;
    let ax = a * x;
    assert((x3 % p + ax % p) % p == (x3 + ax) % p) by {
        vstd::arithmetic::div_mod::lemma_add_mod_noop(x3, ax, p);
    }
    assert(((x3 + ax) % p + b) % p == (x3 + ax + b) % p) by {
        vstd::arithmetic::div_mod::lemma_add_mod_noop(x3 + ax, b, p);
        vstd::arithmetic::div_mod::lemma_small_mod(b as nat, p as nat);
    }
}

/// Addition of well-formed points preserves well-formedness and the curve
/// parameters of the left operand.
pub proof fn lemma_spec_add_wf(p1: PointEllipticCurve, p2: PointEllipticCurve)
    requires
        p1.wf(),
        p2.wf(),
    ensures
        p1.spec_add(p2) matches Some(r) ==> r.wf() && r.a == p1.a && r.b == p1.b,
{
}

/// A defined scalar-multiplication chain yields well-formed points that stay
/// on the curve of the multiplied point.
pub proof fn lemma_scalar_chain_wf(g: PointEllipticCurve, k: nat)
    requires
        g.wf(),
        g.spec_scalar_mul(k) is Some,
    ensures
        g.spec_scalar_mul(k).unwrap().wf(),
        g.spec_scalar_mul(k).unwrap().a == g.a,
        g.spec_scalar_mul(k).unwrap().b == g.b,
    decreases k,
{
    if k > 0 {
        lemma_scalar_chain_wf(g, (k - 1) as nat);
        lemma_spec_add_wf(g.spec_scalar_mul((k - 1) as nat).unwrap(), g);
    }
}

/// A scalar-multiplication chain that is defined at `k` is defined at every
/// earlier index as well.
pub proof fn lemma_scalar_chain_prefix(g: PointEllipticCurve, k: nat, i: nat)
    requires
        g.spec_scalar_mul(k) is Some,
        i <= k,
    ensures
        g.spec_scalar_mul(i) is Some,
    decreases k,
{
    if i < k {
        lemma_scalar_chain_prefix(g, (k - 1) as nat, i);
    }
}

/// Law (group identity): adding the point at infinity of the point's own
/// curve, on either side, returns the point unchanged.
pub proof fn lemma_add_identity(pt: PointEllipticCurve)
    requires
        pt.wf(),
    ensures
        pt.spec_add(PointEllipticCurve::spec_inf(pt.a, pt.b)) == Some(pt),
        PointEllipticCurve::spec_inf(pt.a, pt.b).spec_add(pt) == Some(pt),
{
}

/// Law (inverse): a finite point added to its negation gives the point at
/// infinity, for any odd modulus.
pub proof fn lemma_add_neg(pt: PointEllipticCurve)
    requires
        pt.wf(),
        !pt.is_inf(),
        pt.a.p % 2 == 1,
    ensures
        pt.spec_neg() is Some,
        pt.spec_add(pt.spec_neg().unwrap()) == Some(PointEllipticCurve::spec_inf(pt.a, pt.b)),
{
    let p = pt.field_p();
    let x = pt.x.unwrap();
    let y = pt.y.unwrap();
    lemma_neg_preserves_curve(p, pt.a.value as int, pt.b.value as int, x.value as int, y.value as int);
    if y.value == 0 {
        assert((p - 0) % p == 0) by {
            vstd::arithmetic::div_mod::lemma_mod_self_0(p);
        }
    } else {
        vstd::arithmetic::div_mod::lemma_small_mod((p - y.value) as nat, p as nat);
        assert(y.value != p - y.value) by {
            assert((2 * y.value) % 2 == 0 && p % 2 == 1);
        }
    }
}

/// Law (scalar-multiplication consistency): multiplying by 1 gives the point
/// itself, by 2 the point added to itself, and by 3 that sum plus the point
/// once more, whenever those additions are defined.
pub proof fn lemma_scalar_mul_consistency(pt: PointEllipticCurve)
    requires
        pt.wf(),
    ensures
        pt.spec_scalar_mul(1) == Some(pt),
        pt.add_div_ok(pt) ==> pt.spec_scalar_mul(2) == pt.spec_add(pt),
        pt.add_div_ok(pt) && pt.spec_add(pt) is Some && pt.spec_add(pt).unwrap().add_div_ok(pt)
            ==> pt.spec_scalar_mul(3) == pt.spec_add(pt).unwrap().spec_add(pt),
{
    let inf = PointEllipticCurve::spec_inf(pt.a, pt.b);
    lemma_add_identity(pt);
    assert(pt.spec_scalar_mul(0) == Some(inf));
    assert(pt.spec_scalar_mul(1) == Some(pt));
    if pt.add_div_ok(pt) {
        assert(pt.spec_scalar_mul(2) == pt.spec_add(pt));
    }
}

/// The executable doubling-slope chain, which reduces after each operation,
/// equals the single-reduction tangent slope `(3*x^2 + a) / (2*y)`.
proof fn lemma_dbl_slope_chain(p: int, a: int, x: int, y: int)
    requires
        1 <= p,
        0 <= a < p,
        0 <= x < p,
        0 <= y < p,
    ensures
        (((vstd::arithmetic::power::pow(x, 2) % p) * 3 % p + a) % p * inv_val(p, (y * 2) % p)) % p
            == dbl_slope(p, a, x, y),
        (y * 2) % p == (2 * y) % p,
{
    vstd::arithmetic::power::lemma_square_is_pow2(x);
    let xx = x * x;
    assert((xx % p) * 3 % p == (3 * xx) % p) by {
        vstd::arithmetic::div_mod::lemma_mul_mod_noop_left(xx, 3, p);
    }
    assert(((3 * xx) % p + a) % p == (3 * xx + a) % p) by {
        vstd::arithmetic::div_mod::lemma_add_mod_noop(3 * xx, a, p);
        vstd::arithmetic::div_mod::lemma_small_mod(a as nat, p as nat);
    }
    assert((3 * xx + a) % p * inv_val(p, (2 * y) % p) % p == (3 * xx + a) * inv_val(
        p,
        (2 * y) % p,
    ) % p) by {
        vstd::arithmetic::div_mod::lemma_mul_mod_noop_left(3 * xx + a, inv_val(p, (2 * y) % p), p);
    }
}

/// The executable chord-slope chain equals the single-reduction chord slope
/// `(y1 - y2) / (x1 - x2)`.
proof fn lemma_chord_slope_chain(p: int, x1: int, y1: int, x2: int, y2: int)
    requires
        1 <= p,
    ensures
        ((y1 - y2) % p * inv_val(p, (x1 - x2) % p)) % p == chord_slope(p, x1, y1, x2, y2),
{
    vstd::arithmetic::div_mod::lemma_mul_mod_noop_left(y1 - y2, inv_val(p, (x1 - x2) % p), p);
}

/// Distinct canonical residues have a difference that does not reduce to
/// zero, so a chord denominator is never the zero element.
pub(crate) proof fn lemma_nonzero_diff(p: int, x1: int, x2: int)
    requires
        1 <= p,
        0 <= x1 < p,
        0 <= x2 < p,
        x1 != x2,
    ensures
        (x1 - x2) % p != 0,
{
    if x1 > x2 {
        vstd::arithmetic::div_mod::lemma_small_mod((x1 - x2) as nat, p as nat);
    } else {
        crate::finite_body::lemma_neg_mod(x1 - x2, p);
        vstd::arithmetic::div_mod::lemma_small_mod((x2 - x1) as nat, p as nat);
    }
}

/// The executable result-coordinate chains equal the single-reduction
/// formulas `rx = s^2 - u1 - u2` and `ry = s*(u2 - rx) - yv`, covering both
/// the doubling case (`u1 == u2`) and the chord case.
proof fn lemma_result_coords(p: int, s: int, u1: int, u2: int, yv: int)
    requires
        1 <= p,
        0 <= s < p,
        0 <= u1 < p,
        0 <= u2 < p,
        0 <= yv < p,
    ensures
        (vstd::arithmetic::power::pow(s, 2) % p - (u1 + u2) % p) % p == (s * s - u1 - u2) % p,
        ((vstd::arithmetic::power::pow(s, 2) % p - u1) % p - u2) % p == (s * s - u1 - u2) % p,
        ((s * ((u2 - ((s * s - u1 - u2) % p)) % p)) % p - yv) % p == (s * (u2 - ((s * s - u1 - u2)
            % p)) - yv) % p,
{
    vstd::arithmetic::power::lemma_square_is_pow2(s);
    let ss = s * s;
    let rx = (ss - u1 - u2) % p;
    assert((ss % p - (u1 + u2) % p) % p == (ss - u1 - u2) % p) by {
        vstd::arithmetic::div_mod::lemma_sub_mod_noop(ss, u1 + u2, p);
    }
    assert((ss % p - u1) % p == (ss - u1) % p) by {
        vstd::arithmetic::div_mod::lemma_sub_mod_noop(ss, u1, p);
        vstd::arithmetic::div_mod::lemma_small_mod(u1 as nat, p as nat);
    }
    assert(((ss - u1) % p - u2) % p == (ss - u1 - u2) % p) by {
        vstd::arithmetic::div_mod::lemma_sub_mod_noop(ss - u1, u2, p);
        vstd::arithmetic::div_mod::lemma_small_mod(u2 as nat, p as nat);
    }
    assert((s * ((u2 - rx) % p)) % p == (s * (u2 - rx)) % p) by {
        vstd::arithmetic::div_mod::lemma_mul_mod_noop_right(s, u2 - rx, p);
    }
    assert(((s * (u2 - rx)) % p - yv) % p == (s * (u2 - rx) - yv) % p) by {
        vstd::arithmetic::div_mod::lemma_sub_mod_noop(s * (u2 - rx), yv, p);
        vstd::arithmetic::div_mod::lemma_small_mod(yv as nat, p as nat);
        vstd::arithmetic::div_mod::lemma_mod_twice(s * (u2 - rx), p);
    }
}

/// Mirroring `y` across the axis preserves the curve equation:
/// `(p - y)^2` is congruent to `y^2` modulo `p`.
proof fn lemma_neg_preserves_curve(p: int, a: int, b: int, x: int, y: int)
    requires
        1 <= p,
        0 <= y < p,
        on_curve_vals(p, a, b, x, y),
    ensures
        on_curve_vals(p, a, b, x, (p - y) % p),
{
    let ny = (p - y) % p;
    assert(ny * ny % p == (p - y) * (p - y) % p) by {
        vstd::arithmetic::div_mod::lemma_mul_mod_noop(p - y, p - y, p);
    }
    assert((p - y) * (p - y) == (p - 2 * y) * p + y * y) by (nonlinear_arith);
    assert(((p - 2 * y) * p + y * y) % p == y * y % p) by {
        vstd::arithmetic::div_mod::lemma_mod_multiples_vanish(p - 2 * y, y * y, p);
    }
}

} // verus!
