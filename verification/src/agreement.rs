//! Diffie-Hellman key agreement over an elliptic curve: fixes a curve and a
//! generator point, derives the generator's order and the curve's point
//! count by exhaustive search, and exposes public-key generation and
//! shared-secret derivation. Practical only for small moduli.

use crate::finite_body::{FiniteBody, MAX_MODULUS};
use crate::point_elliptic_curve::{on_curve_vals, PointEllipticCurve};
use vstd::prelude::*;

verus! {

/// A fixed key-agreement session: curve `(p, a, b)`, generator `g`, and the
/// derived order of `g` and number of affine curve points, computed once at
/// construction and never mutated.
pub struct Agreement {
    pub p: i64,
    pub a: FiniteBody,
    pub b: FiniteBody,
    pub g: PointEllipticCurve,
    pub order_g: u64,
    pub cuantity_points_curve: u64,
}

/// How many `y` in `[0, yb)` satisfy the curve equation at abscissa `x`.
pub open spec fn count_y(p: int, a: int, b: int, x: int, yb: nat) -> nat
    decreases yb,
{
    if yb == 0 {
        0
    } else {
        count_y(p, a, b, x, (yb - 1) as nat) + if on_curve_vals(p, a, b, x, yb - 1) {
            1nat
        } else {
            0nat
        }
    }
}

/// How many affine points `(x, y)` with `x < xb` and `y < p` lie on the
/// curve `(p, a, b)`.
pub open spec fn count_points(p: int, a: int, b: int, xb: nat) -> nat
    decreases xb,
{
    if xb == 0 {
        0
    } else {
        count_points(p, a, b, (xb - 1) as nat) + count_y(
            p,
            a,
            b,
            xb - 1,
            if p >= 0 {
                p as nat
            } else {
                0nat
            },
        )
    }
}

/// At most `yb` ordinates satisfy the equation below the bound `yb`.
proof fn lemma_count_y_bound(p: int, a: int, b: int, x: int, yb: nat)
    ensures
        count_y(p, a, b, x, yb) <= yb,
    decreases yb,
{
    if yb > 0 {
        lemma_count_y_bound(p, a, b, x, (yb - 1) as nat);
    }
}

/// At most `xb * p` affine points exist below the bounds.
proof fn lemma_count_points_bound(p: int, a: int, b: int, xb: nat)
    requires
        p >= 0,
    ensures
        count_points(p, a, b, xb) <= xb * p,
    decreases xb,
{
    if xb > 0 {
        lemma_count_points_bound(p, a, b, (xb - 1) as nat);
        lemma_count_y_bound(p, a, b, xb - 1, p as nat);
        assert((xb - 1) * p + p == xb * p) by (nonlinear_arith);
    }
}

impl Agreement {
    /// Builds a session on curve `(p, a, b)` with generator `g`. The order
    /// of `g` is the least `k` in `[1, p)` whose scalar multiple is the
    /// point at infinity (0 when no such `k` exists), and the point count
    /// is the exact number of affine solutions of the curve equation.
    pub fn new(p: i64, a: FiniteBody, b: FiniteBody, g: PointEllipticCurve) -> (r: Agreement)
        requires
            1 <= p <= MAX_MODULUS,
            a.wf(),
            b.wf(),
            a.p == p,
            b.p == p,
            g.wf(),
            forall|k: nat| 1 <= k < p ==> (#[trigger] g.spec_scalar_mul(k)) is Some,
        ensures
            r.p == p,
            r.a == a,
            r.b == b,
            r.g == g,
            r.order_g == 0 ==> forall|k: nat|
                1 <= k < p ==> g.spec_scalar_mul(k) != Some(
                    PointEllipticCurve::spec_inf(a, b),
                ),
            r.order_g != 0 ==> {
                &&& 1 <= r.order_g < p
                &&& g.spec_scalar_mul(r.order_g as nat) == Some(
                    PointEllipticCurve::spec_inf(a, b),
                )
                &&& forall|k: nat|
                    1 <= k < r.order_g ==> g.spec_scalar_mul(k) != Some(
                        PointEllipticCurve::spec_inf(a, b),
                    )
            },
            r.cuantity_points_curve == count_points(
                p as int,
                a.value as int,
                b.value as int,
                p as nat,
            ),
            r.cuantity_points_curve <= p * p,
    {
        let ghost inf_spec = PointEllipticCurve::spec_inf(a, b);
        let inf = PointEllipticCurve::new_inf(a, b);
        let mut order_g: u64 = 0;
        let mut k: i64 = 1;
        while k < p
            invariant_except_break
                1 <= k <= p,
                1 <= p <= MAX_MODULUS,
                g.wf(),
                inf == inf_spec,
                forall|j: nat| 1 <= j < p ==> (#[trigger] g.spec_scalar_mul(j)) is Some,
                order_g == 0,
                forall|j: nat| 1 <= j < k ==> g.spec_scalar_mul(j) != Some(inf_spec),
            ensures
                order_g == 0 ==> forall|j: nat| 1 <= j < p ==> g.spec_scalar_mul(j) != Some(
                    inf_spec,
                ),
                order_g != 0 ==> {
                    &&& 1 <= order_g < p
                    &&& g.spec_scalar_mul(order_g as nat) == Some(inf_spec)
                    &&& forall|j: nat|
                        1 <= j < order_g ==> g.spec_scalar_mul(j) != Some(inf_spec)
                },
            decreases p - k,
        {
            let res = g.scalar_mul(k as u64);
            if res == inf {
                order_g = k as u64;
                break ;
            }
            k = k + 1;
        }
        let ghost av = a.value as int;
        let ghost bv = b.value as int;
        let ghost pi = p as int;
        let mut cuantity_points_curve: u64 = 0;
        let mut x: i64 = 0;
        while x < p
            invariant
                0 <= x <= p,
                1 <= p <= MAX_MODULUS,
                a.wf(),
                b.wf(),
                a.p == p,
                b.p == p,
                av == a.value as int,
                bv == b.value as int,
                pi == p as int,
                cuantity_points_curve == count_points(pi, av, bv, x as nat),
            decreases p - x,
        {
            let x_val = FiniteBody::new(p, x);
            let y_squared = x_val.pow(3).add(a.mul(x_val)).add(b);
            proof {
                vstd::arithmetic::div_mod::lemma_small_mod(x as nat, p as nat);
                crate::point_elliptic_curve::lemma_curve_eq_chain(pi, av, bv, x as int, 0);
            }
            let mut y: i64 = 0;
            while y < p
                invariant
                    0 <= y <= p,
                    0 <= x < p,
                    1 <= p <= MAX_MODULUS,
                    a.wf(),
                    b.wf(),
                    a.p == p,
                    b.p == p,
                    av == a.value as int,
                    bv == b.value as int,
                    pi == p as int,
                    x_val.wf(),
                    x_val.p == p,
                    x_val.value == x,
                    y_squared.wf(),
                    y_squared.p == p,
                    y_squared.value == (x * x * x + av * x + bv) % pi,
                    cuantity_points_curve == count_points(pi, av, bv, x as nat) + count_y(
                        pi,
                        av,
                        bv,
                        x as int,
                        y as nat,
                    ),
                decreases p - y,
            {
                proof {
                    lemma_count_points_bound(pi, av, bv, x as nat);
                    lemma_count_y_bound(pi, av, bv, x as int, y as nat);
                    assert(x * pi + y < pi * pi <= MAX_MODULUS * MAX_MODULUS)
                        by (nonlinear_arith)
                        requires
                            0 <= x < pi,
                            0 <= y < pi,
                            1 <= pi <= MAX_MODULUS,
                    ;
                }
                let y_val = FiniteBody::new(p, y);
                proof {
                    vstd::arithmetic::div_mod::lemma_small_mod(y as nat, p as nat);
                    crate::point_elliptic_curve::lemma_curve_eq_chain(pi, av, bv, x as int, y as int);
                }
                if y_squared == y_val.pow(2) {
                    cuantity_points_curve = cuantity_points_curve + 1;
                }
                y = y + 1;
            }
            x = x + 1;
        }
        proof {
            lemma_count_points_bound(pi, av, bv, p as nat);
            assert(pi * pi <= MAX_MODULUS * MAX_MODULUS) by (nonlinear_arith)
                requires
                    1 <= pi <= MAX_MODULUS,
            ;
        }
        Agreement { p, a, b, g, order_g, cuantity_points_curve }
    }

    /// The order of the generator, as computed at construction (0 when the
    /// search found no multiple reaching infinity).
    pub fn order_g(&self) -> (r: u64)
        ensures
            r == self.order_g,
    {
        self.order_g
    }

    /// The total number of curve points: the affine count plus the point at
    /// infinity.
    pub fn quantity_points_curve(&self) -> (r: u64)
        requires
            self.cuantity_points_curve < u64::MAX,
        ensures
            r == self.cuantity_points_curve + 1,
    {
        self.cuantity_points_curve + 1
    }

    /// The public key for a private scalar: `private_key` times the
    /// generator.
    pub fn generate_public_key(&self, private_key: u64) -> (r: PointEllipticCurve)
        requires
            self.g.wf(),
            self.g.spec_scalar_mul(private_key as nat) is Some,
        ensures
            Some(r) == self.g.spec_scalar_mul(private_key as nat),
            r.wf(),
    {
        self.g.scalar_mul(private_key)
    }

    /// The shared secret: the peer's public key times one's own private
    /// scalar. Both parties derive the same point because scalar
    /// multiplication commutes through the group law.
    pub fn generate_shared_secret(
        &self,
        public_key: PointEllipticCurve,
        private_key: u64,
    ) -> (r: PointEllipticCurve)
        requires
            public_key.wf(),
            public_key.spec_scalar_mul(private_key as nat) is Some,
        ensures
            Some(r) == public_key.spec_scalar_mul(private_key as nat),
            r.wf(),
    {
        public_key.scalar_mul(private_key)
    }
}

} // verus!
