//! Elements of the ring of integers modulo `p`, normalized into `[0, p)`.
//!
//! For prime `p` this is the prime field Z/pZ: every nonzero element has a
//! multiplicative inverse, computed here by Fermat's little theorem
//! (`value^(p-2) mod p`). The type itself only assumes `1 <= p`; operations
//! that rely on primality say so in their contracts.

use vstd::prelude::*;

verus! {

/// A residue modulo `p`, stored in canonical form: `0 <= value < p`.
#[derive(Clone, Copy, Debug, Hash, PartialEq, Eq, Structural)]
pub struct FiniteBody {
    pub p: i64,
    pub value: i64,
}

/// Alternative name under which the same element type is exported.
pub type BodyFinity = FiniteBody;

/// Largest supported modulus: products of two residues stay below `i64::MAX`.
pub const MAX_MODULUS: i64 = 0x8000_0000;

impl FiniteBody {
    /// Well-formed: the modulus is in range and the value is canonical.
    pub open spec fn wf(self) -> bool {
        &&& 1 <= self.p <= MAX_MODULUS
        &&& 0 <= self.value < self.p
    }

    /// Builds the canonical residue of `value` modulo `p`; negative inputs
    /// are normalized into `[0, p)`.
    pub fn new(p: i64, value: i64) -> (r: Self)
        requires
            1 <= p <= MAX_MODULUS,
            value > i64::MIN,
        ensures
            r.wf(),
            r.p == p,
            r.value == value as int % p as int,
    {
        if value >= 0 {
            FiniteBody { p, value: value % p }
        } else {
            let m = (-value) % p;
            let v = if m == 0 {
                0
            } else {
                p - m
            };
            proof {
                lemma_neg_mod(value as int, p as int);
            }
            FiniteBody { p, value: v }
        }
    }

    /// The canonical value of this residue.
    pub fn as_value(&self) -> (r: i64)
        ensures
            r == self.value,
    {
        self.value
    }

    /// True exactly when this element is the additive identity.
    pub fn is_zero(&self) -> (r: bool)
        ensures
            r == (self.value == 0),
    {
        self.value == 0
    }

    /// Compares this element's canonical value against a bare integer.
    /// Comparison helper: only the value is inspected, not the modulus.
    pub fn eq_value(&self, raw: i64) -> (r: bool)
        ensures
            r == (self.value == raw),
    {
        self.value == raw
    }

    /// Modular addition.
    pub fn add(self, other: Self) -> (r: Self)
        requires
            self.wf(),
            other.wf(),
            other.p == self.p,
        ensures
            r.wf(),
            r.p == self.p,
            r.value == (self.value + other.value) % (self.p as int),
    {
        Self::new(self.p, self.value + other.value)
    }

    /// Modular additive inverse: the element that sums with `self` to zero.
    pub fn neg(self) -> (r: Self)
        requires
            self.wf(),
        ensures
            r.wf(),
            r.p == self.p,
            r.value == (self.p - self.value) % (self.p as int),
            (self.value + r.value) % (self.p as int) == 0,
    {
        let r = Self::new(self.p, self.p - self.value);
        proof {
            let p = self.p as int;
            let v = self.value as int;
            if v == 0 {
                assert((p - v) % p == 0) by {
                    vstd::arithmetic::div_mod::lemma_mod_self_0(p);
                }
            } else {
                vstd::arithmetic::div_mod::lemma_small_mod((p - v) as nat, p as nat);
            }
            assert((v + (p - v) % p) % p == 0) by {
                vstd::arithmetic::div_mod::lemma_mod_self_0(p);
                vstd::arithmetic::div_mod::lemma_small_mod(0nat, p as nat);
            }
        }
        r
    }

    /// Modular subtraction, computed as addition of the inverse.
    pub fn sub(self, other: Self) -> (r: Self)
        requires
            self.wf(),
            other.wf(),
            other.p == self.p,
        ensures
            r.wf(),
            r.p == self.p,
            r.value == (self.value - other.value) % (self.p as int),
    {
        let r = self.add(other.neg());
        proof {
            let p = self.p as int;
            let v1 = self.value as int;
            let v2 = other.value as int;
            assert((v1 + (p - v2) % p) % p == (v1 - v2) % p) by {
                vstd::arithmetic::div_mod::lemma_add_mod_noop_right(v1, p - v2, p);
                vstd::arithmetic::div_mod::lemma_mod_add_multiples_vanish(v1 - v2, p);
            }
        }
        r
    }

    /// Modular multiplication.
    pub fn mul(self, other: Self) -> (r: Self)
        requires
            self.wf(),
            other.wf(),
            other.p == self.p,
        ensures
            r.wf(),
            r.p == self.p,
            r.value == (self.value * other.value) % (self.p as int),
    {
        proof {
            assert(0 <= self.value * other.value <= (MAX_MODULUS - 1) * (MAX_MODULUS - 1))
                by (nonlinear_arith)
                requires
                    0 <= self.value < MAX_MODULUS,
                    0 <= other.value < MAX_MODULUS,
            ;
        }
        Self::new(self.p, self.value * other.value)
    }

    /// The value scaled by a bare integer scalar and reduced: `|k|` repeated
    /// additions of `self`, negated at the end when the scalar is negative.
    pub fn scalar_mul(self, k: i64) -> (r: Self)
        requires
            self.wf(),
            k > i64::MIN,
        ensures
            r.wf(),
            r.p == self.p,
            r.value == (self.value * k) % (self.p as int),
    {
        let n: i64 = if k < 0 {
            -k
        } else {
            k
        };
        let mut result = Self::new(self.p, 0);
        let mut i: i64 = 0;
        proof {
            assert(self.value * 0 == 0);
            vstd::arithmetic::div_mod::lemma_small_mod(0nat, self.p as nat);
        }
        while i < n
            invariant
                self.wf(),
                0 <= i <= n,
                result.wf(),
                result.p == self.p,
                result.value == (self.value * i) % (self.p as int),
            decreases n - i,
        {
            result = result.add(self);
            proof {
                let p = self.p as int;
                let v = self.value as int;
                assert(((v * i) % p + v) % p == (v * (i + 1)) % p) by {
                    vstd::arithmetic::div_mod::lemma_add_mod_noop(v * i, v, p);
                    vstd::arithmetic::div_mod::lemma_small_mod(v as nat, p as nat);
                    assert(v * i + v == v * (i + 1)) by (nonlinear_arith);
                }
            }
            i = i + 1;
        }
        if k < 0 {
            result = result.neg();
            proof {
                let p = self.p as int;
                let v = self.value as int;
                let m = (v * n) % p;
                assert(v * k == -(v * n)) by (nonlinear_arith)
                    requires
                        n == -k,
                ;
                if v * n == 0 {
                    vstd::arithmetic::div_mod::lemma_small_mod(0nat, p as nat);
                    assert((p - m) % p == 0) by {
                        vstd::arithmetic::div_mod::lemma_mod_self_0(p);
                    }
                } else {
                    assert(v * n > 0) by (nonlinear_arith)
                        requires
                            v >= 0,
                            n >= 0,
                            v * n != 0,
                    ;
                    lemma_neg_mod(-(v * n), p);
                    if m != 0 {
                        vstd::arithmetic::div_mod::lemma_small_mod((p - m) as nat, p as nat);
                    } else {
                        vstd::arithmetic::div_mod::lemma_mod_self_0(p);
                    }
                }
            }
        }
        result
    }

    /// The value raised to the power `e` and reduced modulo `p`, by
    /// square-and-multiply.
    pub fn pow(self, e: u64) -> (r: Self)
        requires
            self.wf(),
        ensures
            r.wf(),
            r.p == self.p,
            r.value == pow_val(self.p as int, self.value as int, e as nat),
    {
        let v = pow_mod(self.p, self.value, e);
        FiniteBody { p: self.p, value: v }
    }

    /// Multiplicative inverse by Fermat's little theorem: `value^(p-2) mod p`.
    /// Correct for prime moduli; for composite `p` the result is whatever the
    /// power computes. Returns nothing exactly when that power collapses to
    /// zero (for prime `p >= 3`, exactly on the zero element).
    pub fn inverse(&self) -> (r: Option<Self>)
        requires
            self.wf(),
        ensures
            match r {
                Some(inv) => {
                    &&& inv.wf()
                    &&& inv.p == self.p
                    &&& inv.value == inv_val(self.p as int, self.value as int)
                    &&& inv.value != 0
                },
                None => inv_val(self.p as int, self.value as int) == 0,
            },
    {
        let e: u64 = if self.p >= 2 {
            (self.p - 2) as u64
        } else {
            0
        };
        let acum = pow_mod(self.p, self.value, e);
        if acum == 0 {
            None
        } else {
            Some(FiniteBody { p: self.p, value: acum })
        }
    }

    /// Runs the extended Euclidean algorithm on `(a, b)`: returns the
    /// greatest common divisor together with a Bezout coefficient `x`
    /// such that `a*x` is congruent to the gcd modulo `b`.
    pub fn extended_euclidean_algorithm(a: i64, b: i64) -> (res: (i64, i64))
        requires
            0 <= a <= MAX_MODULUS,
            1 <= b <= MAX_MODULUS,
        ensures
            res.0 == gcd(a as nat, b as nat),
            -(b as int) <= res.1 <= b as int,
            (a * res.1) % (b as int) == (res.0 as int) % (b as int),
            exists|t: int| a * res.1 + #[trigger] (b * t) == res.0,
    {
        let ghost ai = a as int;
        let ghost bi = b as int;
        let mut s: i64 = 0;
        let mut old_s: i64 = 1;
        let mut r: i64 = b;
        let mut old_r: i64 = a;
        let ghost mut t: int = 1int;
        let ghost mut old_t: int = 0int;
        while r != 0
            invariant
                1 <= bi <= MAX_MODULUS,
                0 <= ai <= MAX_MODULUS,
                0 <= r <= MAX_MODULUS,
                0 <= old_r <= MAX_MODULUS,
                gcd(old_r as nat, r as nat) == gcd(ai as nat, bi as nat),
                old_r == ai * old_s + bi * old_t,
                r == ai * s + bi * t,
                old_r * s - r * old_s == bi || old_r * s - r * old_s == -bi,
                -bi <= s <= bi,
                -bi <= old_s <= bi,
            decreases r,
        {
            let ghost ri = r as int;
            let ghost ori = old_r as int;
            let ghost si = s as int;
            let ghost osi = old_s as int;
            let quotient = old_r / r;
            let ghost qi = quotient as int;
            proof {
                assert(qi == ori / ri);
                vstd::arithmetic::div_mod::lemma_fundamental_div_mod(ori, ri);
                vstd::arithmetic::div_mod::lemma_mod_division_less_than_divisor(ori, ri);
                assert(ori == qi * ri + ori % ri) by {
                    assert(ri * (ori / ri) == (ori / ri) * ri);
                }
                assert(0 <= qi <= ori) by (nonlinear_arith)
                    requires
                        1 <= ri,
                        0 <= ori,
                        ori == qi * ri + ori % ri,
                        0 <= ori % ri < ri,
                ;
                lemma_mul_magnitude(qi, si);
            }
            let new_r = old_r - quotient * r;
            let new_s = old_s - quotient * s;
            proof {
                let nri = new_r as int;
                let nsi = new_s as int;
                assert(nri == ori % ri);
                // The determinant of the coefficient pair flips sign each step,
                // which bounds the new Bezout coefficient by `b`.
                assert(ri * nsi - nri * si == -(ori * si - ri * osi)) by (nonlinear_arith)
                    requires
                        nri == ori - qi * ri,
                        nsi == osi - qi * si,
                ;
                assert(-bi <= nsi <= bi) by (nonlinear_arith)
                    requires
                        1 <= ri,
                        0 <= nri < ri,
                        ri * nsi - nri * si == bi || ri * nsi - nri * si == -bi,
                        -bi <= si <= bi,
                        1 <= bi,
                ;
                // Bezout form is preserved by the update: distribute the
                // quotient over both linear combinations.
                assert(qi * (ai * si + bi * t) == ai * (qi * si) + bi * (qi * t))
                    by (nonlinear_arith);
                assert(ai * (osi - qi * si) == ai * osi - ai * (qi * si)) by (nonlinear_arith);
                assert(bi * (old_t - qi * t) == bi * old_t - bi * (qi * t)) by (nonlinear_arith);
                assert(nri == ai * nsi + bi * (old_t - qi * t));
                assert(gcd(ori as nat, ri as nat) == gcd(ri as nat, nri as nat));
            }
            old_r = r;
            r = new_r;
            old_s = s;
            s = new_s;
            proof {
                let keep = t;
                t = old_t - qi * keep;
                old_t = keep;
            }
        }
        proof {
            assert(gcd(old_r as nat, 0nat) == old_r as nat);
            assert((ai * old_s) % bi == (old_r as int) % bi) by {
                assert(ai * old_s == bi * (-old_t) + old_r) by (nonlinear_arith)
                    requires
                        old_r == ai * old_s + bi * old_t,
                ;
                vstd::arithmetic::div_mod::lemma_mod_multiples_vanish(-old_t, old_r as int, bi);
            }
            assert(ai * (old_s as int) + bi * old_t == old_r as int);
        }
        (old_r, old_s)
    }

    /// Computes the inverse of `a` modulo `p` with the extended Euclidean
    /// algorithm: a value exists exactly when `a` and `p` are coprime, and
    /// the returned residue multiplies with `a` to 1 modulo `p`.
    pub fn mod_inverse(a: i64, p: i64) -> (r: Option<i64>)
        requires
            0 <= a <= MAX_MODULUS,
            1 <= p <= MAX_MODULUS,
        ensures
            match r {
                Some(inv) => {
                    &&& gcd(a as nat, p as nat) == 1
                    &&& 0 <= inv < p
                    &&& (a * inv) % (p as int) == 1int % (p as int)
                },
                None => gcd(a as nat, p as nat) != 1,
            },
    {
        let (g, x) = Self::extended_euclidean_algorithm(a, p);
        if g == 1 {
            let inv = Self::new(p, x);
            proof {
                vstd::arithmetic::div_mod::lemma_mul_mod_noop_right(a as int, x as int, p as int);
            }
            Some(inv.value)
        } else {
            None
        }
    }

    /// Modular division: multiplication by the Fermat inverse of `other`.
    /// The divisor must be nonzero and actually invertible under the Fermat
    /// power; on other divisors the division has no defined result.
    pub fn div(self, other: Self) -> (r: Self)
        requires
            self.wf(),
            other.wf(),
            other.p == self.p,
            other.value != 0,
            inv_val(self.p as int, other.value as int) != 0,
        ensures
            r.wf(),
            r.p == self.p,
            r.value == (self.value * inv_val(self.p as int, other.value as int)) % (
            self.p as int),
    {
        let inv = other.inverse();
        self.mul(inv.unwrap())
    }
}

/// The greatest common divisor, by Euclid's algorithm.
pub open spec fn gcd(a: nat, b: nat) -> nat
    decreases b,
{
    if b == 0 {
        a
    } else {
        gcd(b, a % b)
    }
}

/// A product of a factor bounded by `MAX_MODULUS` and a factor bounded by it
/// in magnitude stays within `i64`.
proof fn lemma_mul_magnitude(q: int, s: int)
    requires
        0 <= q <= MAX_MODULUS,
        -MAX_MODULUS <= s <= MAX_MODULUS,
    ensures
        -(MAX_MODULUS as int * MAX_MODULUS as int) <= q * s <= MAX_MODULUS as int
            * MAX_MODULUS as int,
{
    assert(-(MAX_MODULUS as int * MAX_MODULUS as int) <= q * s <= MAX_MODULUS as int
        * MAX_MODULUS as int) by (nonlinear_arith)
        requires
            0 <= q <= MAX_MODULUS,
            -MAX_MODULUS <= s <= MAX_MODULUS,
    ;
}

/// Law: every residue has an additive inverse. Adding the residue of `p - v`
/// to `v` normalizes to the zero element.
pub proof fn lemma_add_additive_inverse(p: int, v: int)
    requires
        1 <= p,
        0 <= v < p,
    ensures
        (v + (p - v) % p) % p == 0,
{
    if v == 0 {
        vstd::arithmetic::div_mod::lemma_mod_self_0(p);
        vstd::arithmetic::div_mod::lemma_small_mod(0nat, p as nat);
    } else {
        vstd::arithmetic::div_mod::lemma_small_mod((p - v) as nat, p as nat);
        vstd::arithmetic::div_mod::lemma_mod_self_0(p);
    }
}

/// `d` divides `x`.
pub open spec fn divides(d: int, x: int) -> bool {
    exists|q: int| x == #[trigger] (d * q)
}

/// A prime: at least 2, with no divisor strictly between 1 and itself.
pub open spec fn is_prime(p: int) -> bool {
    p >= 2 && forall|d: int| 2 <= d < p ==> #[trigger] (p % d) != 0
}

/// The greatest common divisor divides both arguments and is positive when
/// either argument is.
proof fn lemma_gcd_divides(a: nat, b: nat)
    ensures
        divides(gcd(a, b) as int, a as int),
        divides(gcd(a, b) as int, b as int),
        a > 0 || b > 0 ==> gcd(a, b) >= 1,
    decreases b,
{
    if b == 0 {
        assert(a as int == (gcd(a, b) as int) * 1);
        assert(0int == (gcd(a, b) as int) * 0);
    } else {
        lemma_gcd_divides(b, a % b);
        let g = gcd(b, a % b) as int;
        let q1 = choose|q: int| (b as int) == #[trigger] (g * q);
        let q2 = choose|q: int| ((a % b) as int) == #[trigger] (g * q);
        vstd::arithmetic::div_mod::lemma_fundamental_div_mod(a as int, b as int);
        let d = a as int / b as int;
        assert(a as int == g * (q1 * d + q2)) by (nonlinear_arith)
            requires
                b as int == g * q1,
                (a % b) as int == g * q2,
                a as int == (b as int) * d + (a % b) as int,
        ;
    }
}

/// Bezout coefficients for a pair of naturals: ghost witnesses `(s, t)`
/// with `s*a + t*b == gcd(a, b)`.
pub(crate) proof fn lemma_bezout(a: nat, b: nat) -> (r: (int, int))
    ensures
        r.0 * a + r.1 * b == gcd(a, b),
    decreases b,
{
    if b == 0 {
        assert(1 * (a as int) + 0 * (b as int) == a);
        (1int, 0int)
    } else {
        let (s, t) = lemma_bezout(b, a % b);
        let q = a as int / b as int;
        assert((a % b) as int == a as int - q * (b as int)) by {
            vstd::arithmetic::div_mod::lemma_fundamental_div_mod(a as int, b as int);
            assert((b as int) * q == q * (b as int)) by (nonlinear_arith);
        }
        assert(t * (a as int) + (s - t * q) * (b as int) == s * (b as int) + t * ((a % b) as int))
            by (nonlinear_arith)
            requires
                (a % b) as int == a as int - q * (b as int),
        ;
        (t, s - t * q)
    }
}

/// Euclid's lemma, in the form used here: if `v` is coprime to `p` and `p`
/// divides `v*w`, then `p` divides `w`.
pub(crate) proof fn lemma_euclid(p: nat, v: nat, w: int)
    requires
        p >= 1,
        gcd(v, p) == 1,
        (v * w) % (p as int) == 0,
    ensures
        w % (p as int) == 0,
{
    let (s, t) = lemma_bezout(v, p);
    let pi = p as int;
    let vw = (v as int) * w;
    vstd::arithmetic::div_mod::lemma_fundamental_div_mod(vw, pi);
    let q = vw / pi;
    assert(w == pi * (s * q + t * w)) by (nonlinear_arith)
        requires
            s * (v as int) + t * pi == 1,
            vw == (v as int) * w,
            vw == pi * q,
    ;
    vstd::arithmetic::div_mod::lemma_mod_multiples_basic(s * q + t * w, pi);
}

/// A positive residue below a prime is coprime to it.
pub(crate) proof fn lemma_prime_coprime(p: nat, v: nat)
    requires
        is_prime(p as int),
        1 <= v < p,
    ensures
        gcd(v, p) == 1,
{
    lemma_gcd_divides(v, p);
    let g = gcd(v, p) as int;
    let q1 = choose|q: int| (v as int) == #[trigger] (g * q);
    if g >= 2 {
        assert(g <= v) by (nonlinear_arith)
            requires
                v as int == g * q1,
                v >= 1,
                g >= 1,
        ;
        let q2 = choose|q: int| (p as int) == #[trigger] (g * q);
        assert((p as int) % g == 0) by {
            vstd::arithmetic::div_mod::lemma_mod_multiples_basic(q2, g);
            assert(g * q2 == q2 * g) by (nonlinear_arith);
        }
        assert(false);
    }
}

/// No power of a nonzero residue vanishes modulo a prime.
pub(crate) proof fn lemma_pow_mod_nonzero(p: nat, v: nat, e: nat)
    requires
        is_prime(p as int),
        1 <= v < p,
    ensures
        vstd::arithmetic::power::pow(v as int, e) % (p as int) != 0,
    decreases e,
{
    let pi = p as int;
    let vi = v as int;
    if e == 0 {
        vstd::arithmetic::power::lemma_pow0(vi);
        vstd::arithmetic::div_mod::lemma_small_mod(1nat, p);
    } else {
        lemma_pow_mod_nonzero(p, v, (e - 1) as nat);
        let w = vstd::arithmetic::power::pow(vi, (e - 1) as nat);
        assert(vstd::arithmetic::power::pow(vi, e) == vi * w) by {
            vstd::arithmetic::power::lemma_pow_adds(vi, 1, (e - 1) as nat);
            vstd::arithmetic::power::lemma_pow1(vi);
        }
        if (vi * w) % pi == 0 {
            lemma_prime_coprime(p, v);
            lemma_euclid(p, v, w);
            assert(false);
        }
    }
}

/// Law (inverse existence): over a prime field with at least 3 elements,
/// the Fermat inversion yields a value exactly on the nonzero elements, so
/// `inverse` returns a value if and only if the element is not zero.
pub proof fn lemma_inverse_exists_iff_nonzero(p: int, v: int)
    requires
        is_prime(p),
        3 <= p,
        0 <= v < p,
    ensures
        inv_val(p, v) != 0 <==> v != 0,
{
    if v == 0 {
        lemma_zero_has_no_inverse(p);
    } else {
        lemma_pow_mod_nonzero(p as nat, v as nat, fermat_exp(p));
    }
}

/// Law (one direction): the zero element has no Fermat inverse for any
/// modulus of at least 3, so `inverse` returns nothing on it.
pub proof fn lemma_zero_has_no_inverse(p: int)
    requires
        3 <= p,
    ensures
        inv_val(p, 0) == 0,
{
    vstd::arithmetic::power::lemma0_pow(fermat_exp(p));
    vstd::arithmetic::div_mod::lemma_small_mod(0nat, p as nat);
}

/// The exponent used by Fermat inversion: `p - 2`, clamped at zero for the
/// degenerate moduli 1 and 2.
pub open spec fn fermat_exp(p: int) -> nat {
    if p >= 2 {
        (p - 2) as nat
    } else {
        0
    }
}

/// The value `v^e mod p`.
pub open spec fn pow_val(p: int, v: int, e: nat) -> int {
    vstd::arithmetic::power::pow(v, e) % p
}

/// The candidate inverse that Fermat inversion computes: `v^(p-2) mod p`.
pub open spec fn inv_val(p: int, v: int) -> int {
    pow_val(p, v, fermat_exp(p))
}

/// Computes `v^e mod p` by binary exponentiation, reducing after every
/// multiplication so intermediate products stay within `i64`.
fn pow_mod(p: i64, v: i64, e: u64) -> (r: i64)
    requires
        1 <= p <= MAX_MODULUS,
        0 <= v < p,
    ensures
        0 <= r < p,
        r == pow_val(p as int, v as int, e as nat),
{
    let mut result: i64 = 1 % p;
    let mut base: i64 = v;
    let mut exp: u64 = e;
    proof {
        let w = vstd::arithmetic::power::pow(v as int, e as nat);
        vstd::arithmetic::div_mod::lemma_mul_mod_noop_left(1, w, p as int);
        assert(1 * w == w);
    }
    while exp > 0
        invariant
            1 <= p <= MAX_MODULUS,
            0 <= result < p,
            0 <= base < p,
            (result * vstd::arithmetic::power::pow(base as int, exp as nat)) % (p as int)
                == pow_val(p as int, v as int, e as nat),
        decreases exp,
    {
        let ghost pi = p as int;
        let ghost r0 = result as int;
        let ghost b0 = base as int;
        let ghost e0 = exp as nat;
        proof {
            lemma_mul_bound(result as int, base as int, p as int);
            lemma_mul_bound(base as int, base as int, p as int);
        }
        if exp % 2 == 1 {
            result = (result * base) % p;
        }
        base = (base * base) % p;
        exp = exp / 2;
        proof {
            lemma_pow_mod_step(pi, r0, b0, e0);
        }
    }
    proof {
        vstd::arithmetic::power::lemma_pow0(base as int);
        vstd::arithmetic::div_mod::lemma_small_mod(result as nat, p as nat);
    }
    result
}

/// Products of two residues below `MAX_MODULUS` stay within `i64`.
proof fn lemma_mul_bound(x: int, y: int, p: int)
    requires
        1 <= p <= MAX_MODULUS,
        0 <= x < p,
        0 <= y < p,
    ensures
        0 <= x * y <= (MAX_MODULUS - 1) * (MAX_MODULUS - 1),
{
    assert(0 <= x * y <= (MAX_MODULUS - 1) * (MAX_MODULUS - 1)) by (nonlinear_arith)
        requires
            0 <= x < MAX_MODULUS,
            0 <= y < MAX_MODULUS,
    ;
}

/// One step of binary exponentiation preserves `result * base^exp mod p`.
proof fn lemma_pow_mod_step(p: int, r0: int, b0: int, e0: nat)
    requires
        p >= 1,
        e0 > 0,
    ensures
        e0 % 2 == 1 ==> (((r0 * b0) % p) * vstd::arithmetic::power::pow((b0 * b0) % p, e0 / 2))
            % p == (r0 * vstd::arithmetic::power::pow(b0, e0)) % p,
        e0 % 2 == 0 ==> (r0 * vstd::arithmetic::power::pow((b0 * b0) % p, e0 / 2)) % p == (r0
            * vstd::arithmetic::power::pow(b0, e0)) % p,
{
    let h = e0 / 2;
    let sq = vstd::arithmetic::power::pow((b0 * b0) % p, h);
    let w = vstd::arithmetic::power::pow(b0, 2 * h);
    assert(sq % p == w % p) by {
        vstd::arithmetic::power::lemma_pow_mod_noop(b0 * b0, h, p);
        vstd::arithmetic::power::lemma_square_is_pow2(b0);
        vstd::arithmetic::power::lemma_pow_multiplies(b0, 2, h);
    }
    if e0 % 2 == 1 {
        let a1 = (r0 * b0) % p;
        assert((a1 * sq) % p == (a1 * w) % p) by {
            vstd::arithmetic::div_mod::lemma_mul_mod_noop_right(a1, sq, p);
            vstd::arithmetic::div_mod::lemma_mul_mod_noop_right(a1, w, p);
        }
        assert((a1 * w) % p == ((r0 * b0) * w) % p) by {
            vstd::arithmetic::div_mod::lemma_mul_mod_noop_left(r0 * b0, w, p);
        }
        assert(e0 == 2 * h + 1);
        assert(vstd::arithmetic::power::pow(b0, e0) == b0 * w) by {
            vstd::arithmetic::power::lemma_pow_adds(b0, 1, 2 * h);
            vstd::arithmetic::power::lemma_pow1(b0);
        }
        assert((r0 * b0) * w == r0 * (b0 * w)) by (nonlinear_arith);
    } else {
        assert((r0 * sq) % p == (r0 * w) % p) by {
            vstd::arithmetic::div_mod::lemma_mul_mod_noop_right(r0, sq, p);
            vstd::arithmetic::div_mod::lemma_mul_mod_noop_right(r0, w, p);
        }
        assert(e0 == 2 * h);
    }
}

/// For negative `x` and positive `p`, the Euclidean remainder `x % p` is
/// `0` when `p` divides `x` and `p - ((-x) % p)` otherwise.
pub proof fn lemma_neg_mod(x: int, p: int)
    requires
        x < 0,
        p >= 1,
    ensures
        (-x) % p == 0 ==> x % p == 0,
        (-x) % p != 0 ==> x % p == p - ((-x) % p),
{
    let q = (-x) / p;
    let m = (-x) % p;
    vstd::arithmetic::div_mod::lemma_fundamental_div_mod(-x, p);
    if m == 0 {
        assert(x == (-q) * p + 0) by (nonlinear_arith)
            requires
                -x == q * p,
        ;
        vstd::arithmetic::div_mod::lemma_fundamental_div_mod_converse_mod(x, p, -q, 0);
    } else {
        assert(x == (-q - 1) * p + (p - m)) by (nonlinear_arith)
            requires
                -x == q * p + m,
        ;
        vstd::arithmetic::div_mod::lemma_fundamental_div_mod_converse_mod(x, p, -q - 1, p - m);
    }
}

} // verus!
