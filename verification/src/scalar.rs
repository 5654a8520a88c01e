//! Elements of a prime field `Z_m`, the plain-value domain of the gadgets.
//!
//! A `Scalar` carries its residue together with the modulus of the field it
//! lives in, so every operation can state over which field it works.  All
//! operations keep the residue reduced below the modulus.

use vstd::prelude::*;
#[allow(unused_imports)]
use vstd::arithmetic::div_mod::*;
#[allow(unused_imports)]
use vstd::arithmetic::mul::*;

verus! {

/// Greatest common divisor by the Euclidean recursion.
pub open spec fn euclid_gcd(a: nat, b: nat) -> nat
    decreases b,
{
    if b == 0 {
        a
    } else {
        euclid_gcd(b, a % b)
    }
}

/// Residue `a + b` in `Z_m`.
pub open spec fn fadd(a: int, b: int, m: int) -> int {
    (a + b) % m
}

/// Residue `a - b` in `Z_m`, for `b` already reduced below `m`.
pub open spec fn fsub(a: int, b: int, m: int) -> int {
    (a + (m - b)) % m
}

/// Residue `-a` in `Z_m`, for `a` already reduced below `m`.
pub open spec fn fneg(a: int, m: int) -> int {
    (m - a) % m
}

/// Residue `a * b` in `Z_m`.
pub open spec fn fmul(a: int, b: int, m: int) -> int {
    (a * b) % m
}

/// A modulus with no divisor strictly between `1` and itself.
pub open spec fn is_prime(p: nat) -> bool {
    2 <= p && forall|k: nat| 1 < k < p ==> #[trigger] (p % k) != 0
}

/// `s` inverts `n` modulo `p`.
pub open spec fn is_inverse_mod(n: int, s: int, p: int) -> bool {
    &&& 0 <= s < p
    &&& (n * s) % p == 1
}

/// `x` and `y` combine `a` and `b` into their greatest common divisor.
pub open spec fn bezout_pair(a: nat, b: nat, x: int, y: int) -> bool {
    a * x + b * y == euclid_gcd(a, b)
}

/// The greatest common divisor is positive and divides both arguments.
pub proof fn lemma_gcd_divides(a: nat, b: nat)
    requires
        a > 0,
    ensures
        euclid_gcd(a, b) > 0,
        a % euclid_gcd(a, b) == 0,
        b % euclid_gcd(a, b) == 0,
    decreases b,
{
    let g = euclid_gcd(a, b);
    if b == 0 {
        lemma_mod_self_0(a as int);
        lemma_small_mod(0nat, a);
    } else {
        lemma_mod_bound(a as int, b as int);
        lemma_gcd_divides(b, a % b);
        lemma_fundamental_div_mod(a as int, b as int);
        lemma_mul_mod_noop_left(b as int, a as int / b as int, g as int);
        assert((0 * (a as int / b as int)) % g as int == 0) by {
            lemma_small_mod(0nat, g);
        }
        lemma_add_mod_noop(b as int * (a as int / b as int), (a % b) as int, g as int);
        lemma_small_mod(0nat, g);
    }
}

/// A positive divisor of a positive number is no larger than it.
pub proof fn lemma_divisor_bound(d: nat, x: nat)
    requires
        d > 0,
        x > 0,
        x % d == 0,
    ensures
        d <= x,
{
    lemma_fundamental_div_mod(x as int, d as int);
    let q = x as int / d as int;
    if q <= 0 {
        assert(d as int * q <= 0) by (nonlinear_arith)
            requires
                d as int > 0,
                q <= 0,
        ;
        assert(false);
    }
    lemma_mul_inequality(1, q, d as int);
    lemma_mul_is_commutative(q, d as int);
}

/// In a prime field every residue other than zero is coprime with the
/// modulus: that is what makes it a field.
pub proof fn lemma_prime_coprime(p: nat, n: nat)
    requires
        is_prime(p),
        0 < n < p,
    ensures
        euclid_gcd(p, n) == 1,
{
    let g = euclid_gcd(p, n);
    lemma_gcd_divides(p, n);
    lemma_divisor_bound(g, n);
    if g > 1 {
        assert(p % g == 0);
        assert(false);
    }
}

/// The Euclidean recursion yields Bezout coefficients.
pub proof fn lemma_bezout(a: nat, b: nat)
    ensures
        exists|x: int, y: int| #[trigger] bezout_pair(a, b, x, y),
    decreases b,
{
    if b == 0 {
        assert(bezout_pair(a, b, 1, 0)) by {
            assert(a * 1 == a) by (nonlinear_arith);
            assert(b * 0 == 0) by (nonlinear_arith);
        }
    } else {
        lemma_mod_bound(a as int, b as int);
        lemma_bezout(b, a % b);
        let (x, y) = choose|x: int, y: int| #[trigger] bezout_pair(b, a % b, x, y);
        lemma_fundamental_div_mod(a as int, b as int);
        let q = a as int / b as int;
        assert(b * x + (a - b * q) * y == a * y + b * (x - q * y)) by (nonlinear_arith);
        assert(bezout_pair(a, b, y, x - q * y));
    }
}

/// In a prime field every nonzero residue has a multiplicative inverse.
pub proof fn lemma_inverse_exists(p: nat, n: nat)
    requires
        is_prime(p),
        0 < n < p,
    ensures
        exists|s: int| is_inverse_mod(n as int, s, p as int),
{
    lemma_prime_coprime(p, n);
    lemma_bezout(p, n);
    let (x, y) = choose|x: int, y: int| #[trigger] bezout_pair(p, n, x, y);
    let s = y % p as int;
    lemma_mod_bound(y, p as int);
    lemma_mul_mod_noop_right(n as int, y, p as int);
    assert(n as int * y == p as int * (0 - x) + 1) by (nonlinear_arith)
        requires
            p as int * x + n as int * y == 1,
    ;
    lemma_mod_multiples_vanish(0 - x, 1, p as int);
    lemma_small_mod(1nat, p);
    assert(is_inverse_mod(n as int, s, p as int));
}

/// A residue has at most one multiplicative inverse: whatever `b` inverts,
/// and whatever inverts `b`, are the same residue.
pub proof fn lemma_inverse_unique(a: int, b: int, c: int, m: int)
    requires
        2 <= m,
        0 <= a < m,
        0 <= b < m,
        0 <= c < m,
        (a * b) % m == 1,
        (b * c) % m == 1,
    ensures
        a == c,
{
    lemma_mul_mod_noop_right(a, b * c, m);
    lemma_small_mod(a as nat, m as nat);
    lemma_mul_mod_noop_left(a * b, c, m);
    lemma_small_mod(c as nat, m as nat);
    lemma_mul_is_associative(a, b, c);
}

/// One round of the extended Euclidean algorithm keeps the congruence
/// `n * s == r (mod m)` between each remainder and its Bezout coefficient,
/// with the coefficient reduced modulo `m`.
proof fn lemma_bezout_step(n: int, m: int, r_p: int, r_c: int, s_p: int, s_c: int, q: int)
    requires
        2 <= m,
        0 <= n < m,
        1 <= r_p,
        0 < r_c,
        0 <= s_p < m,
        0 <= s_c < m,
        q == r_p / r_c,
        (n * s_p) % m == r_p % m,
        (n * s_c) % m == r_c % m,
    ensures
        (n * ((s_p + (m - (q * s_c) % m)) % m)) % m == (r_p % r_c) % m,
{
    let qs = (q * s_c) % m;
    let r_n = r_p % r_c;

    // the fresh coefficient keeps the congruence after reduction
    lemma_mul_mod_noop_right(n, s_p + (m - qs), m);
    assert(n * (s_p + (m - qs)) == n * s_p + n * m - n * qs) by (nonlinear_arith);

    // the added multiple of the modulus vanishes
    lemma_mod_multiples_vanish(n, n * s_p - n * qs, m);
    assert(m * n == n * m) by (nonlinear_arith);
    assert((n * s_p + n * m - n * qs) % m == (n * s_p - n * qs) % m);

    // n * qs and q * r_c fall in one residue class
    lemma_mul_mod_noop_right(n, q * s_c, m);
    assert(n * (q * s_c) == q * (n * s_c)) by (nonlinear_arith);
    lemma_mul_mod_noop_right(q, n * s_c, m);
    lemma_mul_mod_noop_right(q, r_c, m);
    assert((n * qs) % m == (q * r_c) % m);

    // subtract the two congruences
    lemma_sub_mod_noop(n * s_p, n * qs, m);
    lemma_sub_mod_noop(r_p, q * r_c, m);
    assert((n * s_p - n * qs) % m == (r_p - q * r_c) % m);

    // the next remainder is exactly r_p - q * r_c
    lemma_fundamental_div_mod(r_p, r_c);
    lemma_mul_is_commutative(q, r_c);
    assert(r_p - q * r_c == r_n);
}

/// An element of `Z_m`: the residue `n`, reduced modulo `m`.
#[derive(Clone, Copy, PartialEq, Eq, Structural, Debug)]
pub struct Scalar {
    pub n: u64,
    pub m: u64,
}

impl Scalar {
    /// The residue is reduced and the modulus admits at least `0` and `1`.
    pub open spec fn valid(self) -> bool {
        2 <= self.m && self.n < self.m
    }

    /// Both elements belong to the same field.
    pub open spec fn same_field(self, other: Scalar) -> bool {
        self.m == other.m
    }

    /// The element of `Z_m` with residue `n % m`.
    pub fn new(n: u64, m: u64) -> (r: Scalar)
        requires
            2 <= m,
        ensures
            r.valid(),
            r.m == m,
            r.n == n as int % m as int,
    {
        Scalar { n: n % m, m }
    }

    /// The additive identity of `Z_m`.
    pub fn zero(m: u64) -> (r: Scalar)
        requires
            2 <= m,
        ensures
            r.valid(),
            r.m == m,
            r.n == 0,
    {
        Scalar { n: 0, m }
    }

    /// The multiplicative identity of `Z_m`.
    pub fn one(m: u64) -> (r: Scalar)
        requires
            2 <= m,
        ensures
            r.valid(),
            r.m == m,
            r.n == 1,
    {
        Scalar { n: 1, m }
    }

    /// Whether this element is the additive identity.
    pub fn is_zero(&self) -> (r: bool)
        ensures
            r <==> self.n == 0,
    {
        self.n == 0
    }

    /// Field addition.
    pub fn add(&self, other: &Scalar) -> (r: Scalar)
        requires
            self.valid(),
            other.valid(),
            self.same_field(*other),
        ensures
            r.valid(),
            r.m == self.m,
            r.n == fadd(self.n as int, other.n as int, self.m as int),
    {
        let wide: u128 = (self.n as u128 + other.n as u128) % (self.m as u128);
        Scalar { n: wide as u64, m: self.m }
    }

    /// Field subtraction.
    pub fn sub(&self, other: &Scalar) -> (r: Scalar)
        requires
            self.valid(),
            other.valid(),
            self.same_field(*other),
        ensures
            r.valid(),
            r.m == self.m,
            r.n == fsub(self.n as int, other.n as int, self.m as int),
    {
        let wide: u128 = (self.n as u128 + (self.m - other.n) as u128) % (self.m as u128);
        Scalar { n: wide as u64, m: self.m }
    }

    /// Field negation.
    pub fn negate(&self) -> (r: Scalar)
        requires
            self.valid(),
        ensures
            r.valid(),
            r.m == self.m,
            r.n == fneg(self.n as int, self.m as int),
    {
        Scalar { n: (self.m - self.n) % self.m, m: self.m }
    }

    /// Field multiplication.
    pub fn mul(&self, other: &Scalar) -> (r: Scalar)
        requires
            self.valid(),
            other.valid(),
            self.same_field(*other),
        ensures
            r.valid(),
            r.m == self.m,
            r.n == fmul(self.n as int, other.n as int, self.m as int),
    {
        proof {
            vstd::arithmetic::mul::lemma_mul_upper_bound(
                self.n as int,
                u64::MAX as int,
                other.n as int,
                u64::MAX as int,
            );
        }
        let wide: u128 = (self.n as u128 * other.n as u128) % (self.m as u128);
        Scalar { n: wide as u64, m: self.m }
    }

    /// Field squaring.
    pub fn square(&self) -> (r: Scalar)
        requires
            self.valid(),
        ensures
            r.valid(),
            r.m == self.m,
            r.n == fmul(self.n as int, self.n as int, self.m as int),
    {
        self.mul(self)
    }

    /// Multiplicative inverse, when one exists.
    ///
    /// The answer comes from the extended Euclidean algorithm, carrying the
    /// Bezout coefficient reduced modulo `m` throughout; the element has an
    /// inverse exactly when it is coprime with the modulus, so in a prime
    /// field exactly when it is nonzero.
    pub fn inverse(&self) -> (r: Option<Scalar>)
        requires
            self.valid(),
        ensures
            match r {
                Some(x) => {
                    &&& x.valid()
                    &&& x.m == self.m
                    &&& fmul(self.n as int, x.n as int, self.m as int) == 1
                    &&& euclid_gcd(self.m as nat, self.n as nat) == 1
                },
                None => euclid_gcd(self.m as nat, self.n as nat) != 1,
            },
            self.n == 0 ==> r is None,
    {
        let m = self.m;
        let mut r_prev: u64 = m;
        let mut r_cur: u64 = self.n;
        let mut s_prev: u64 = 0;
        let mut s_cur: u64 = 1;
        proof {
            lemma_small_mod(self.n as nat, m as nat);
            lemma_small_mod(0nat, m as nat);
            lemma_mod_self_0(m as int);
        }
        while r_cur != 0
            invariant
                2 <= m,
                m == self.m,
                self.n < m,
                1 <= r_prev,
                r_prev <= m,
                r_cur < m,
                s_prev < m,
                s_cur < m,
                euclid_gcd(r_prev as nat, r_cur as nat) == euclid_gcd(
                    m as nat,
                    self.n as nat,
                ),
                (self.n as int * s_prev as int) % (m as int) == r_prev as int % m as int,
                (self.n as int * s_cur as int) % (m as int) == r_cur as int % m as int,
            decreases r_cur,
        {
            let q: u64 = r_prev / r_cur;
            let r_next: u64 = r_prev % r_cur;
            proof {
                lemma_mul_upper_bound(q as int, u64::MAX as int, s_cur as int, u64::MAX as int);
            }
            let qs: u64 = ((q as u128 * s_cur as u128) % (m as u128)) as u64;
            let s_next: u64 = ((s_prev as u128 + (m - qs) as u128) % (m as u128)) as u64;
            proof {
                lemma_bezout_step(
                    self.n as int,
                    m as int,
                    r_prev as int,
                    r_cur as int,
                    s_prev as int,
                    s_cur as int,
                    q as int,
                );
            }
            r_prev = r_cur;
            r_cur = r_next;
            s_prev = s_cur;
            s_cur = s_next;
        }
        if r_prev == 1 {
            proof {
                lemma_small_mod(1nat, m as nat);
                lemma_small_mod(self.n as nat, m as nat);
            }
            Some(Scalar { n: s_prev, m })
        } else {
            proof {
                lemma_small_mod(self.n as nat, m as nat);
            }
            None
        }
    }

    /// Field doubling.
    pub fn double(&self) -> (r: Scalar)
        requires
            self.valid(),
        ensures
            r.valid(),
            r.m == self.m,
            r.n == fadd(self.n as int, self.n as int, self.m as int),
    {
        self.add(self)
    }
}

} // verus!
