//! Plain values of the quadratic extension `Fp2 = Fp[u] / (u^2 - beta)`,
//! and the per-curve parameters of that extension.
//!
//! An element is `c0 + c1 * u` with `u^2 = beta`, the configured
//! nonresidue.  Multiplication therefore has components
//! `c0*d0 + beta*(c1*d1)` and `c0*d1 + c1*d0`; the inverse divides the
//! conjugate by the norm `c0^2 - beta*c1^2`.

use crate::scalar::{euclid_gcd, fmul, fneg, Scalar};
use vstd::prelude::*;
#[allow(unused_imports)]
use vstd::arithmetic::div_mod::*;
#[allow(unused_imports)]
use vstd::arithmetic::mul::*;

verus! {

/// First component of the product of `a0 + a1 u` and `b0 + b1 u`.
pub open spec fn fp2_mul_c0(a0: int, a1: int, b0: int, b1: int, beta: int, m: int) -> int {
    (a0 * b0 + beta * (a1 * b1)) % m
}

/// Second component of the product of `a0 + a1 u` and `b0 + b1 u`.
pub open spec fn fp2_mul_c1(a0: int, a1: int, b0: int, b1: int, m: int) -> int {
    (a0 * b1 + a1 * b0) % m
}

/// The norm of `a0 + a1 u`: the product with its conjugate.
pub open spec fn fp2_norm(a0: int, a1: int, beta: int, m: int) -> int {
    (a0 * a0 - beta * (a1 * a1)) % m
}

/// Multiplying by a residue negated after reduction is congruent to the
/// negated product.
proof fn lemma_mul_of_negated(a: int, y: int, m: int)
    requires
        2 <= m,
    ensures
        (a * ((m - (y % m)) % m)) % m == (0 - a * y) % m,
{
    let yr = y % m;
    lemma_mod_add_multiples_vanish(0 - yr, m);
    lemma_mul_mod_noop_right(a, 0 - yr, m);
    assert(a * (0 - yr) == 0 - a * yr) by (nonlinear_arith);
    lemma_small_mod(0nat, m as nat);
    lemma_sub_mod_noop(0, a * yr, m);
    lemma_mul_mod_noop_right(a, y, m);
    lemma_sub_mod_noop(0, a * y, m);
}

/// The two product components of an element with the conjugate-over-norm
/// formula: the product is exactly `1 + 0 * u`.
proof fn lemma_fp2_inverse_products(a0: int, a1: int, beta: int, m: int, k: int)
    requires
        2 <= m,
        0 <= a0 < m,
        0 <= a1 < m,
        0 <= beta < m,
        0 <= k < m,
        (fp2_norm(a0, a1, beta, m) * k) % m == 1,
    ensures
        fp2_mul_c0(a0, a1, (a0 * k) % m, (m - (a1 * k) % m) % m, beta, m) == 1,
        fp2_mul_c1(a0, a1, (a0 * k) % m, (m - (a1 * k) % m) % m, m) == 0,
{
    let x0 = (a0 * k) % m;
    let x1 = (m - (a1 * k) % m) % m;
    let norm = a0 * a0 - beta * (a1 * a1);

    // the reduced norm in the hypothesis can be unreduced
    lemma_mul_mod_noop_left(norm, k, m);
    assert((norm * k) % m == 1);

    // component 0: a0 * x0 + beta * (a1 * x1)
    lemma_mul_mod_noop_right(a0, a0 * k, m);
    lemma_mul_of_negated(a1, a1 * k, m);
    lemma_mul_mod_noop_right(beta, a1 * x1, m);
    lemma_mul_mod_noop_right(beta, 0 - a1 * (a1 * k), m);
    lemma_add_mod_noop(a0 * x0, beta * (a1 * x1), m);
    lemma_add_mod_noop(a0 * (a0 * k), beta * (0 - a1 * (a1 * k)), m);
    assert(a0 * (a0 * k) + beta * (0 - a1 * (a1 * k)) == (a0 * a0 - beta * (a1 * a1)) * k)
        by (nonlinear_arith);
    assert(fp2_mul_c0(a0, a1, x0, x1, beta, m) == 1);

    // component 1: a0 * x1 + a1 * x0
    lemma_mul_of_negated(a0, a1 * k, m);
    lemma_mul_mod_noop_right(a1, a0 * k, m);
    lemma_add_mod_noop(a0 * x1, a1 * x0, m);
    lemma_add_mod_noop(0 - a0 * (a1 * k), a1 * (a0 * k), m);
    assert((0 - a0 * (a1 * k)) + a1 * (a0 * k) == 0) by (nonlinear_arith);
    lemma_small_mod(0nat, m as nat);
    assert(fp2_mul_c1(a0, a1, x0, x1, m) == 0);
}

/// `x` is the conjugate of `a` divided by its norm: `k` is the inverse of
/// the norm, and the components of `x` are `a.c0 * k` and `-(a.c1 * k)`.
pub open spec fn inverse_witness(a: Fp2, x: Fp2, beta: int, k: int) -> bool {
    &&& 0 <= k < a.c0.m
    &&& fmul(a.norm_spec(beta), k, a.c0.m as int) == 1
    &&& x.c0.n == fmul(a.c0.n as int, k, a.c0.m as int)
    &&& x.c1.n == fneg(fmul(a.c1.n as int, k, a.c0.m as int), a.c0.m as int)
}

/// Per-curve constants of the quadratic extension: the nonresidue `beta`
/// defining `u^2 = beta`, the quadratic nonresidue of the extension itself,
/// and the two Frobenius coefficients, one per parity of the power.
#[derive(Clone, Copy, Debug)]
pub struct Fp2Parameters {
    pub nonresidue: Scalar,
    pub quadratic_nonresidue: (Scalar, Scalar),
    pub frobenius_coeff: [Scalar; 2],
}

impl Fp2Parameters {
    /// The modulus of the base field these constants live in.
    pub open spec fn modulus(&self) -> u64 {
        self.nonresidue.m
    }

    /// All constants are reduced residues of one base field.
    pub open spec fn valid(&self) -> bool {
        &&& self.nonresidue.valid()
        &&& self.quadratic_nonresidue.0.valid()
        &&& self.quadratic_nonresidue.0.m == self.nonresidue.m
        &&& self.quadratic_nonresidue.1.valid()
        &&& self.quadratic_nonresidue.1.m == self.nonresidue.m
        &&& self.frobenius_coeff@[0].valid()
        &&& self.frobenius_coeff@[0].m == self.nonresidue.m
        &&& self.frobenius_coeff@[1].valid()
        &&& self.frobenius_coeff@[1].m == self.nonresidue.m
    }

    /// Multiplies a base-field element by the nonresidue.
    pub fn mul_fp_by_nonresidue(&self, fe: &Scalar) -> (r: Scalar)
        requires
            self.valid(),
            fe.valid(),
            fe.m == self.modulus(),
        ensures
            r.valid(),
            r.m == self.modulus(),
            r.n == fmul(fe.n as int, self.nonresidue.n as int, self.modulus() as int),
    {
        fe.mul(&self.nonresidue)
    }
}

/// A plain value of the quadratic extension: `c0 + c1 * u`.
#[derive(Clone, Copy, PartialEq, Eq, Structural, Debug)]
pub struct Fp2 {
    pub c0: Scalar,
    pub c1: Scalar,
}

impl Fp2 {
    /// Both components are reduced residues of one base field.
    pub open spec fn valid(&self) -> bool {
        &&& self.c0.valid()
        &&& self.c1.valid()
        &&& self.c0.m == self.c1.m
    }

    /// The element is the additive identity.
    pub open spec fn is_zero_spec(&self) -> bool {
        self.c0.n == 0 && self.c1.n == 0
    }

    /// The norm of this element under the given nonresidue.
    pub open spec fn norm_spec(&self, beta: int) -> int {
        fp2_norm(self.c0.n as int, self.c1.n as int, beta, self.c0.m as int)
    }

    /// The element `c0 + c1 * u`.
    pub fn new(c0: Scalar, c1: Scalar) -> (r: Fp2)
        ensures
            r.c0 == c0,
            r.c1 == c1,
    {
        Fp2 { c0, c1 }
    }

    /// Whether the element is the additive identity.
    pub fn is_zero(&self) -> (r: bool)
        ensures
            r <==> self.is_zero_spec(),
    {
        self.c0.is_zero() && self.c1.is_zero()
    }

    /// Multiplicative inverse, when one exists: the conjugate divided by
    /// the norm.  Absent exactly when the norm has no base-field inverse;
    /// with a prime modulus and a true nonresidue that happens exactly on
    /// the additive identity.
    pub fn inverse(&self, params: &Fp2Parameters) -> (r: Option<Fp2>)
        requires
            self.valid(),
            params.valid(),
            params.modulus() == self.c0.m,
        ensures
            r is Some <==> euclid_gcd(
                self.c0.m as nat,
                self.norm_spec(params.nonresidue.n as int) as nat,
            ) == 1,
            self.is_zero_spec() ==> r is None,
            match r {
                Some(x) => {
                    &&& x.valid()
                    &&& x.c0.m == self.c0.m
                    &&& fp2_mul_c0(
                        self.c0.n as int,
                        self.c1.n as int,
                        x.c0.n as int,
                        x.c1.n as int,
                        params.nonresidue.n as int,
                        self.c0.m as int,
                    ) == 1
                    &&& fp2_mul_c1(
                        self.c0.n as int,
                        self.c1.n as int,
                        x.c0.n as int,
                        x.c1.n as int,
                        self.c0.m as int,
                    ) == 0
                    &&& exists|k: int| inverse_witness(*self, x, params.nonresidue.n as int, k)
                },
                None => true,
            },
    {
        let m = self.c0.m;
        let ghost a0 = self.c0.n as int;
        let ghost a1 = self.c1.n as int;
        let ghost beta = params.nonresidue.n as int;
        if self.is_zero() {
            proof {
                assert(fp2_norm(0, 0, beta, m as int) == 0) by {
                    assert(0 * 0 == 0) by (nonlinear_arith);
                    assert(beta * 0 == 0) by (nonlinear_arith);
                    lemma_small_mod(0nat, m as nat);
                }
            }
            None
        } else {
            let v0 = self.c0.square();
            let v1 = self.c1.square();
            let beta_v1 = v1.mul(&params.nonresidue);
            let norm = v0.sub(&beta_v1);
            proof {
                // the computed residue is the norm
                lemma_mul_mod_noop_left(a1 * a1, beta, m as int);
                lemma_mul_is_commutative(a1 * a1, beta);
                lemma_mod_add_multiples_vanish(
                    (v0.n as int) - (beta_v1.n as int),
                    m as int,
                );
                lemma_sub_mod_noop(a0 * a0, beta * (a1 * a1), m as int);
                assert(norm.n as int == self.norm_spec(beta));
            }
            match norm.inverse() {
                None => None,
                Some(k) => {
                    let x0 = self.c0.mul(&k);
                    let x1 = self.c1.mul(&k).negate();
                    let out = Fp2 { c0: x0, c1: x1 };
                    proof {
                        lemma_fp2_inverse_products(a0, a1, beta, m as int, k.n as int);
                        assert(inverse_witness(*self, out, beta, k.n as int));
                    }
                    Some(out)
                },
            }
        }
    }
}

} // verus!
