//! The quadratic-extension gadget: a pair of base-field gadgets standing
//! for `c0 + c1 * u` with `u^2 = NONRESIDUE`.
//!
//! Linear operations delegate componentwise and stay free.  The
//! multiplicative operations use the Karatsuba decomposition to spend as
//! few constraints as possible: three for a product, two for a square, two
//! for an inverse (witness-then-check), three for checking a claimed
//! product.  The Frobenius map is a free rescale of the second component.

use crate::backend::{constraints_hold, lemma_constraints_hold_prefix, Backend};
use crate::fp2::{fp2_mul_c0, fp2_mul_c1, Fp2, Fp2Parameters};
use crate::fq::Fq;
use crate::linear::{lc_eval, lemma_eval_bound};
use crate::scalar::{fadd, fmul, fneg, fsub, Scalar};
use vstd::prelude::*;
#[allow(unused_imports)]
use vstd::arithmetic::div_mod::*;
#[allow(unused_imports)]
use vstd::arithmetic::mul::*;

verus! {

/// Folding the reduced partial products recovers the first component of
/// the Karatsuba product.
proof fn lemma_karatsuba_c0(a0: int, a1: int, b0: int, b1: int, beta: int, m: int)
    requires
        2 <= m,
    ensures
        (((a0 * b0) % m) + ((((a1 * b1) % m) * beta) % m)) % m == fp2_mul_c0(
            a0,
            a1,
            b0,
            b1,
            beta,
            m,
        ),
{
    lemma_mul_mod_noop_left(a1 * b1, beta, m);
    lemma_mul_is_commutative(a1 * b1, beta);
    lemma_add_mod_noop(a0 * b0, beta * (a1 * b1), m);
}

/// Subtracting a reduced residue from a reduced residue, the way the
/// gadget does, is one reduction of the plain difference.
proof fn lemma_fsub_reduces(x: int, y: int, m: int)
    requires
        2 <= m,
    ensures
        (((x % m) + (m - (y % m))) % m) == (x - y) % m,
{
    lemma_mod_add_multiples_vanish((x % m) - (y % m), m);
    lemma_sub_mod_noop(x, y, m);
}

/// Adding the same term to both sides of a congruence neither gains nor
/// loses solutions.
proof fn lemma_mod_add_cancel(x: int, y: int, c: int, m: int)
    requires
        2 <= m,
    ensures
        ((x + c) % m == (y + c) % m) <==> (x % m == y % m),
{
    lemma_add_mod_noop(x, c, m);
    lemma_add_mod_noop(y, c, m);
    lemma_sub_mod_noop(x + c, c, m);
    lemma_sub_mod_noop(y + c, c, m);
}

/// The two Karatsuba product checks hold under an assignment exactly when
/// the claimed result components are the true product components.
proof fn lemma_product_checks(
    a0: int,
    a1: int,
    b0: int,
    b1: int,
    r0: int,
    r1: int,
    beta: int,
    m: int,
)
    requires
        2 <= m,
        0 <= r0 < m,
        0 <= r1 < m,
    ensures
        ({
            let v1r = (a1 * b1) % m;
            let nrvn = (v1r * beta) % m;
            let rhs2n = (r0 + (m - nrvn)) % m;
            let omn = (v1r + (m - nrvn)) % m;
            let bign = (((r1 + r0) % m) + omn) % m;
            ((a0 * b0) % m == rhs2n && (((a0 + a1) % m) * ((b0 + b1) % m)) % m == bign)
                <==> (r0 == fp2_mul_c0(a0, a1, b0, b1, beta, m) && r1 == fp2_mul_c1(
                a0,
                a1,
                b0,
                b1,
                m,
            ))
        }),
{
    let p0 = a0 * b0;
    let v = a1 * b1;
    let nr = beta * v;
    let s = (a0 + a1) * (b0 + b1);
    let c = r0 + v - nr;

    let v1r = v % m;
    let nrvn = (v1r * beta) % m;
    let rhs2n = (r0 + (m - nrvn)) % m;
    let omn = (v1r + (m - nrvn)) % m;
    let bign = (((r1 + r0) % m) + omn) % m;

    // name the reduced partial products in unreduced form
    lemma_mul_mod_noop_left(v, beta, m);
    lemma_mul_is_commutative(v, beta);
    assert(nrvn == nr % m);
    lemma_small_mod(r0 as nat, m as nat);
    lemma_small_mod(r1 as nat, m as nat);
    lemma_fsub_reduces(r0, nr, m);
    assert(rhs2n == (r0 - nr) % m);
    lemma_fsub_reduces(v, nr, m);
    assert(omn == (v - nr) % m);
    lemma_add_mod_noop(r1 + r0, v - nr, m);
    assert(bign == (r1 + c) % m);
    lemma_mul_mod_noop_general(a0 + a1, b0 + b1, m);

    // the first check pins the first component
    lemma_mod_add_cancel(p0, r0 - nr, nr, m);
    assert(p0 + nr - nr == p0);
    assert((a0 * b0) % m == rhs2n <==> (p0 + nr) % m == r0 % m);

    // the second check, under the first, pins the second component
    lemma_mod_add_cancel(s - c, r1, c, m);
    assert(s - c + c == s);
    assert((s % m == (r1 + c) % m) <==> ((s - c) % m == r1 % m));

    if (a0 * b0) % m == rhs2n && s % m == bign {
        assert(r0 == fp2_mul_c0(a0, a1, b0, b1, beta, m));
        lemma_sub_mod_noop_right(s - v + nr, p0 + nr, m);
        assert((a0 + a1) * (b0 + b1) - a1 * b1 + beta * (a1 * b1) - (a0 * b0 + beta * (a1
            * b1)) == a0 * b1 + a1 * b0) by (nonlinear_arith);
        assert((s - c) % m == (a0 * b1 + a1 * b0) % m);
        assert(r1 == fp2_mul_c1(a0, a1, b0, b1, m));
    }
    if r0 == fp2_mul_c0(a0, a1, b0, b1, beta, m) && r1 == fp2_mul_c1(a0, a1, b0, b1, m) {
        assert((p0 + nr) % m == r0 % m);
        assert((a0 * b0) % m == rhs2n);
        lemma_sub_mod_noop_right(s - v + nr, p0 + nr, m);
        assert((a0 + a1) * (b0 + b1) - a1 * b1 + beta * (a1 * b1) - (a0 * b0 + beta * (a1
            * b1)) == a0 * b1 + a1 * b0) by (nonlinear_arith);
        assert((s - c) % m == (a0 * b1 + a1 * b0) % m);
        assert(s % m == bign);
    }
}

/// If `i0 + i1 u` multiplies `a0 + a1 u` to exactly `1`, then the
/// Karatsuba inversion check holds: `(a0 + a1)(i0 + i1)` equals
/// `1 + (1 - beta) * (a1 * i1)`, each side reduced the way the gadget
/// computes it.
proof fn lemma_inverse_check(a0: int, a1: int, i0: int, i1: int, beta: int, m: int)
    requires
        2 <= m,
        (a0 * i0 + beta * (a1 * i1)) % m == 1,
        (a0 * i1 + a1 * i0) % m == 0,
    ensures
        (((a0 + a1) % m) * ((i0 + i1) % m)) % m == (((((a1 * i1) % m) * ((1 + (m - beta))
            % m)) % m) + 1) % m,
{
    let d1 = a0 * i0 + beta * (a1 * i1);
    let d2 = a0 * i1 + a1 * i0;
    let t = a1 * i1 - beta * (a1 * i1);

    // the left side is one reduction of the expanded product
    lemma_mul_mod_noop_general(a0 + a1, i0 + i1, m);
    assert((a0 + a1) * (i0 + i1) == (a0 * i0 + beta * (a1 * i1)) + ((a0 * i1 + a1 * i0) + (a1
        * i1 - beta * (a1 * i1)))) by (nonlinear_arith);
    lemma_add_mod_noop(d1, d2 + t, m);
    lemma_add_mod_noop(d2, t, m);
    lemma_mod_twice(t, m);
    lemma_add_mod_noop_right(1, t, m);
    assert(((a0 + a1) * (i0 + i1)) % m == (1 + t) % m);

    // the right side reduces to the same residue
    lemma_mul_mod_noop_general(a1 * i1, 1 + (m - beta), m);
    assert((a1 * i1) * (1 + (m - beta)) == m * (a1 * i1) + (a1 * i1 - beta * (a1 * i1)))
        by (nonlinear_arith);
    lemma_mod_multiples_vanish(a1 * i1, t, m);
    lemma_small_mod(1nat, m as nat);
    lemma_add_mod_noop(((a1 * i1) * (1 + (m - beta))), 1, m);
    lemma_mod_twice(t, m);
    lemma_add_mod_noop((t % m), 1, m);
    assert(((((a1 * i1) % m) * ((1 + (m - beta)) % m)) % m + 1) % m == (t + 1) % m);
}

/// A quadratic-extension element inside the circuit: two base-field
/// gadgets and the extension's parameters.
pub struct Fq2 {
    pub c0: Fq,
    pub c1: Fq,
    pub params: Fp2Parameters,
}

impl Fq2 {
    /// The modulus of the base field this gadget computes in.
    pub open spec fn modulus(&self) -> u64 {
        self.c0.value.m
    }

    /// The configured nonresidue, as a residue.
    pub open spec fn beta(&self) -> int {
        self.params.nonresidue.n as int
    }

    /// The plain extension-field value this gadget carries.
    pub open spec fn value_spec(&self) -> Fp2 {
        Fp2 { c0: self.c0.value, c1: self.c1.value }
    }

    /// The backend-independent part of the invariant.
    pub open spec fn wf_free(&self) -> bool {
        &&& self.c0.wf_free()
        &&& self.c1.wf_free()
        &&& self.c1.value.m == self.c0.value.m
        &&& self.params.valid()
        &&& self.params.modulus() == self.c0.value.m
    }

    /// The gadget invariant against a backend state: both components hold
    /// theirs and the parameters live in the backend's field.
    pub open spec fn wf(&self, cs: &Backend) -> bool {
        &&& self.wf_free()
        &&& self.c0.wf(cs)
        &&& self.c1.wf(cs)
    }

    /// A well-formed gadget stays well-formed when the backend only grows.
    pub proof fn lemma_wf_extend(&self, cs1: &Backend, cs2: &Backend)
        requires
            self.wf(cs1),
            cs2.extends(cs1),
        ensures
            self.wf(cs2),
    {
        self.c0.lemma_wf_extend(cs1, cs2);
        self.c1.lemma_wf_extend(cs1, cs2);
    }

    /// A gadget from two existing component gadgets.
    pub fn new(c0: Fq, c1: Fq, params: Fp2Parameters) -> (r: Fq2)
        ensures
            r.c0 == c0,
            r.c1 == c1,
            r.params == params,
    {
        Fq2 { c0, c1, params }
    }

    /// Allocates both components of `value` as private witness wires.
    pub fn from_fp2_alloc(cs: &mut Backend, value: &Fp2, params: Fp2Parameters) -> (r: Fq2)
        requires
            old(cs).wf(),
            value.valid(),
            value.c0.m == old(cs).modulus,
            params.valid(),
            params.modulus() == old(cs).modulus,
        ensures
            final(cs).wf(),
            final(cs).extends(old(cs)),
            final(cs).inputs@ == old(cs).inputs@,
            final(cs).witnesses@.len() == old(cs).witnesses@.len() + 2,
            final(cs).constraints@ == old(cs).constraints@,
            final(cs).satisfied() <==> old(cs).satisfied(),
            r.wf(final(cs)),
            r.value_spec() == *value,
            r.params == params,
    {
        let c0 = Fq::alloc_witness(cs, value.c0);
        let ghost mid = *cs;
        let c1 = Fq::alloc_witness(cs, value.c1);
        proof {
            c0.lemma_wf_extend(&mid, cs);
            cs.lemma_extends_trans(&mid, old(cs));
        }
        Fq2 { c0, c1, params }
    }

    /// Allocates both components of `value` as public input wires.
    pub fn from_fp2_alloc_input(cs: &mut Backend, value: &Fp2, params: Fp2Parameters) -> (r: Fq2)
        requires
            old(cs).wf(),
            value.valid(),
            value.c0.m == old(cs).modulus,
            params.valid(),
            params.modulus() == old(cs).modulus,
        ensures
            final(cs).wf(),
            final(cs).extends(old(cs)),
            final(cs).inputs@.len() == old(cs).inputs@.len() + 2,
            final(cs).witnesses@ == old(cs).witnesses@,
            final(cs).constraints@ == old(cs).constraints@,
            final(cs).satisfied() <==> old(cs).satisfied(),
            r.wf(final(cs)),
            r.value_spec() == *value,
            r.params == params,
    {
        let c0 = Fq::alloc_input(cs, value.c0);
        let ghost mid = *cs;
        let c1 = Fq::alloc_input(cs, value.c1);
        proof {
            c0.lemma_wf_extend(&mid, cs);
            cs.lemma_extends_trans(&mid, old(cs));
        }
        Fq2 { c0, c1, params }
    }

    /// The plain extension-field value this gadget carries.
    pub fn value(&self) -> (r: Fp2)
        ensures
            r == self.value_spec(),
    {
        Fp2::new(self.c0.value(), self.c1.value())
    }

    /// The multiplicative identity: `1 + 0 * u`, referencing only the
    /// constant-one wire.
    pub fn one(params: Fp2Parameters) -> (r: Fq2)
        requires
            params.valid(),
        ensures
            r.wf_free(),
            r.params == params,
            r.c0.value.n == 1,
            r.c1.value.n == 0,
            r.modulus() == params.modulus(),
            forall|cs: Backend| cs.modulus == params.modulus() ==> #[trigger] r.wf(&cs),
    {
        let m = params.nonresidue.m;
        Fq2 { c0: Fq::one(m), c1: Fq::zero(m), params }
    }

    /// Free negation, componentwise.
    pub fn negate(&self) -> (r: Fq2)
        requires
            self.wf_free(),
        ensures
            r.wf_free(),
            r.params == self.params,
            r.modulus() == self.modulus(),
            r.c0.value.n == fneg(self.c0.value.n as int, self.modulus() as int),
            r.c1.value.n == fneg(self.c1.value.n as int, self.modulus() as int),
            forall|cs: Backend| self.wf(&cs) ==> #[trigger] r.wf(&cs),
    {
        Fq2 { c0: self.c0.negate(), c1: self.c1.negate(), params: self.params }
    }

    /// Free multiplication by a base-field circuit constant,
    /// componentwise.
    pub fn mul_by_constant(&self, coeff: Scalar) -> (r: Fq2)
        requires
            self.wf_free(),
            coeff.valid(),
            coeff.m == self.modulus(),
        ensures
            r.wf_free(),
            r.params == self.params,
            r.modulus() == self.modulus(),
            r.c0.value.n == fmul(self.c0.value.n as int, coeff.n as int, self.modulus() as int),
            r.c1.value.n == fmul(self.c1.value.n as int, coeff.n as int, self.modulus() as int),
            forall|cs: Backend| self.wf(&cs) ==> #[trigger] r.wf(&cs),
    {
        Fq2 {
            c0: self.c0.mul_by_constant(coeff),
            c1: self.c1.mul_by_constant(coeff),
            params: self.params,
        }
    }

    /// Free addition, componentwise.
    pub fn add(&self, other: &Fq2) -> (r: Fq2)
        requires
            self.wf_free(),
            other.wf_free(),
            self.modulus() == other.modulus(),
        ensures
            r.wf_free(),
            r.params == self.params,
            r.modulus() == self.modulus(),
            r.c0.value.n == fadd(
                self.c0.value.n as int,
                other.c0.value.n as int,
                self.modulus() as int,
            ),
            r.c1.value.n == fadd(
                self.c1.value.n as int,
                other.c1.value.n as int,
                self.modulus() as int,
            ),
            forall|cs: Backend| self.wf(&cs) && other.wf(&cs) ==> #[trigger] r.wf(&cs),
    {
        Fq2 { c0: self.c0.add(&other.c0), c1: self.c1.add(&other.c1), params: self.params }
    }

    /// Constrained multiplication by the Karatsuba decomposition: three
    /// constraints and three fresh wires for a full extension-field
    /// product.  `v0 = c0 * d0` and `v1 = c1 * d1` are constrained
    /// products; the result is recombined for free as
    /// `(v0 + beta * v1) + ((c0 + c1)(d0 + d1) - v0 - v1) u`.
    pub fn mul(&self, cs: &mut Backend, other: &Fq2) -> (r: Fq2)
        requires
            old(cs).wf(),
            self.wf(old(cs)),
            other.wf(old(cs)),
            self.params == other.params,
        ensures
            final(cs).wf(),
            final(cs).extends(old(cs)),
            final(cs).inputs@ == old(cs).inputs@,
            final(cs).witnesses@.len() == old(cs).witnesses@.len() + 3,
            final(cs).constraints@.len() == old(cs).constraints@.len() + 3,
            final(cs).satisfied() <==> old(cs).satisfied(),
            r.wf(final(cs)),
            r.params == self.params,
            r.modulus() == self.modulus(),
            r.c0.value.n == fp2_mul_c0(
                self.c0.value.n as int,
                self.c1.value.n as int,
                other.c0.value.n as int,
                other.c1.value.n as int,
                self.beta(),
                self.modulus() as int,
            ),
            r.c1.value.n == fp2_mul_c1(
                self.c0.value.n as int,
                self.c1.value.n as int,
                other.c0.value.n as int,
                other.c1.value.n as int,
                self.modulus() as int,
            ),
            forall|inp: Seq<Scalar>, wit: Seq<Scalar>|
                #[trigger] constraints_hold(
                    final(cs).constraints@,
                    inp,
                    wit,
                    self.modulus() as int,
                ) ==> {
                    &&& lc_eval(r.c0.lc.terms@, inp, wit, self.modulus() as int) == fp2_mul_c0(
                        lc_eval(self.c0.lc.terms@, inp, wit, self.modulus() as int),
                        lc_eval(self.c1.lc.terms@, inp, wit, self.modulus() as int),
                        lc_eval(other.c0.lc.terms@, inp, wit, self.modulus() as int),
                        lc_eval(other.c1.lc.terms@, inp, wit, self.modulus() as int),
                        self.beta(),
                        self.modulus() as int,
                    )
                    &&& lc_eval(r.c1.lc.terms@, inp, wit, self.modulus() as int) == fp2_mul_c1(
                        lc_eval(self.c0.lc.terms@, inp, wit, self.modulus() as int),
                        lc_eval(self.c1.lc.terms@, inp, wit, self.modulus() as int),
                        lc_eval(other.c0.lc.terms@, inp, wit, self.modulus() as int),
                        lc_eval(other.c1.lc.terms@, inp, wit, self.modulus() as int),
                        self.modulus() as int,
                    )
                },
    {
        let ghost m = self.modulus() as int;
        let ghost a0 = self.c0.value.n as int;
        let ghost a1 = self.c1.value.n as int;
        let ghost b0 = other.c0.value.n as int;
        let ghost b1 = other.c1.value.n as int;

        let v0 = self.c0.mul(cs, &other.c0);
        proof {
            self.lemma_wf_extend(old(cs), cs);
            other.lemma_wf_extend(old(cs), cs);
        }
        let ghost cs1 = *cs;
        let v1 = self.c1.mul(cs, &other.c1);
        proof {
            self.lemma_wf_extend(&cs1, cs);
            other.lemma_wf_extend(&cs1, cs);
            v0.lemma_wf_extend(&cs1, cs);
            cs.lemma_extends_trans(&cs1, old(cs));
        }
        let nr_v1 = v1.mul_by_constant(self.params.nonresidue);
        let c0r = v0.add(&nr_v1);
        let a0_plus_a1 = self.c0.add(&self.c1);
        let b0_plus_b1 = other.c0.add(&other.c1);
        let ghost cs2 = *cs;
        proof {
            assert(a0_plus_a1.wf(&cs2));
            assert(b0_plus_b1.wf(&cs2));
        }
        let cross = a0_plus_a1.mul(cs, &b0_plus_b1);
        proof {
            self.lemma_wf_extend(&cs2, cs);
            other.lemma_wf_extend(&cs2, cs);
            v0.lemma_wf_extend(&cs2, cs);
            v1.lemma_wf_extend(&cs2, cs);
            c0r.lemma_wf_extend(&cs2, cs);
            cs.lemma_extends_trans(&cs2, old(cs));
        }
        let c1r = cross.sub(&v0).sub(&v1);
        let r = Fq2 { c0: c0r, c1: c1r, params: self.params };
        proof {
            // first component: v0 + beta * v1
            lemma_karatsuba_c0(a0, a1, b0, b1, self.beta(), m);
            // second component: cross - v0 - v1
            lemma_mul_mod_noop_general(a0 + a1, b0 + b1, m);
            lemma_fsub_reduces((a0 + a1) * (b0 + b1), a0 * b0, m);
            lemma_fsub_reduces((a0 + a1) * (b0 + b1) - a0 * b0, a1 * b1, m);
            assert((a0 + a1) * (b0 + b1) - a0 * b0 - a1 * b1 == a0 * b1 + a1 * b0)
                by (nonlinear_arith);
            // under any assignment satisfying the emitted constraints,
            // the result's combinations evaluate to the product of the
            // operands' combinations
            cs.lemma_extends_trans(&cs2, &cs1);
            assert forall|inp: Seq<Scalar>, wit: Seq<Scalar>|
                #[trigger] constraints_hold(cs.constraints@, inp, wit, m) implies {
                &&& lc_eval(r.c0.lc.terms@, inp, wit, m) == fp2_mul_c0(
                    lc_eval(self.c0.lc.terms@, inp, wit, m),
                    lc_eval(self.c1.lc.terms@, inp, wit, m),
                    lc_eval(other.c0.lc.terms@, inp, wit, m),
                    lc_eval(other.c1.lc.terms@, inp, wit, m),
                    self.beta(),
                    m,
                )
                &&& lc_eval(r.c1.lc.terms@, inp, wit, m) == fp2_mul_c1(
                    lc_eval(self.c0.lc.terms@, inp, wit, m),
                    lc_eval(self.c1.lc.terms@, inp, wit, m),
                    lc_eval(other.c0.lc.terms@, inp, wit, m),
                    lc_eval(other.c1.lc.terms@, inp, wit, m),
                    m,
                )
            } by {
                lemma_constraints_hold_prefix(cs1.constraints@, cs.constraints@, inp, wit, m);
                lemma_constraints_hold_prefix(cs2.constraints@, cs.constraints@, inp, wit, m);
                let ea0 = lc_eval(self.c0.lc.terms@, inp, wit, m);
                let ea1 = lc_eval(self.c1.lc.terms@, inp, wit, m);
                let eb0 = lc_eval(other.c0.lc.terms@, inp, wit, m);
                let eb1 = lc_eval(other.c1.lc.terms@, inp, wit, m);
                // the three constrained wires carry the three products
                assert(lc_eval(v0.lc.terms@, inp, wit, m) == fmul(ea0, eb0, m));
                assert(lc_eval(v1.lc.terms@, inp, wit, m) == fmul(ea1, eb1, m));
                assert(lc_eval(cross.lc.terms@, inp, wit, m) == fmul(
                    fadd(ea0, ea1, m),
                    fadd(eb0, eb1, m),
                    m,
                ));
                lemma_karatsuba_c0(ea0, ea1, eb0, eb1, self.beta(), m);
                lemma_mul_mod_noop_general(ea0 + ea1, eb0 + eb1, m);
                lemma_fsub_reduces((ea0 + ea1) * (eb0 + eb1), ea0 * eb0, m);
                lemma_fsub_reduces((ea0 + ea1) * (eb0 + eb1) - ea0 * eb0, ea1 * eb1, m);
                assert((ea0 + ea1) * (eb0 + eb1) - ea0 * eb0 - ea1 * eb1 == ea0 * eb1 + ea1
                    * eb0) by (nonlinear_arith);
            }
        }
        r
    }

    /// Constrained squaring by complex squaring: two constraints and two
    /// fresh wires.  `v0 = c0 * c1` is a constrained product;
    /// `(c0 + c1)(c0 + beta c1)` is the second; the result is
    /// `(that - (1 + beta) v0) + (2 v0) u`, recombined for free.
    pub fn square(&self, cs: &mut Backend) -> (r: Fq2)
        requires
            old(cs).wf(),
            self.wf(old(cs)),
        ensures
            final(cs).wf(),
            final(cs).extends(old(cs)),
            final(cs).inputs@ == old(cs).inputs@,
            final(cs).witnesses@.len() == old(cs).witnesses@.len() + 2,
            final(cs).constraints@.len() == old(cs).constraints@.len() + 2,
            final(cs).satisfied() <==> old(cs).satisfied(),
            r.wf(final(cs)),
            r.params == self.params,
            r.modulus() == self.modulus(),
            r.c0.value.n == fp2_mul_c0(
                self.c0.value.n as int,
                self.c1.value.n as int,
                self.c0.value.n as int,
                self.c1.value.n as int,
                self.beta(),
                self.modulus() as int,
            ),
            r.c1.value.n == fp2_mul_c1(
                self.c0.value.n as int,
                self.c1.value.n as int,
                self.c0.value.n as int,
                self.c1.value.n as int,
                self.modulus() as int,
            ),
            forall|inp: Seq<Scalar>, wit: Seq<Scalar>|
                #[trigger] constraints_hold(
                    final(cs).constraints@,
                    inp,
                    wit,
                    self.modulus() as int,
                ) ==> {
                    &&& lc_eval(r.c0.lc.terms@, inp, wit, self.modulus() as int) == fp2_mul_c0(
                        lc_eval(self.c0.lc.terms@, inp, wit, self.modulus() as int),
                        lc_eval(self.c1.lc.terms@, inp, wit, self.modulus() as int),
                        lc_eval(self.c0.lc.terms@, inp, wit, self.modulus() as int),
                        lc_eval(self.c1.lc.terms@, inp, wit, self.modulus() as int),
                        self.beta(),
                        self.modulus() as int,
                    )
                    &&& lc_eval(r.c1.lc.terms@, inp, wit, self.modulus() as int) == fp2_mul_c1(
                        lc_eval(self.c0.lc.terms@, inp, wit, self.modulus() as int),
                        lc_eval(self.c1.lc.terms@, inp, wit, self.modulus() as int),
                        lc_eval(self.c0.lc.terms@, inp, wit, self.modulus() as int),
                        lc_eval(self.c1.lc.terms@, inp, wit, self.modulus() as int),
                        self.modulus() as int,
                    )
                },
    {
        let ghost m = self.modulus() as int;
        let ghost a0 = self.c0.value.n as int;
        let ghost a1 = self.c1.value.n as int;
        let ghost beta = self.beta();
        let mm = self.params.nonresidue.m;

        let v0 = self.c0.mul(cs, &self.c1);
        proof {
            self.lemma_wf_extend(old(cs), cs);
        }
        let a0_plus_a1 = self.c0.add(&self.c1);
        let a0_plus_beta_a1 = self.c0.add(&self.c1.mul_by_constant(self.params.nonresidue));
        let ghost cs1 = *cs;
        proof {
            assert(a0_plus_a1.wf(&cs1));
            assert(a0_plus_beta_a1.wf(&cs1));
        }
        let w = a0_plus_a1.mul(cs, &a0_plus_beta_a1);
        proof {
            v0.lemma_wf_extend(&cs1, cs);
            cs.lemma_extends_trans(&cs1, old(cs));
        }
        let one_plus_beta = Scalar::one(mm).add(&self.params.nonresidue);
        let c0r = w.sub(&v0.mul_by_constant(one_plus_beta));
        let c1r = v0.double();
        let r = Fq2 { c0: c0r, c1: c1r, params: self.params };
        proof {
            // w carries ((a0 + a1) * (a0 + beta * a1)) reduced
            lemma_mul_mod_noop_right(a1, beta, m);
            lemma_mul_is_commutative(a1, beta);
            lemma_add_mod_noop_right(a0, beta * a1, m);
            lemma_mul_mod_noop_general(a0 + a1, a0 + beta * a1, m);
            // the subtracted term carries (1 + beta) * (a0 * a1) reduced
            lemma_mul_mod_noop_general(a0 * a1, 1 + beta, m);
            lemma_mul_is_commutative(a0 * a1, 1 + beta);
            lemma_fsub_reduces((a0 + a1) * (a0 + beta * a1), (1 + beta) * (a0 * a1), m);
            assert((a0 + a1) * (a0 + beta * a1) - (1 + beta) * (a0 * a1) == a0 * a0 + beta * (a1
                * a1)) by (nonlinear_arith);
            // the doubled product is the second component
            lemma_add_mod_noop(a0 * a1, a0 * a1, m);
            assert(a0 * a1 + a0 * a1 == a0 * a1 + a1 * a0) by (nonlinear_arith);
            // under any assignment satisfying the emitted constraints,
            // the result's combinations evaluate to the square of the
            // operand's combinations
            assert forall|inp: Seq<Scalar>, wit: Seq<Scalar>|
                #[trigger] constraints_hold(cs.constraints@, inp, wit, m) implies {
                &&& lc_eval(r.c0.lc.terms@, inp, wit, m) == fp2_mul_c0(
                    lc_eval(self.c0.lc.terms@, inp, wit, m),
                    lc_eval(self.c1.lc.terms@, inp, wit, m),
                    lc_eval(self.c0.lc.terms@, inp, wit, m),
                    lc_eval(self.c1.lc.terms@, inp, wit, m),
                    self.beta(),
                    m,
                )
                &&& lc_eval(r.c1.lc.terms@, inp, wit, m) == fp2_mul_c1(
                    lc_eval(self.c0.lc.terms@, inp, wit, m),
                    lc_eval(self.c1.lc.terms@, inp, wit, m),
                    lc_eval(self.c0.lc.terms@, inp, wit, m),
                    lc_eval(self.c1.lc.terms@, inp, wit, m),
                    m,
                )
            } by {
                lemma_constraints_hold_prefix(cs1.constraints@, cs.constraints@, inp, wit, m);
                let ea0 = lc_eval(self.c0.lc.terms@, inp, wit, m);
                let ea1 = lc_eval(self.c1.lc.terms@, inp, wit, m);
                assert(lc_eval(v0.lc.terms@, inp, wit, m) == fmul(ea0, ea1, m));
                assert(lc_eval(w.lc.terms@, inp, wit, m) == fmul(
                    fadd(ea0, ea1, m),
                    fadd(ea0, fmul(ea1, self.beta(), m), m),
                    m,
                ));
                lemma_add_mod_noop_right(ea0, ea1 * self.beta(), m);
                lemma_mul_mod_noop_general(ea0 + ea1, ea0 + ea1 * self.beta(), m);
                lemma_mul_mod_noop_general(ea0 * ea1, 1 + self.beta(), m);
                lemma_mul_is_commutative(ea0 * ea1, 1 + self.beta());
                lemma_fsub_reduces(
                    (ea0 + ea1) * (ea0 + ea1 * self.beta()),
                    (1 + self.beta()) * (ea0 * ea1),
                    m,
                );
                assert((ea0 + ea1) * (ea0 + ea1 * self.beta()) - (1 + self.beta()) * (ea0 * ea1)
                    == ea0 * ea0 + self.beta() * (ea1 * ea1)) by (nonlinear_arith);
                lemma_add_mod_noop(ea0 * ea1, ea0 * ea1, m);
                assert(ea0 * ea1 + ea0 * ea1 == ea0 * ea1 + ea1 * ea0) by (nonlinear_arith);
            }
        }
        r
    }

    /// Constrained inversion by witness-then-check: the plain inverse is
    /// computed off-circuit, allocated as two fresh wires, and bound by
    /// two constraints, `v1 = c1 * inv.c1` and the Karatsuba identity
    /// `(c0 + c1)(inv.c0 + inv.c1) = 1 + (1 - beta) v1`.  On the additive
    /// identity nothing is allocated or emitted and the result is absent.
    pub fn inverse(&self, cs: &mut Backend) -> (r: Option<Fq2>)
        requires
            old(cs).wf(),
            self.wf(old(cs)),
        ensures
            final(cs).wf(),
            final(cs).extends(old(cs)),
            final(cs).inputs@ == old(cs).inputs@,
            final(cs).satisfied() <==> old(cs).satisfied(),
            r is Some <==> crate::scalar::euclid_gcd(
                self.modulus() as nat,
                self.value_spec().norm_spec(self.beta()) as nat,
            ) == 1,
            self.value_spec().is_zero_spec() ==> r is None,
            r is None ==> *final(cs) == *old(cs),
            match r {
                Some(x) => {
                    &&& x.wf(final(cs))
                    &&& x.params == self.params
                    &&& x.modulus() == self.modulus()
                    &&& fp2_mul_c0(
                        self.c0.value.n as int,
                        self.c1.value.n as int,
                        x.c0.value.n as int,
                        x.c1.value.n as int,
                        self.beta(),
                        self.modulus() as int,
                    ) == 1
                    &&& fp2_mul_c1(
                        self.c0.value.n as int,
                        self.c1.value.n as int,
                        x.c0.value.n as int,
                        x.c1.value.n as int,
                        self.modulus() as int,
                    ) == 0
                    &&& exists|k: int|
                        crate::fp2::inverse_witness(
                            self.value_spec(),
                            x.value_spec(),
                            self.beta(),
                            k,
                        )
                    &&& final(cs).witnesses@.len() == old(cs).witnesses@.len() + 3
                    &&& final(cs).constraints@.len() == old(cs).constraints@.len() + 2
                },
                None => true,
            },
    {
        let ghost m = self.modulus() as int;
        let ghost a0 = self.c0.value.n as int;
        let ghost a1 = self.c1.value.n as int;
        let ghost beta = self.beta();

        let plain = self.value();
        match plain.inverse(&self.params) {
            None => None,
            Some(inv_value) => {
                let out = Fq2::from_fp2_alloc(cs, &inv_value, self.params);
                proof {
                    self.lemma_wf_extend(old(cs), cs);
                }
                let ghost cs1 = *cs;
                let v1 = self.c1.mul(cs, &out.c1);
                proof {
                    self.lemma_wf_extend(&cs1, cs);
                    out.lemma_wf_extend(&cs1, cs);
                    cs.lemma_extends_trans(&cs1, old(cs));
                }
                let mm = self.params.nonresidue.m;
                let a0_plus_a1 = self.c0.add(&self.c1);
                let b0_plus_b1 = out.c0.add(&out.c1);
                let one = Fq::one(mm);
                let one_minus_beta = Scalar::one(mm).sub(&self.params.nonresidue);
                let rhs = v1.mul_by_constant(one_minus_beta).add(&one);
                let ghost cs2 = *cs;
                proof {
                    assert(a0_plus_a1.wf(&cs2));
                    assert(b0_plus_b1.wf(&cs2));
                    assert(rhs.wf(&cs2));
                }
                a0_plus_a1.enforce_mul(cs, &b0_plus_b1, &rhs);
                proof {
                    out.lemma_wf_extend(&cs2, cs);
                    cs.lemma_extends_trans(&cs2, old(cs));
                    lemma_inverse_check(
                        a0,
                        a1,
                        out.c0.value.n as int,
                        out.c1.value.n as int,
                        beta,
                        m,
                    );
                }
                Some(out)
            },
        }
    }

    /// Emits the Karatsuba product checks against an existing claimed
    /// result: one fresh wire for `v1 = c1 * d1` and three constraints in
    /// all.  Under the current assignment the emitted checks pass exactly
    /// when the claimed components are the true product components.
    pub fn enforce_mul(&self, cs: &mut Backend, other: &Fq2, result: &Fq2)
        requires
            old(cs).wf(),
            self.wf(old(cs)),
            other.wf(old(cs)),
            result.wf(old(cs)),
            self.params == other.params,
            self.params == result.params,
        ensures
            final(cs).wf(),
            final(cs).extends(old(cs)),
            final(cs).inputs@ == old(cs).inputs@,
            final(cs).witnesses@.len() == old(cs).witnesses@.len() + 1,
            final(cs).constraints@.len() == old(cs).constraints@.len() + 3,
            final(cs).satisfied() <==> old(cs).satisfied() && result.c0.value.n == fp2_mul_c0(
                self.c0.value.n as int,
                self.c1.value.n as int,
                other.c0.value.n as int,
                other.c1.value.n as int,
                self.beta(),
                self.modulus() as int,
            ) && result.c1.value.n == fp2_mul_c1(
                self.c0.value.n as int,
                self.c1.value.n as int,
                other.c0.value.n as int,
                other.c1.value.n as int,
                self.modulus() as int,
            ),
            forall|inp: Seq<Scalar>, wit: Seq<Scalar>|
                #[trigger] constraints_hold(
                    final(cs).constraints@,
                    inp,
                    wit,
                    self.modulus() as int,
                ) ==> {
                    &&& lc_eval(result.c0.lc.terms@, inp, wit, self.modulus() as int)
                        == fp2_mul_c0(
                        lc_eval(self.c0.lc.terms@, inp, wit, self.modulus() as int),
                        lc_eval(self.c1.lc.terms@, inp, wit, self.modulus() as int),
                        lc_eval(other.c0.lc.terms@, inp, wit, self.modulus() as int),
                        lc_eval(other.c1.lc.terms@, inp, wit, self.modulus() as int),
                        self.beta(),
                        self.modulus() as int,
                    )
                    &&& lc_eval(result.c1.lc.terms@, inp, wit, self.modulus() as int)
                        == fp2_mul_c1(
                        lc_eval(self.c0.lc.terms@, inp, wit, self.modulus() as int),
                        lc_eval(self.c1.lc.terms@, inp, wit, self.modulus() as int),
                        lc_eval(other.c0.lc.terms@, inp, wit, self.modulus() as int),
                        lc_eval(other.c1.lc.terms@, inp, wit, self.modulus() as int),
                        self.modulus() as int,
                    )
                },
    {
        let ghost m = self.modulus() as int;
        let ghost a0 = self.c0.value.n as int;
        let ghost a1 = self.c1.value.n as int;
        let ghost b0 = other.c0.value.n as int;
        let ghost b1 = other.c1.value.n as int;

        let v1 = self.c1.mul(cs, &other.c1);
        proof {
            self.lemma_wf_extend(old(cs), cs);
            other.lemma_wf_extend(old(cs), cs);
            result.lemma_wf_extend(old(cs), cs);
        }
        let nr_v1 = v1.mul_by_constant(self.params.nonresidue);
        let rhs2 = result.c0.sub(&nr_v1);
        let ghost cs1 = *cs;
        proof {
            assert(rhs2.wf(&cs1));
        }
        self.c0.enforce_mul(cs, &other.c0, &rhs2);
        proof {
            self.lemma_wf_extend(&cs1, cs);
            other.lemma_wf_extend(&cs1, cs);
            result.lemma_wf_extend(&cs1, cs);
            v1.lemma_wf_extend(&cs1, cs);
            cs.lemma_extends_trans(&cs1, old(cs));
        }
        let a0_plus_a1 = self.c0.add(&self.c1);
        let b0_plus_b1 = other.c0.add(&other.c1);
        let one_minus_nr_v1 = v1.sub(&nr_v1);
        let big = result.c1.add(&result.c0).add(&one_minus_nr_v1);
        let ghost cs2 = *cs;
        proof {
            assert(a0_plus_a1.wf(&cs2));
            assert(b0_plus_b1.wf(&cs2));
            assert(big.wf(&cs2));
        }
        a0_plus_a1.enforce_mul(cs, &b0_plus_b1, &big);
        proof {
            cs.lemma_extends_trans(&cs2, old(cs));
            lemma_product_checks(
                a0,
                a1,
                b0,
                b1,
                result.c0.value.n as int,
                result.c1.value.n as int,
                self.beta(),
                m,
            );
            // under any assignment satisfying the emitted checks, the
            // claimed result's combinations carry the true product
            cs.lemma_extends_trans(&cs2, &cs1);
            assert forall|inp: Seq<Scalar>, wit: Seq<Scalar>|
                #[trigger] constraints_hold(cs.constraints@, inp, wit, m) implies {
                &&& lc_eval(result.c0.lc.terms@, inp, wit, m) == fp2_mul_c0(
                    lc_eval(self.c0.lc.terms@, inp, wit, m),
                    lc_eval(self.c1.lc.terms@, inp, wit, m),
                    lc_eval(other.c0.lc.terms@, inp, wit, m),
                    lc_eval(other.c1.lc.terms@, inp, wit, m),
                    self.beta(),
                    m,
                )
                &&& lc_eval(result.c1.lc.terms@, inp, wit, m) == fp2_mul_c1(
                    lc_eval(self.c0.lc.terms@, inp, wit, m),
                    lc_eval(self.c1.lc.terms@, inp, wit, m),
                    lc_eval(other.c0.lc.terms@, inp, wit, m),
                    lc_eval(other.c1.lc.terms@, inp, wit, m),
                    m,
                )
            } by {
                lemma_constraints_hold_prefix(cs1.constraints@, cs.constraints@, inp, wit, m);
                lemma_constraints_hold_prefix(cs2.constraints@, cs.constraints@, inp, wit, m);
                let ea0 = lc_eval(self.c0.lc.terms@, inp, wit, m);
                let ea1 = lc_eval(self.c1.lc.terms@, inp, wit, m);
                let eb0 = lc_eval(other.c0.lc.terms@, inp, wit, m);
                let eb1 = lc_eval(other.c1.lc.terms@, inp, wit, m);
                let er0 = lc_eval(result.c0.lc.terms@, inp, wit, m);
                let er1 = lc_eval(result.c1.lc.terms@, inp, wit, m);
                assert(lc_eval(v1.lc.terms@, inp, wit, m) == fmul(ea1, eb1, m));
                assert(fmul(ea0, eb0, m) == lc_eval(rhs2.lc.terms@, inp, wit, m));
                assert(fmul(
                    fadd(ea0, ea1, m),
                    fadd(eb0, eb1, m),
                    m,
                ) == lc_eval(big.lc.terms@, inp, wit, m));
                lemma_eval_bound(result.c0.lc.terms@, inp, wit, m);
                lemma_eval_bound(result.c1.lc.terms@, inp, wit, m);
                lemma_product_checks(ea0, ea1, eb0, eb1, er0, er1, self.beta(), m);
            }
        }
    }

    /// The Frobenius endomorphism restricted to the quadratic extension:
    /// the first component is kept, the second is rescaled by the
    /// precomputed coefficient of the power's parity.  Free: no wire, no
    /// constraint.
    pub fn frobenius_map(&self, power: usize) -> (r: Fq2)
        requires
            self.wf_free(),
        ensures
            r.wf_free(),
            r.params == self.params,
            r.modulus() == self.modulus(),
            r.c0.value == self.c0.value,
            r.c1.value.n == fmul(
                self.c1.value.n as int,
                self.params.frobenius_coeff@[(power % 2) as int].n as int,
                self.modulus() as int,
            ),
            forall|cs: Backend| self.wf(&cs) ==> #[trigger] r.wf(&cs),
    {
        let coeff = self.params.frobenius_coeff[power % 2];
        let c0 = Fq::new(self.c0.value, &self.c0.lc);
        let c1 = self.c1.mul_by_constant(coeff);
        let r = Fq2 { c0, c1, params: self.params };
        proof {
            assert forall|cs: Backend| self.wf(&cs) implies #[trigger] r.wf(&cs) by {
                assert(r.c0.lc.terms@ == self.c0.lc.terms@);
            }
        }
        r
    }

    /// Free subtraction, componentwise.
    pub fn sub(&self, other: &Fq2) -> (r: Fq2)
        requires
            self.wf_free(),
            other.wf_free(),
            self.modulus() == other.modulus(),
        ensures
            r.wf_free(),
            r.params == self.params,
            r.modulus() == self.modulus(),
            r.c0.value.n == fsub(
                self.c0.value.n as int,
                other.c0.value.n as int,
                self.modulus() as int,
            ),
            r.c1.value.n == fsub(
                self.c1.value.n as int,
                other.c1.value.n as int,
                self.modulus() as int,
            ),
            forall|cs: Backend| self.wf(&cs) && other.wf(&cs) ==> #[trigger] r.wf(&cs),
    {
        Fq2 { c0: self.c0.sub(&other.c0), c1: self.c1.sub(&other.c1), params: self.params }
    }
}

} // verus!
