//! The base-field gadget: one field element paired with the linear
//! combination of wires that represents it inside the circuit.
//!
//! Linear operations (`add`, `sub`, `negate`, `mul_by_constant`, `double`)
//! recombine linear combinations and cost nothing.  Multiplicative
//! operations (`mul`, `square`, `inverse`) allocate one fresh wire and emit
//! exactly one `A * B = C` constraint binding it.  Every operation keeps
//! the gadget invariant: the combination evaluates, under the backend's
//! assignment, to the assigned value.

use crate::backend::{constraint_holds, constraints_hold, Backend};
use crate::linear::{
    lc_coeffs_wf, lc_eval, lc_wf, lemma_eval_bound, lemma_eval_concat, lemma_eval_extend,
    lemma_eval_scaled, lemma_eval_single, LinearCombination, Wire,
};
use crate::scalar::{fadd, fmul, fneg, fsub, Scalar};
use vstd::prelude::*;
#[allow(unused_imports)]
use vstd::arithmetic::div_mod::*;
#[allow(unused_imports)]
use vstd::arithmetic::mul::*;

verus! {

/// Scaling a reduced residue by `m - 1` negates it modulo `m`.
proof fn lemma_scale_by_minus_one(e: int, m: int)
    requires
        2 <= m,
        0 <= e < m,
    ensures
        ((m - 1) * e) % m == (m - e) % m,
{
    assert((m - 1) * e == m * e - e) by (nonlinear_arith);
    lemma_mod_multiples_vanish(e, -e, m);
    lemma_mod_add_multiples_vanish(-e, m);
}

/// A base-field element inside the circuit: the assigned value and the
/// affine expression over wires that stands for it.
pub struct Fq {
    pub value: Scalar,
    pub lc: LinearCombination,
}

impl Fq {
    /// The backend-independent part of the invariant: the value is a
    /// reduced residue and every coefficient of the combination is one
    /// too.  Enough for the free linear operations.
    pub open spec fn wf_free(&self) -> bool {
        &&& self.value.valid()
        &&& lc_coeffs_wf(self.lc.terms@, self.value.m)
    }

    /// The gadget invariant against a backend state: the value is a
    /// reduced residue, the combination names existing wires, and the
    /// combination evaluates to the value under the stored assignment.
    pub open spec fn wf(&self, cs: &Backend) -> bool {
        &&& self.wf_free()
        &&& self.value.m == cs.modulus
        &&& lc_wf(self.lc.terms@, cs.modulus, cs.inputs@.len() as int, cs.witnesses@.len() as int)
        &&& lc_eval(self.lc.terms@, cs.inputs@, cs.witnesses@, cs.modulus as int)
            == self.value.n as int
    }

    /// A well-formed gadget stays well-formed when the backend only grows.
    pub proof fn lemma_wf_extend(&self, cs1: &Backend, cs2: &Backend)
        requires
            self.wf(cs1),
            cs2.extends(cs1),
        ensures
            self.wf(cs2),
    {
        lemma_eval_extend(
            self.lc.terms@,
            cs1.inputs@,
            cs1.witnesses@,
            cs2.inputs@,
            cs2.witnesses@,
            cs1.modulus,
        );
    }

    /// The assigned base-field value.
    pub fn value(&self) -> (r: Scalar)
        ensures
            r == self.value,
    {
        self.value
    }

    /// A gadget from an already-known value and combination.
    pub fn new(value: Scalar, lc: &LinearCombination) -> (r: Fq)
        ensures
            r.value == value,
            r.lc.terms@ =~= lc.terms@,
    {
        Fq { value, lc: lc.duplicate() }
    }

    /// The result carries `value` on a fresh private witness wire.
    pub fn alloc_witness(cs: &mut Backend, value: Scalar) -> (r: Fq)
        requires
            old(cs).wf(),
            value.valid(),
            value.m == old(cs).modulus,
        ensures
            final(cs).wf(),
            final(cs).extends(old(cs)),
            final(cs).inputs@ == old(cs).inputs@,
            final(cs).witnesses@ == old(cs).witnesses@.push(value),
            final(cs).constraints@ == old(cs).constraints@,
            final(cs).satisfied() <==> old(cs).satisfied(),
            r.wf(final(cs)),
            r.value == value,
    {
        let wire = cs.alloc_witness(value);
        let lc = LinearCombination::from_wire(wire, value.m);
        let r = Fq { value, lc };
        proof {
            lemma_eval_single(r.lc.terms@, cs.inputs@, cs.witnesses@, value.m as int);
            lemma_small_mod(value.n as nat, value.m as nat);
            assert(crate::linear::wire_value(wire, cs.inputs@, cs.witnesses@) == value.n as int);
        }
        r
    }

    /// The result carries `value` on a fresh public input wire.
    pub fn alloc_input(cs: &mut Backend, value: Scalar) -> (r: Fq)
        requires
            old(cs).wf(),
            value.valid(),
            value.m == old(cs).modulus,
        ensures
            final(cs).wf(),
            final(cs).extends(old(cs)),
            final(cs).inputs@ == old(cs).inputs@.push(value),
            final(cs).witnesses@ == old(cs).witnesses@,
            final(cs).constraints@ == old(cs).constraints@,
            final(cs).satisfied() <==> old(cs).satisfied(),
            r.wf(final(cs)),
            r.value == value,
    {
        let wire = cs.alloc_input(value);
        let lc = LinearCombination::from_wire(wire, value.m);
        let r = Fq { value, lc };
        proof {
            lemma_eval_single(r.lc.terms@, cs.inputs@, cs.witnesses@, value.m as int);
            lemma_small_mod(value.n as nat, value.m as nat);
            assert(crate::linear::wire_value(wire, cs.inputs@, cs.witnesses@) == value.n as int);
        }
        r
    }

    /// The constant zero: no wire, no constraint, the empty combination.
    pub fn zero(m: u64) -> (r: Fq)
        requires
            2 <= m,
        ensures
            r.wf_free(),
            r.value.valid(),
            r.value.m == m,
            r.value.n == 0,
            forall|cs: Backend| cs.modulus == m ==> #[trigger] r.wf(&cs),
    {
        Fq { value: Scalar::zero(m), lc: LinearCombination::empty() }
    }

    /// The constant one: the combination referencing the backend's
    /// constant-one wire, with no allocation.
    pub fn one(m: u64) -> (r: Fq)
        requires
            2 <= m,
        ensures
            r.wf_free(),
            r.value.valid(),
            r.value.m == m,
            r.value.n == 1,
            forall|cs: Backend| cs.modulus == m ==> #[trigger] r.wf(&cs),
    {
        let r = Fq { value: Scalar::one(m), lc: LinearCombination::from_wire(Wire::One, m) };
        proof {
            assert forall|cs: Backend| cs.modulus == m implies #[trigger] r.wf(&cs) by {
                lemma_eval_single(r.lc.terms@, cs.inputs@, cs.witnesses@, m as int);
                lemma_small_mod(1nat, m as nat);
            }
        }
        r
    }

    /// Free addition: values add in the field, combinations concatenate.
    pub fn add(&self, other: &Fq) -> (r: Fq)
        requires
            self.wf_free(),
            other.wf_free(),
            self.value.m == other.value.m,
        ensures
            r.wf_free(),
            r.value.valid(),
            r.value.m == self.value.m,
            r.value.n == fadd(self.value.n as int, other.value.n as int, self.value.m as int),
            r.lc.terms@ == self.lc.terms@ + other.lc.terms@,
            forall|cs: Backend|
                self.wf(&cs) && other.wf(&cs) ==> #[trigger] r.wf(&cs),
            forall|inp: Seq<Scalar>, wit: Seq<Scalar>|
                #[trigger] lc_eval(r.lc.terms@, inp, wit, self.value.m as int) == fadd(
                    lc_eval(self.lc.terms@, inp, wit, self.value.m as int),
                    lc_eval(other.lc.terms@, inp, wit, self.value.m as int),
                    self.value.m as int,
                ),
    {
        let m = self.value.m;
        let r = Fq { value: self.value.add(&other.value), lc: self.lc.plus(&other.lc) };
        proof {
            assert forall|inp: Seq<Scalar>, wit: Seq<Scalar>|
                #[trigger] lc_eval(r.lc.terms@, inp, wit, m as int) == fadd(
                    lc_eval(self.lc.terms@, inp, wit, m as int),
                    lc_eval(other.lc.terms@, inp, wit, m as int),
                    m as int,
                ) by {
                lemma_eval_concat(self.lc.terms@, other.lc.terms@, inp, wit, m as int);
            }
        }
        r
    }

    /// Free subtraction: the subtrahend's combination is rescaled by
    /// `m - 1` and concatenated.
    pub fn sub(&self, other: &Fq) -> (r: Fq)
        requires
            self.wf_free(),
            other.wf_free(),
            self.value.m == other.value.m,
        ensures
            r.wf_free(),
            r.value.valid(),
            r.value.m == self.value.m,
            r.value.n == fsub(self.value.n as int, other.value.n as int, self.value.m as int),
            forall|cs: Backend|
                self.wf(&cs) && other.wf(&cs) ==> #[trigger] r.wf(&cs),
            forall|inp: Seq<Scalar>, wit: Seq<Scalar>|
                #[trigger] lc_eval(r.lc.terms@, inp, wit, self.value.m as int) == fsub(
                    lc_eval(self.lc.terms@, inp, wit, self.value.m as int),
                    lc_eval(other.lc.terms@, inp, wit, self.value.m as int),
                    self.value.m as int,
                ),
    {
        let m = self.value.m;
        let negated = other.negate();
        let r = self.add(&negated);
        proof {
            let a = self.value.n as int;
            let b = other.value.n as int;
            // adding the reduced negation equals one direct reduction
            lemma_add_mod_noop_right(a, m as int - b, m as int);
            assert forall|inp: Seq<Scalar>, wit: Seq<Scalar>|
                #[trigger] lc_eval(r.lc.terms@, inp, wit, m as int) == fsub(
                    lc_eval(self.lc.terms@, inp, wit, m as int),
                    lc_eval(other.lc.terms@, inp, wit, m as int),
                    m as int,
                ) by {
                lemma_eval_bound(other.lc.terms@, inp, wit, m as int);
                lemma_add_mod_noop_right(
                    lc_eval(self.lc.terms@, inp, wit, m as int),
                    m as int - lc_eval(other.lc.terms@, inp, wit, m as int),
                    m as int,
                );
            }
        }
        r
    }

    /// Free negation: the combination rescaled by `m - 1`.
    pub fn negate(&self) -> (r: Fq)
        requires
            self.wf_free(),
        ensures
            r.wf_free(),
            r.value.valid(),
            r.value.m == self.value.m,
            r.value.n == fneg(self.value.n as int, self.value.m as int),
            forall|cs: Backend| self.wf(&cs) ==> #[trigger] r.wf(&cs),
            forall|inp: Seq<Scalar>, wit: Seq<Scalar>|
                #[trigger] lc_eval(r.lc.terms@, inp, wit, self.value.m as int) == fneg(
                    lc_eval(self.lc.terms@, inp, wit, self.value.m as int),
                    self.value.m as int,
                ),
    {
        let m = self.value.m;
        let minus_one = Scalar { n: m - 1, m };
        let r = Fq { value: self.value.negate(), lc: self.lc.scaled(&minus_one) };
        proof {
            assert forall|inp: Seq<Scalar>, wit: Seq<Scalar>|
                #[trigger] lc_eval(r.lc.terms@, inp, wit, m as int) == fneg(
                    lc_eval(self.lc.terms@, inp, wit, m as int),
                    m as int,
                ) by {
                lemma_eval_scaled(self.lc.terms@, r.lc.terms@, (m - 1) as int, inp, wit, m as int);
                lemma_eval_bound(self.lc.terms@, inp, wit, m as int);
                lemma_scale_by_minus_one(lc_eval(self.lc.terms@, inp, wit, m as int), m as int);
            }
        }
        r
    }

    /// Free multiplication by a circuit constant: every coefficient of the
    /// combination is rescaled.
    pub fn mul_by_constant(&self, coeff: Scalar) -> (r: Fq)
        requires
            self.wf_free(),
            coeff.valid(),
            coeff.m == self.value.m,
        ensures
            r.wf_free(),
            r.value.valid(),
            r.value.m == self.value.m,
            r.value.n == fmul(self.value.n as int, coeff.n as int, self.value.m as int),
            forall|cs: Backend| self.wf(&cs) ==> #[trigger] r.wf(&cs),
            forall|inp: Seq<Scalar>, wit: Seq<Scalar>|
                #[trigger] lc_eval(r.lc.terms@, inp, wit, self.value.m as int) == fmul(
                    lc_eval(self.lc.terms@, inp, wit, self.value.m as int),
                    coeff.n as int,
                    self.value.m as int,
                ),
    {
        let r = Fq { value: self.value.mul(&coeff), lc: self.lc.scaled(&coeff) };
        proof {
            let m = self.value.m as int;
            assert forall|inp: Seq<Scalar>, wit: Seq<Scalar>|
                #[trigger] lc_eval(r.lc.terms@, inp, wit, m) == fmul(
                    lc_eval(self.lc.terms@, inp, wit, m),
                    coeff.n as int,
                    m,
                ) by {
                lemma_eval_scaled(self.lc.terms@, r.lc.terms@, coeff.n as int, inp, wit, m);
                lemma_mul_is_commutative(coeff.n as int, lc_eval(self.lc.terms@, inp, wit, m));
            }
        }
        r
    }

    /// Free doubling.
    pub fn double(&self) -> (r: Fq)
        requires
            self.wf_free(),
        ensures
            r.wf_free(),
            r.value.valid(),
            r.value.m == self.value.m,
            r.value.n == fadd(self.value.n as int, self.value.n as int, self.value.m as int),
            forall|cs: Backend| self.wf(&cs) ==> #[trigger] r.wf(&cs),
            forall|inp: Seq<Scalar>, wit: Seq<Scalar>|
                #[trigger] lc_eval(r.lc.terms@, inp, wit, self.value.m as int) == fadd(
                    lc_eval(self.lc.terms@, inp, wit, self.value.m as int),
                    lc_eval(self.lc.terms@, inp, wit, self.value.m as int),
                    self.value.m as int,
                ),
    {
        self.add(self)
    }

    /// Constrained multiplication: allocates one wire for the product and
    /// emits the single constraint `self * other = product`.
    pub fn mul(&self, cs: &mut Backend, other: &Fq) -> (r: Fq)
        requires
            old(cs).wf(),
            self.wf(old(cs)),
            other.wf(old(cs)),
        ensures
            final(cs).wf(),
            final(cs).extends(old(cs)),
            final(cs).inputs@ == old(cs).inputs@,
            final(cs).witnesses@.len() == old(cs).witnesses@.len() + 1,
            final(cs).constraints@.len() == old(cs).constraints@.len() + 1,
            final(cs).satisfied() <==> old(cs).satisfied(),
            r.wf(final(cs)),
            r.value.m == self.value.m,
            r.value.n == fmul(self.value.n as int, other.value.n as int, self.value.m as int),
            forall|inp: Seq<Scalar>, wit: Seq<Scalar>|
                #[trigger] constraints_hold(
                    final(cs).constraints@,
                    inp,
                    wit,
                    self.value.m as int,
                ) ==> lc_eval(r.lc.terms@, inp, wit, self.value.m as int) == fmul(
                    lc_eval(self.lc.terms@, inp, wit, self.value.m as int),
                    lc_eval(other.lc.terms@, inp, wit, self.value.m as int),
                    self.value.m as int,
                ),
    {
        let ghost mi = self.value.m as int;
        let product = self.value.mul(&other.value);
        let out = Fq::alloc_witness(cs, product);
        proof {
            self.lemma_wf_extend(old(cs), cs);
            other.lemma_wf_extend(old(cs), cs);
        }
        let ghost mid = *cs;
        cs.enforce(&self.lc, &other.lc, &out.lc);
        proof {
            self.lemma_wf_extend(&mid, cs);
            other.lemma_wf_extend(&mid, cs);
            out.lemma_wf_extend(&mid, cs);
            assert forall|inp: Seq<Scalar>, wit: Seq<Scalar>|
                #[trigger] constraints_hold(cs.constraints@, inp, wit, mi) implies lc_eval(
                out.lc.terms@,
                inp,
                wit,
                mi,
            ) == fmul(
                lc_eval(self.lc.terms@, inp, wit, mi),
                lc_eval(other.lc.terms@, inp, wit, mi),
                mi,
            ) by {
                let k = cs.constraints@.len() - 1;
                assert(constraint_holds(cs.constraints@[k], inp, wit, mi));
                assert(cs.constraints@[k] == cs.constraints@.last());
            }
        }
        out
    }

    /// Constrained squaring: one wire, one constraint.
    pub fn square(&self, cs: &mut Backend) -> (r: Fq)
        requires
            old(cs).wf(),
            self.wf(old(cs)),
        ensures
            final(cs).wf(),
            final(cs).extends(old(cs)),
            final(cs).inputs@ == old(cs).inputs@,
            final(cs).witnesses@.len() == old(cs).witnesses@.len() + 1,
            final(cs).constraints@.len() == old(cs).constraints@.len() + 1,
            final(cs).satisfied() <==> old(cs).satisfied(),
            r.wf(final(cs)),
            r.value.m == self.value.m,
            r.value.n == fmul(self.value.n as int, self.value.n as int, self.value.m as int),
            forall|inp: Seq<Scalar>, wit: Seq<Scalar>|
                #[trigger] constraints_hold(
                    final(cs).constraints@,
                    inp,
                    wit,
                    self.value.m as int,
                ) ==> lc_eval(r.lc.terms@, inp, wit, self.value.m as int) == fmul(
                    lc_eval(self.lc.terms@, inp, wit, self.value.m as int),
                    lc_eval(self.lc.terms@, inp, wit, self.value.m as int),
                    self.value.m as int,
                ),
    {
        self.mul(cs, self)
    }

    /// Constrained squaring, under its shorter synonym.
    pub fn sqr(&self, cs: &mut Backend) -> (r: Fq)
        requires
            old(cs).wf(),
            self.wf(old(cs)),
        ensures
            final(cs).wf(),
            final(cs).extends(old(cs)),
            final(cs).inputs@ == old(cs).inputs@,
            final(cs).witnesses@.len() == old(cs).witnesses@.len() + 1,
            final(cs).constraints@.len() == old(cs).constraints@.len() + 1,
            final(cs).satisfied() <==> old(cs).satisfied(),
            r.wf(final(cs)),
            r.value.m == self.value.m,
            r.value.n == fmul(self.value.n as int, self.value.n as int, self.value.m as int),
    {
        self.square(cs)
    }

    /// Constrained inversion.  On the additive identity (or any residue
    /// sharing a factor with the modulus) nothing is allocated or emitted
    /// and the result is absent; otherwise one wire carries the inverse and
    /// the single constraint `self * inverse = 1` binds it.
    pub fn inverse(&self, cs: &mut Backend) -> (r: Option<Fq>)
        requires
            old(cs).wf(),
            self.wf(old(cs)),
        ensures
            final(cs).wf(),
            final(cs).extends(old(cs)),
            final(cs).inputs@ == old(cs).inputs@,
            final(cs).satisfied() <==> old(cs).satisfied(),
            r is Some <==> crate::scalar::euclid_gcd(
                self.value.m as nat,
                self.value.n as nat,
            ) == 1,
            self.value.n == 0 ==> r is None,
            r is None ==> *final(cs) == *old(cs),
            match r {
                Some(x) => {
                    &&& x.wf(final(cs))
                    &&& x.value.m == self.value.m
                    &&& fmul(self.value.n as int, x.value.n as int, self.value.m as int) == 1
                    &&& final(cs).witnesses@.len() == old(cs).witnesses@.len() + 1
                    &&& final(cs).constraints@.len() == old(cs).constraints@.len() + 1
                    &&& forall|inp: Seq<Scalar>, wit: Seq<Scalar>|
                        #[trigger] constraints_hold(
                            final(cs).constraints@,
                            inp,
                            wit,
                            self.value.m as int,
                        ) ==> fmul(
                            lc_eval(self.lc.terms@, inp, wit, self.value.m as int),
                            lc_eval(x.lc.terms@, inp, wit, self.value.m as int),
                            self.value.m as int,
                        ) == 1
                },
                None => true,
            },
    {
        let m = self.value.m;
        match self.value.inverse() {
            None => None,
            Some(inv_value) => {
                let out = Fq::alloc_witness(cs, inv_value);
                proof {
                    self.lemma_wf_extend(old(cs), cs);
                }
                let one_lc = LinearCombination::from_wire(Wire::One, m);
                let ghost mid = *cs;
                cs.enforce(&self.lc, &out.lc, &one_lc);
                proof {
                    self.lemma_wf_extend(&mid, cs);
                    out.lemma_wf_extend(&mid, cs);
                    lemma_eval_single(one_lc.terms@, cs.inputs@, cs.witnesses@, m as int);
                    lemma_small_mod(1nat, m as nat);
                    assert(lc_eval(one_lc.terms@, cs.inputs@, cs.witnesses@, m as int) == 1);
                    assert(lc_eval(self.lc.terms@, cs.inputs@, cs.witnesses@, m as int)
                        == self.value.n as int);
                    assert((self.value.n as int * out.value.n as int) % (m as int) == 1);
                    assert forall|inp: Seq<Scalar>, wit: Seq<Scalar>|
                        #[trigger] constraints_hold(cs.constraints@, inp, wit, m as int)
                            implies fmul(
                        lc_eval(self.lc.terms@, inp, wit, m as int),
                        lc_eval(out.lc.terms@, inp, wit, m as int),
                        m as int,
                    ) == 1 by {
                        let k = cs.constraints@.len() - 1;
                        assert(constraint_holds(cs.constraints@[k], inp, wit, m as int));
                        assert(cs.constraints@[k] == cs.constraints@.last());
                        lemma_eval_single(one_lc.terms@, inp, wit, m as int);
                    }
                }
                Some(out)
            },
        }
    }

    /// Emits the constraint `self * other = result` against an existing
    /// result gadget: no allocation, exactly one constraint.
    pub fn enforce_mul(&self, cs: &mut Backend, other: &Fq, result: &Fq)
        requires
            old(cs).wf(),
            self.wf(old(cs)),
            other.wf(old(cs)),
            result.wf(old(cs)),
        ensures
            final(cs).wf(),
            final(cs).extends(old(cs)),
            final(cs).inputs@ == old(cs).inputs@,
            final(cs).witnesses@ == old(cs).witnesses@,
            final(cs).constraints@.len() == old(cs).constraints@.len() + 1,
            final(cs).satisfied() <==> old(cs).satisfied() && fmul(
                self.value.n as int,
                other.value.n as int,
                self.value.m as int,
            ) == result.value.n,
            forall|inp: Seq<Scalar>, wit: Seq<Scalar>|
                #[trigger] constraints_hold(
                    final(cs).constraints@,
                    inp,
                    wit,
                    self.value.m as int,
                ) ==> fmul(
                    lc_eval(self.lc.terms@, inp, wit, self.value.m as int),
                    lc_eval(other.lc.terms@, inp, wit, self.value.m as int),
                    self.value.m as int,
                ) == lc_eval(result.lc.terms@, inp, wit, self.value.m as int),
    {
        let ghost mi = self.value.m as int;
        cs.enforce(&self.lc, &other.lc, &result.lc);
        proof {
            assert forall|inp: Seq<Scalar>, wit: Seq<Scalar>|
                #[trigger] constraints_hold(cs.constraints@, inp, wit, mi) implies fmul(
                lc_eval(self.lc.terms@, inp, wit, mi),
                lc_eval(other.lc.terms@, inp, wit, mi),
                mi,
            ) == lc_eval(result.lc.terms@, inp, wit, mi) by {
                let k = cs.constraints@.len() - 1;
                assert(constraint_holds(cs.constraints@[k], inp, wit, mi));
                assert(cs.constraints@[k] == cs.constraints@.last());
            }
        }
    }

    /// Emits the constraint `self * self = result` against an existing
    /// result gadget.
    pub fn enforce_sqr(&self, cs: &mut Backend, result: &Fq)
        requires
            old(cs).wf(),
            self.wf(old(cs)),
            result.wf(old(cs)),
        ensures
            final(cs).wf(),
            final(cs).extends(old(cs)),
            final(cs).inputs@ == old(cs).inputs@,
            final(cs).witnesses@ == old(cs).witnesses@,
            final(cs).constraints@.len() == old(cs).constraints@.len() + 1,
            final(cs).satisfied() <==> old(cs).satisfied() && fmul(
                self.value.n as int,
                self.value.n as int,
                self.value.m as int,
            ) == result.value.n,
            forall|inp: Seq<Scalar>, wit: Seq<Scalar>|
                #[trigger] constraints_hold(
                    final(cs).constraints@,
                    inp,
                    wit,
                    self.value.m as int,
                ) ==> fmul(
                    lc_eval(self.lc.terms@, inp, wit, self.value.m as int),
                    lc_eval(self.lc.terms@, inp, wit, self.value.m as int),
                    self.value.m as int,
                ) == lc_eval(result.lc.terms@, inp, wit, self.value.m as int),
    {
        self.enforce_mul(cs, self, result);
    }
}

} // verus!
