//! The circuit backend: wire storage and the growing constraint set.
//!
//! The backend owns the assignment built so far (public inputs and private
//! witnesses) and the rank-1 constraints emitted over it.  Gadget
//! operations append wires and constraints and never read them back;
//! `satisfied` says that every recorded constraint `A * B = C` holds under
//! the stored assignment.  Diagnostic labels and namespace scoping of a
//! production engine are not modeled: the constraint set alone decides
//! satisfaction, and its order never matters for correctness.

use crate::linear::{lc_eval, lc_wf, lemma_eval_extend, wire_in_range, wire_value, LinearCombination, Wire};
use crate::scalar::Scalar;
use vstd::prelude::*;

verus! {

/// One rank-1 constraint: `a * b = c` under the final assignment.
pub struct Constraint {
    pub a: LinearCombination,
    pub b: LinearCombination,
    pub c: LinearCombination,
}

/// The three combinations of the constraint name existing wires and carry
/// reduced coefficients of `Z_m`.
pub open spec fn constraint_wf(k: Constraint, m: u64, n_inputs: int, n_witnesses: int) -> bool {
    &&& lc_wf(k.a.terms@, m, n_inputs, n_witnesses)
    &&& lc_wf(k.b.terms@, m, n_inputs, n_witnesses)
    &&& lc_wf(k.c.terms@, m, n_inputs, n_witnesses)
}

/// The constraint holds under the given assignment.
pub open spec fn constraint_holds(
    k: Constraint,
    inputs: Seq<Scalar>,
    witnesses: Seq<Scalar>,
    m: int,
) -> bool {
    (lc_eval(k.a.terms@, inputs, witnesses, m) * lc_eval(k.b.terms@, inputs, witnesses, m)) % m
        == lc_eval(k.c.terms@, inputs, witnesses, m)
}

/// Every constraint of the list holds under the given assignment.
pub open spec fn constraints_hold(
    ks: Seq<Constraint>,
    inputs: Seq<Scalar>,
    witnesses: Seq<Scalar>,
    m: int,
) -> bool {
    forall|i: int| 0 <= i < ks.len() ==> constraint_holds(#[trigger] ks[i], inputs, witnesses, m)
}

/// An assignment satisfying a longer constraint list satisfies any prefix
/// of it.
pub proof fn lemma_constraints_hold_prefix(
    shorter: Seq<Constraint>,
    longer: Seq<Constraint>,
    inputs: Seq<Scalar>,
    witnesses: Seq<Scalar>,
    m: int,
)
    requires
        shorter.is_prefix_of(longer),
        constraints_hold(longer, inputs, witnesses, m),
    ensures
        constraints_hold(shorter, inputs, witnesses, m),
{
    assert forall|i: int| 0 <= i < shorter.len() implies constraint_holds(
        #[trigger] shorter[i],
        inputs,
        witnesses,
        m,
    ) by {
        assert(shorter[i] == longer[i]);
    }
}

/// The constraint-system backend a circuit is synthesized into.
pub struct Backend {
    pub modulus: u64,
    pub inputs: Vec<Scalar>,
    pub witnesses: Vec<Scalar>,
    pub constraints: Vec<Constraint>,
}

impl Backend {
    /// Stored values are reduced elements of `Z_modulus` and stored
    /// constraints only name wires that exist.
    pub open spec fn wf(&self) -> bool {
        &&& 2 <= self.modulus
        &&& forall|i: int|
            0 <= i < self.inputs@.len() ==> (#[trigger] self.inputs@[i]).valid()
                && self.inputs@[i].m == self.modulus
        &&& forall|i: int|
            0 <= i < self.witnesses@.len() ==> (#[trigger] self.witnesses@[i]).valid()
                && self.witnesses@[i].m == self.modulus
        &&& forall|i: int|
            0 <= i < self.constraints@.len() ==> constraint_wf(
                #[trigger] self.constraints@[i],
                self.modulus,
                self.inputs@.len() as int,
                self.witnesses@.len() as int,
            )
    }

    /// Every recorded constraint holds under the stored assignment.
    pub open spec fn satisfied(&self) -> bool {
        constraints_hold(self.constraints@, self.inputs@, self.witnesses@, self.modulus as int)
    }

    /// The other backend is an earlier state of this one: same field, and
    /// everything it stored is still stored here, in place.
    pub open spec fn extends(&self, earlier: &Backend) -> bool {
        &&& self.modulus == earlier.modulus
        &&& earlier.inputs@.is_prefix_of(self.inputs@)
        &&& earlier.witnesses@.is_prefix_of(self.witnesses@)
        &&& earlier.constraints@.is_prefix_of(self.constraints@)
    }

    /// A fresh backend over `Z_modulus`, with no wires and no constraints.
    pub fn new(modulus: u64) -> (r: Backend)
        requires
            2 <= modulus,
        ensures
            r.wf(),
            r.satisfied(),
            r.modulus == modulus,
            r.inputs@.len() == 0,
            r.witnesses@.len() == 0,
            r.constraints@.len() == 0,
    {
        Backend { modulus, inputs: Vec::new(), witnesses: Vec::new(), constraints: Vec::new() }
    }

    /// The distinguished wire that always carries the scalar `1`.
    pub fn one_wire(&self) -> (r: Wire)
        ensures
            r == Wire::One,
    {
        Wire::One
    }

    /// Allocates a private witness wire holding `value`.
    pub fn alloc_witness(&mut self, value: Scalar) -> (r: Wire)
        requires
            old(self).wf(),
            value.valid(),
            value.m == old(self).modulus,
        ensures
            final(self).wf(),
            final(self).extends(old(self)),
            final(self).modulus == old(self).modulus,
            final(self).inputs@ == old(self).inputs@,
            final(self).witnesses@ == old(self).witnesses@.push(value),
            final(self).constraints@ == old(self).constraints@,
            r == Wire::Witness(old(self).witnesses@.len() as usize),
            wire_in_range(r, final(self).inputs@.len() as int, final(self).witnesses@.len() as int),
            wire_value(r, final(self).inputs@, final(self).witnesses@) == value.n as int,
            final(self).satisfied() <==> old(self).satisfied(),
    {
        let idx = self.witnesses.len();
        self.witnesses.push(value);
        proof {
            self.lemma_grown_assignment(old(self));
        }
        Wire::Witness(idx)
    }

    /// Allocates a public input wire holding `value`.
    pub fn alloc_input(&mut self, value: Scalar) -> (r: Wire)
        requires
            old(self).wf(),
            value.valid(),
            value.m == old(self).modulus,
        ensures
            final(self).wf(),
            final(self).extends(old(self)),
            final(self).modulus == old(self).modulus,
            final(self).inputs@ == old(self).inputs@.push(value),
            final(self).witnesses@ == old(self).witnesses@,
            final(self).constraints@ == old(self).constraints@,
            r == Wire::Input(old(self).inputs@.len() as usize),
            wire_in_range(r, final(self).inputs@.len() as int, final(self).witnesses@.len() as int),
            wire_value(r, final(self).inputs@, final(self).witnesses@) == value.n as int,
            final(self).satisfied() <==> old(self).satisfied(),
    {
        let idx = self.inputs.len();
        self.inputs.push(value);
        proof {
            self.lemma_grown_assignment(old(self));
        }
        Wire::Input(idx)
    }

    /// Records the constraint `a * b = c`.
    pub fn enforce(&mut self, a: &LinearCombination, b: &LinearCombination, c: &LinearCombination)
        requires
            old(self).wf(),
            lc_wf(a.terms@, old(self).modulus, old(self).inputs@.len() as int, old(self).witnesses@.len() as int),
            lc_wf(b.terms@, old(self).modulus, old(self).inputs@.len() as int, old(self).witnesses@.len() as int),
            lc_wf(c.terms@, old(self).modulus, old(self).inputs@.len() as int, old(self).witnesses@.len() as int),
        ensures
            final(self).wf(),
            final(self).extends(old(self)),
            final(self).modulus == old(self).modulus,
            final(self).inputs@ == old(self).inputs@,
            final(self).witnesses@ == old(self).witnesses@,
            final(self).constraints@.len() == old(self).constraints@.len() + 1,
            old(self).constraints@.is_prefix_of(final(self).constraints@),
            final(self).constraints@.last().a.terms@ == a.terms@,
            final(self).constraints@.last().b.terms@ == b.terms@,
            final(self).constraints@.last().c.terms@ == c.terms@,
            final(self).satisfied() <==> old(self).satisfied() && constraint_holds(
                final(self).constraints@.last(),
                old(self).inputs@,
                old(self).witnesses@,
                old(self).modulus as int,
            ),
    {
        let k = Constraint { a: a.duplicate(), b: b.duplicate(), c: c.duplicate() };
        self.constraints.push(k);
        proof {
            let n = self.constraints@.len() - 1;
            assert(forall|i: int|
                0 <= i < n ==> self.constraints@[i] == old(self).constraints@[i]);
            assert(self.satisfied() ==> old(self).satisfied()) by {
                if self.satisfied() {
                    assert(forall|i: int|
                        0 <= i < n ==> constraint_holds(
                            #[trigger] old(self).constraints@[i],
                            self.inputs@,
                            self.witnesses@,
                            self.modulus as int,
                        ));
                }
            }
        }
    }

    /// Two backend growths compose.
    pub proof fn lemma_extends_trans(&self, mid: &Backend, first: &Backend)
        requires
            self.extends(mid),
            mid.extends(first),
        ensures
            self.extends(first),
    {
        assert(first.inputs@.is_prefix_of(self.inputs@));
        assert(first.witnesses@.is_prefix_of(self.witnesses@));
        assert(first.constraints@.is_prefix_of(self.constraints@));
    }

    /// Appending to the assignment keeps well-formedness and the meaning
    /// of every recorded constraint.
    proof fn lemma_grown_assignment(&self, earlier: &Backend)
        requires
            earlier.wf(),
            self.modulus == earlier.modulus,
            earlier.inputs@.is_prefix_of(self.inputs@),
            earlier.witnesses@.is_prefix_of(self.witnesses@),
            self.constraints@ == earlier.constraints@,
            forall|i: int|
                0 <= i < self.inputs@.len() ==> (#[trigger] self.inputs@[i]).valid()
                    && self.inputs@[i].m == self.modulus,
            forall|i: int|
                0 <= i < self.witnesses@.len() ==> (#[trigger] self.witnesses@[i]).valid()
                    && self.witnesses@[i].m == self.modulus,
        ensures
            self.wf(),
            self.satisfied() <==> earlier.satisfied(),
    {
        assert forall|i: int| 0 <= i < self.constraints@.len() implies constraint_wf(
            #[trigger] self.constraints@[i],
            self.modulus,
            self.inputs@.len() as int,
            self.witnesses@.len() as int,
        ) by {
            assert(constraint_wf(
                earlier.constraints@[i],
                earlier.modulus,
                earlier.inputs@.len() as int,
                earlier.witnesses@.len() as int,
            ));
        }
        assert forall|i: int| 0 <= i < self.constraints@.len() implies (constraint_holds(
            #[trigger] self.constraints@[i],
            self.inputs@,
            self.witnesses@,
            self.modulus as int,
        ) <==> constraint_holds(
            earlier.constraints@[i],
            earlier.inputs@,
            earlier.witnesses@,
            earlier.modulus as int,
        )) by {
            let k = self.constraints@[i];
            lemma_eval_extend(
                k.a.terms@,
                earlier.inputs@,
                earlier.witnesses@,
                self.inputs@,
                self.witnesses@,
                self.modulus,
            );
            lemma_eval_extend(
                k.b.terms@,
                earlier.inputs@,
                earlier.witnesses@,
                self.inputs@,
                self.witnesses@,
                self.modulus,
            );
            lemma_eval_extend(
                k.c.terms@,
                earlier.inputs@,
                earlier.witnesses@,
                self.inputs@,
                self.witnesses@,
                self.modulus,
            );
        }
    }
}

} // verus!
