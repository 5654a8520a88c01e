//! Wires, terms and linear combinations: the symbolic side of a gadget.
//!
//! A linear combination is an affine expression over circuit wires.  Its
//! meaning is `lc_eval`, the weighted sum of the assigned wire values
//! modulo the field; every structural operation below comes with the lemma
//! saying what it does to that meaning.

use crate::scalar::Scalar;
use vstd::prelude::*;
#[allow(unused_imports)]
use vstd::arithmetic::div_mod::*;
#[allow(unused_imports)]
use vstd::arithmetic::mul::*;

verus! {

/// A slot of the constraint system: the distinguished constant-one wire, a
/// public input, or a private witness.
#[derive(Clone, Copy, PartialEq, Eq, Structural, Debug)]
pub enum Wire {
    One,
    Input(usize),
    Witness(usize),
}

/// One weighted wire inside a linear combination.
#[derive(Clone, Copy, PartialEq, Eq, Structural, Debug)]
pub struct Term {
    pub wire: Wire,
    pub coeff: Scalar,
}

/// An affine expression over wires: the sum of its terms, where the
/// constant-one wire carries the constant part.
#[derive(Clone, Debug)]
pub struct LinearCombination {
    pub terms: Vec<Term>,
}

/// The wire names a slot that exists under the given counts.
pub open spec fn wire_in_range(w: Wire, n_inputs: int, n_witnesses: int) -> bool {
    match w {
        Wire::One => true,
        Wire::Input(i) => i < n_inputs,
        Wire::Witness(i) => i < n_witnesses,
    }
}

/// The residue assigned to a wire: `1` for the constant wire, else the
/// stored value of the named slot.
pub open spec fn wire_value(w: Wire, inputs: Seq<Scalar>, witnesses: Seq<Scalar>) -> int {
    match w {
        Wire::One => 1,
        Wire::Input(i) => inputs[i as int].n as int,
        Wire::Witness(i) => witnesses[i as int].n as int,
    }
}

/// Every term carries a reduced coefficient of the field `Z_m`.
pub open spec fn lc_coeffs_wf(terms: Seq<Term>, m: u64) -> bool {
    forall|i: int|
        0 <= i < terms.len() ==> {
            &&& (#[trigger] terms[i]).coeff.valid()
            &&& terms[i].coeff.m == m
        }
}

/// Every term carries a reduced coefficient of the field `Z_m` and names an
/// existing wire.
pub open spec fn lc_wf(terms: Seq<Term>, m: u64, n_inputs: int, n_witnesses: int) -> bool {
    &&& lc_coeffs_wf(terms, m)
    &&& forall|i: int|
        0 <= i < terms.len() ==> wire_in_range((#[trigger] terms[i]).wire, n_inputs, n_witnesses)
}

/// The meaning of a linear combination under an assignment: the weighted
/// sum of the wire values, reduced modulo `m`.
pub open spec fn lc_eval(
    terms: Seq<Term>,
    inputs: Seq<Scalar>,
    witnesses: Seq<Scalar>,
    m: int,
) -> int
    decreases terms.len(),
{
    if terms.len() == 0 {
        0
    } else {
        (lc_eval(terms.drop_last(), inputs, witnesses, m) + terms.last().coeff.n * wire_value(
            terms.last().wire,
            inputs,
            witnesses,
        )) % m
    }
}

/// The meaning of a linear combination is a reduced residue.
pub proof fn lemma_eval_bound(terms: Seq<Term>, inputs: Seq<Scalar>, witnesses: Seq<Scalar>, m: int)
    requires
        2 <= m,
    ensures
        0 <= lc_eval(terms, inputs, witnesses, m) < m,
    decreases terms.len(),
{
    if terms.len() == 0 {
    } else {
        lemma_eval_bound(terms.drop_last(), inputs, witnesses, m);
        lemma_mod_bound(
            lc_eval(terms.drop_last(), inputs, witnesses, m) + terms.last().coeff.n * wire_value(
                terms.last().wire,
                inputs,
                witnesses,
            ),
            m,
        );
    }
}

/// The meaning of a one-term combination is its single weighted wire.
pub proof fn lemma_eval_single(
    terms: Seq<Term>,
    inputs: Seq<Scalar>,
    witnesses: Seq<Scalar>,
    m: int,
)
    requires
        2 <= m,
        terms.len() == 1,
    ensures
        lc_eval(terms, inputs, witnesses, m) == (terms[0].coeff.n * wire_value(
            terms[0].wire,
            inputs,
            witnesses,
        )) % m,
{
    assert(terms.drop_last() =~= Seq::<Term>::empty());
    assert(lc_eval(Seq::<Term>::empty(), inputs, witnesses, m) == 0);
}

/// Concatenating linear combinations adds their meanings.
pub proof fn lemma_eval_concat(
    a: Seq<Term>,
    b: Seq<Term>,
    inputs: Seq<Scalar>,
    witnesses: Seq<Scalar>,
    m: int,
)
    requires
        2 <= m,
    ensures
        lc_eval(a + b, inputs, witnesses, m) == (lc_eval(a, inputs, witnesses, m) + lc_eval(
            b,
            inputs,
            witnesses,
            m,
        )) % m,
    decreases b.len(),
{
    lemma_eval_bound(a, inputs, witnesses, m);
    if b.len() == 0 {
        assert(a + b =~= a);
        lemma_small_mod(lc_eval(a, inputs, witnesses, m) as nat, m as nat);
    } else {
        lemma_eval_concat(a, b.drop_last(), inputs, witnesses, m);
        assert((a + b).drop_last() =~= a + b.drop_last());
        assert((a + b).last() == b.last());
        let ea = lc_eval(a, inputs, witnesses, m);
        let eb = lc_eval(b.drop_last(), inputs, witnesses, m);
        let t = b.last().coeff.n * wire_value(b.last().wire, inputs, witnesses);
        // ((ea + eb) % m + t) % m == (ea + eb + t) % m
        lemma_add_mod_noop_right((ea + eb) % m, t, m);
        lemma_add_mod_noop(ea + eb, t, m);
        // (ea + (eb + t) % m) % m == (ea + eb + t) % m
        lemma_add_mod_noop_right(ea, eb + t, m);
    }
}

/// Scaling every coefficient scales the meaning.
pub proof fn lemma_eval_scaled(
    a: Seq<Term>,
    b: Seq<Term>,
    c: int,
    inputs: Seq<Scalar>,
    witnesses: Seq<Scalar>,
    m: int,
)
    requires
        2 <= m,
        b.len() == a.len(),
        forall|i: int|
            0 <= i < a.len() ==> {
                &&& (#[trigger] b[i]).wire == a[i].wire
                &&& b[i].coeff.n == (c * a[i].coeff.n) % m
            },
    ensures
        lc_eval(b, inputs, witnesses, m) == (c * lc_eval(a, inputs, witnesses, m)) % m,
    decreases a.len(),
{
    if a.len() == 0 {
        lemma_small_mod(0nat, m as nat);
        assert(c * 0 == 0) by (nonlinear_arith);
    } else {
        lemma_eval_scaled(a.drop_last(), b.drop_last(), c, inputs, witnesses, m);
        let ea = lc_eval(a.drop_last(), inputs, witnesses, m);
        let w = wire_value(a.last().wire, inputs, witnesses);
        let ac = a.last().coeff.n as int;
        assert(b.last() == b[a.len() - 1]);
        // meaning of b: ((c * ea) % m + ((c * ac) % m) * w) % m
        // target:       (c * ((ea + ac * w) % m)) % m
        lemma_add_mod_noop_right((c * ea) % m, ((c * ac) % m) * w, m);
        lemma_mul_mod_noop_left(c * ac, w, m);
        assert((c * ac) * w == c * (ac * w)) by (nonlinear_arith);
        lemma_add_mod_noop(c * ea, c * (ac * w), m);
        assert(c * ea + c * (ac * w) == c * (ea + ac * w)) by (nonlinear_arith);
        lemma_mul_mod_noop_right(c, ea + ac * w, m);
    }
}

/// Growing the assignment does not change the meaning of a combination
/// whose wires already existed.
pub proof fn lemma_eval_extend(
    terms: Seq<Term>,
    inputs1: Seq<Scalar>,
    witnesses1: Seq<Scalar>,
    inputs2: Seq<Scalar>,
    witnesses2: Seq<Scalar>,
    m: u64,
)
    requires
        lc_wf(terms, m, inputs1.len() as int, witnesses1.len() as int),
        inputs1.is_prefix_of(inputs2),
        witnesses1.is_prefix_of(witnesses2),
    ensures
        lc_eval(terms, inputs2, witnesses2, m as int) == lc_eval(
            terms,
            inputs1,
            witnesses1,
            m as int,
        ),
    decreases terms.len(),
{
    if terms.len() == 0 {
    } else {
        assert(lc_wf(terms.drop_last(), m, inputs1.len() as int, witnesses1.len() as int));
        lemma_eval_extend(terms.drop_last(), inputs1, witnesses1, inputs2, witnesses2, m);
        assert(terms.last() == terms[terms.len() - 1]);
        assert(wire_value(terms.last().wire, inputs2, witnesses2) == wire_value(
            terms.last().wire,
            inputs1,
            witnesses1,
        ));
    }
}

impl LinearCombination {
    /// The empty combination, whose meaning is zero.
    pub fn empty() -> (r: LinearCombination)
        ensures
            r.terms@ =~= Seq::<Term>::empty(),
    {
        LinearCombination { terms: Vec::new() }
    }

    /// The combination `1 * w`.
    pub fn from_wire(w: Wire, m: u64) -> (r: LinearCombination)
        requires
            2 <= m,
        ensures
            r.terms@.len() == 1,
            r.terms@[0].wire == w,
            r.terms@[0].coeff.n == 1,
            r.terms@[0].coeff.m == m,
            r.terms@[0].coeff.valid(),
    {
        let mut terms: Vec<Term> = Vec::new();
        terms.push(Term { wire: w, coeff: Scalar::one(m) });
        LinearCombination { terms }
    }

    /// A copy of this combination, term for term.
    pub fn duplicate(&self) -> (r: LinearCombination)
        ensures
            r.terms@ =~= self.terms@,
    {
        self.plus(&LinearCombination::empty())
    }

    /// The concatenation of two combinations; its meaning is their sum.
    pub fn plus(&self, other: &LinearCombination) -> (r: LinearCombination)
        ensures
            r.terms@ =~= self.terms@ + other.terms@,
    {
        let mut terms: Vec<Term> = Vec::new();
        let mut i: usize = 0;
        while i < self.terms.len()
            invariant
                i <= self.terms.len(),
                terms@ =~= self.terms@.subrange(0, i as int),
            decreases self.terms.len() - i,
        {
            terms.push(self.terms[i]);
            i = i + 1;
        }
        let mut j: usize = 0;
        while j < other.terms.len()
            invariant
                j <= other.terms.len(),
                terms@ =~= self.terms@ + other.terms@.subrange(0, j as int),
            decreases other.terms.len() - j,
        {
            terms.push(other.terms[j]);
            j = j + 1;
        }
        LinearCombination { terms }
    }

    /// The combination with every coefficient multiplied by `c`; its
    /// meaning is `c` times the meaning of `self`.
    pub fn scaled(&self, c: &Scalar) -> (r: LinearCombination)
        requires
            c.valid(),
            lc_coeffs_wf(self.terms@, c.m),
        ensures
            r.terms@.len() == self.terms@.len(),
            forall|i: int|
                0 <= i < self.terms@.len() ==> {
                    &&& (#[trigger] r.terms@[i]).wire == self.terms@[i].wire
                    &&& r.terms@[i].coeff.valid()
                    &&& r.terms@[i].coeff.m == c.m
                    &&& r.terms@[i].coeff.n == (c.n * self.terms@[i].coeff.n) % (c.m as int)
                },
    {
        let mut terms: Vec<Term> = Vec::new();
        let mut i: usize = 0;
        while i < self.terms.len()
            invariant
                i <= self.terms.len(),
                c.valid(),
                lc_coeffs_wf(self.terms@, c.m),
                terms@.len() == i,
                forall|k: int|
                    0 <= k < i ==> {
                        &&& (#[trigger] terms@[k]).wire == self.terms@[k].wire
                        &&& terms@[k].coeff.valid()
                        &&& terms@[k].coeff.m == c.m
                        &&& terms@[k].coeff.n == (c.n * self.terms@[k].coeff.n) % (c.m as int)
                    },
            decreases self.terms.len() - i,
        {
            let t = self.terms[i];
            terms.push(Term { wire: t.wire, coeff: c.mul(&t.coeff) });
            i = i + 1;
        }
        LinearCombination { terms }
    }
}

} // verus!
