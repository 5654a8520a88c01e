//! The capability surface shared by every field gadget, so that circuits
//! can be written once over any of them.
//!
//! `Gadget` is the allocation shim: a uniform way to read a gadget's
//! plain value and to allocate one from a value, as a private witness or
//! a public input.  `Field` adds the algebra: free linear operations and
//! constrained multiplicative ones.  `FieldExtension` adds what only an
//! extension field has.  The trait contracts promise well-formedness,
//! backend growth and satisfaction preservation for any implementation;
//! each implementation's own methods say the exact values and counts.

use crate::backend::Backend;
use crate::fp2::{Fp2, Fp2Parameters};
use crate::fq::Fq;
use crate::fq2::Fq2;
use crate::scalar::Scalar;
use vstd::prelude::*;

verus! {

/// A value-carrying circuit gadget: a plain value of some field, bound to
/// wires of the backend.
pub trait Gadget: Sized {
    /// The plain value the gadget carries.
    type Value;

    /// The configuration a gadget of this kind is built against: the
    /// modulus for a base-field gadget, the extension parameters for an
    /// extension gadget.
    type Config: Copy;

    /// The gadget invariant against a backend state.
    spec fn gwf(&self, cs: &Backend) -> bool;

    /// The carried value, at the specification level.
    spec fn gval(&self) -> Self::Value;

    /// The configuration this gadget was built against.
    spec fn cfg_of(&self) -> Self::Config;

    /// The configuration is internally consistent.
    spec fn cfg_wf(cfg: Self::Config) -> bool;

    /// The modulus of the field the configuration describes.
    spec fn cfg_modulus(cfg: Self::Config) -> u64;

    /// The value is a reduced element of the configured field.
    spec fn val_ok(v: Self::Value, cfg: Self::Config) -> bool;

    /// The carried value.
    fn value(&self) -> (r: Self::Value)
        ensures
            r == self.gval(),
    ;

    /// Allocates a fresh private witness wire (or wires) holding `v`.
    fn alloc_witness(cs: &mut Backend, v: Self::Value, cfg: Self::Config) -> (r: Self)
        requires
            old(cs).wf(),
            Self::cfg_wf(cfg),
            Self::val_ok(v, cfg),
            Self::cfg_modulus(cfg) == old(cs).modulus,
        ensures
            final(cs).wf(),
            final(cs).extends(old(cs)),
            final(cs).inputs@ == old(cs).inputs@,
            final(cs).constraints@ == old(cs).constraints@,
            final(cs).satisfied() <==> old(cs).satisfied(),
            r.gwf(final(cs)),
            r.gval() == v,
            r.cfg_of() == cfg,
    ;

    /// Allocates a fresh public input wire (or wires) holding `v`.
    fn alloc_input(cs: &mut Backend, v: Self::Value, cfg: Self::Config) -> (r: Self)
        requires
            old(cs).wf(),
            Self::cfg_wf(cfg),
            Self::val_ok(v, cfg),
            Self::cfg_modulus(cfg) == old(cs).modulus,
        ensures
            final(cs).wf(),
            final(cs).extends(old(cs)),
            final(cs).witnesses@ == old(cs).witnesses@,
            final(cs).constraints@ == old(cs).constraints@,
            final(cs).satisfied() <==> old(cs).satisfied(),
            r.gwf(final(cs)),
            r.gval() == v,
            r.cfg_of() == cfg,
    ;
}

/// A gadget whose values form a field: free linear recombination and
/// constrained multiplication, squaring and inversion.
pub trait Field: Gadget {
    /// The backend-independent part of the invariant, enough for the
    /// free operations.
    spec fn free_wf(&self) -> bool;

    /// Both gadgets compute in the same configured field.
    spec fn compat(&self, other: &Self) -> bool;

    /// The additive identity: free.
    fn zero(cfg: Self::Config) -> (r: Self)
        requires
            Self::cfg_wf(cfg),
        ensures
            r.free_wf(),
            r.cfg_of() == cfg,
            forall|cs: Backend|
                cs.modulus == Self::cfg_modulus(cfg) && cs.wf() ==> #[trigger] r.gwf(&cs),
    ;

    /// The multiplicative identity, over the constant-one wire: free.
    fn one(cfg: Self::Config) -> (r: Self)
        requires
            Self::cfg_wf(cfg),
        ensures
            r.free_wf(),
            r.cfg_of() == cfg,
            forall|cs: Backend|
                cs.modulus == Self::cfg_modulus(cfg) && cs.wf() ==> #[trigger] r.gwf(&cs),
    ;

    /// Free addition.
    fn add(&self, other: &Self) -> (r: Self)
        requires
            self.free_wf(),
            other.free_wf(),
            self.compat(other),
        ensures
            r.free_wf(),
            self.compat(&r),
            forall|cs: Backend| self.gwf(&cs) && other.gwf(&cs) ==> #[trigger] r.gwf(&cs),
    ;

    /// Free subtraction.
    fn sub(&self, other: &Self) -> (r: Self)
        requires
            self.free_wf(),
            other.free_wf(),
            self.compat(other),
        ensures
            r.free_wf(),
            self.compat(&r),
            forall|cs: Backend| self.gwf(&cs) && other.gwf(&cs) ==> #[trigger] r.gwf(&cs),
    ;

    /// Free negation.
    fn negate(&self) -> (r: Self)
        requires
            self.free_wf(),
        ensures
            r.free_wf(),
            self.compat(&r),
            forall|cs: Backend| self.gwf(&cs) ==> #[trigger] r.gwf(&cs),
    ;

    /// Free doubling.
    fn double(&self) -> (r: Self)
        requires
            self.free_wf(),
        ensures
            r.free_wf(),
            self.compat(&r),
            forall|cs: Backend| self.gwf(&cs) ==> #[trigger] r.gwf(&cs),
    ;

    /// Free multiplication by a base-field circuit constant.
    fn mul_by_constant(&self, c: Scalar) -> (r: Self)
        requires
            self.free_wf(),
            c.valid(),
            c.m == Self::cfg_modulus(self.cfg_of()),
        ensures
            r.free_wf(),
            self.compat(&r),
            forall|cs: Backend| self.gwf(&cs) ==> #[trigger] r.gwf(&cs),
    ;

    /// Constrained multiplication.
    fn mul(&self, cs: &mut Backend, other: &Self) -> (r: Self)
        requires
            old(cs).wf(),
            self.gwf(old(cs)),
            other.gwf(old(cs)),
            self.compat(other),
        ensures
            final(cs).wf(),
            final(cs).extends(old(cs)),
            final(cs).inputs@ == old(cs).inputs@,
            final(cs).satisfied() <==> old(cs).satisfied(),
            r.gwf(final(cs)),
            self.compat(&r),
    ;

    /// Constrained squaring.
    fn square(&self, cs: &mut Backend) -> (r: Self)
        requires
            old(cs).wf(),
            self.gwf(old(cs)),
        ensures
            final(cs).wf(),
            final(cs).extends(old(cs)),
            final(cs).inputs@ == old(cs).inputs@,
            final(cs).satisfied() <==> old(cs).satisfied(),
            r.gwf(final(cs)),
            self.compat(&r),
    ;

    /// Constrained inversion; absent on values with no inverse, with the
    /// backend left untouched.
    fn inverse(&self, cs: &mut Backend) -> (r: Option<Self>)
        requires
            old(cs).wf(),
            self.gwf(old(cs)),
        ensures
            final(cs).wf(),
            final(cs).extends(old(cs)),
            final(cs).inputs@ == old(cs).inputs@,
            final(cs).satisfied() <==> old(cs).satisfied(),
            r is None ==> *final(cs) == *old(cs),
            match r {
                Some(x) => x.gwf(final(cs)) && self.compat(&x),
                None => true,
            },
    ;

    /// Emits the multiplication checks against an existing claimed
    /// result.
    fn enforce_mul(&self, cs: &mut Backend, other: &Self, result: &Self)
        requires
            old(cs).wf(),
            self.gwf(old(cs)),
            other.gwf(old(cs)),
            result.gwf(old(cs)),
            self.compat(other),
            self.compat(result),
        ensures
            final(cs).wf(),
            final(cs).extends(old(cs)),
            final(cs).inputs@ == old(cs).inputs@,
    ;

    /// Emits the squaring checks against an existing claimed result.
    fn enforce_square(&self, cs: &mut Backend, result: &Self)
        requires
            old(cs).wf(),
            self.gwf(old(cs)),
            result.gwf(old(cs)),
            self.compat(result),
        ensures
            final(cs).wf(),
            final(cs).extends(old(cs)),
            final(cs).inputs@ == old(cs).inputs@,
    ;
}

/// A field gadget built as an extension of the base field.
pub trait FieldExtension: Field {
    /// The Frobenius endomorphism: free.
    fn frobenius_map(&self, power: usize) -> (r: Self)
        requires
            self.free_wf(),
        ensures
            r.free_wf(),
            self.compat(&r),
            forall|cs: Backend| self.gwf(&cs) ==> #[trigger] r.gwf(&cs),
    ;

    /// Free multiplication by the extension's nonresidue.
    fn mul_by_non_residue(&self) -> (r: Self)
        requires
            self.free_wf(),
        ensures
            r.free_wf(),
            self.compat(&r),
            forall|cs: Backend| self.gwf(&cs) ==> #[trigger] r.gwf(&cs),
    ;

    /// Free multiplication by a base-field element.
    fn mul_by_fp(&self, fp: &Scalar) -> (r: Self)
        requires
            self.free_wf(),
            fp.valid(),
            fp.m == Self::cfg_modulus(self.cfg_of()),
        ensures
            r.free_wf(),
            self.compat(&r),
            forall|cs: Backend| self.gwf(&cs) ==> #[trigger] r.gwf(&cs),
    ;
}

impl Gadget for Fq {
    type Value = Scalar;

    type Config = u64;

    open spec fn gwf(&self, cs: &Backend) -> bool {
        self.wf(cs)
    }

    open spec fn gval(&self) -> Scalar {
        self.value
    }

    open spec fn cfg_of(&self) -> u64 {
        self.value.m
    }

    open spec fn cfg_wf(cfg: u64) -> bool {
        2 <= cfg
    }

    open spec fn cfg_modulus(cfg: u64) -> u64 {
        cfg
    }

    open spec fn val_ok(v: Scalar, cfg: u64) -> bool {
        v.valid() && v.m == cfg
    }

    fn value(&self) -> Scalar {
        Fq::value(self)
    }

    fn alloc_witness(cs: &mut Backend, v: Scalar, cfg: u64) -> Fq {
        Fq::alloc_witness(cs, v)
    }

    fn alloc_input(cs: &mut Backend, v: Scalar, cfg: u64) -> Fq {
        Fq::alloc_input(cs, v)
    }
}

impl Field for Fq {
    open spec fn free_wf(&self) -> bool {
        self.wf_free()
    }

    open spec fn compat(&self, other: &Fq) -> bool {
        self.value.m == other.value.m
    }

    fn zero(cfg: u64) -> Fq {
        Fq::zero(cfg)
    }

    fn one(cfg: u64) -> Fq {
        Fq::one(cfg)
    }

    fn add(&self, other: &Fq) -> Fq {
        Fq::add(self, other)
    }

    fn sub(&self, other: &Fq) -> Fq {
        Fq::sub(self, other)
    }

    fn negate(&self) -> Fq {
        Fq::negate(self)
    }

    fn double(&self) -> Fq {
        Fq::double(self)
    }

    fn mul_by_constant(&self, c: Scalar) -> Fq {
        Fq::mul_by_constant(self, c)
    }

    fn mul(&self, cs: &mut Backend, other: &Fq) -> Fq {
        Fq::mul(self, cs, other)
    }

    fn square(&self, cs: &mut Backend) -> Fq {
        Fq::square(self, cs)
    }

    fn inverse(&self, cs: &mut Backend) -> Option<Fq> {
        Fq::inverse(self, cs)
    }

    fn enforce_mul(&self, cs: &mut Backend, other: &Fq, result: &Fq) {
        Fq::enforce_mul(self, cs, other, result)
    }

    fn enforce_square(&self, cs: &mut Backend, result: &Fq) {
        Fq::enforce_sqr(self, cs, result)
    }
}

impl Gadget for Fq2 {
    type Value = Fp2;

    type Config = Fp2Parameters;

    open spec fn gwf(&self, cs: &Backend) -> bool {
        self.wf(cs)
    }

    open spec fn gval(&self) -> Fp2 {
        self.value_spec()
    }

    open spec fn cfg_of(&self) -> Fp2Parameters {
        self.params
    }

    open spec fn cfg_wf(cfg: Fp2Parameters) -> bool {
        cfg.valid()
    }

    open spec fn cfg_modulus(cfg: Fp2Parameters) -> u64 {
        cfg.modulus()
    }

    open spec fn val_ok(v: Fp2, cfg: Fp2Parameters) -> bool {
        v.valid() && v.c0.m == cfg.modulus()
    }

    fn value(&self) -> Fp2 {
        Fq2::value(self)
    }

    fn alloc_witness(cs: &mut Backend, v: Fp2, cfg: Fp2Parameters) -> Fq2 {
        Fq2::from_fp2_alloc(cs, &v, cfg)
    }

    fn alloc_input(cs: &mut Backend, v: Fp2, cfg: Fp2Parameters) -> Fq2 {
        Fq2::from_fp2_alloc_input(cs, &v, cfg)
    }
}

impl Field for Fq2 {
    open spec fn free_wf(&self) -> bool {
        self.wf_free()
    }

    open spec fn compat(&self, other: &Fq2) -> bool {
        self.params == other.params
    }

    fn zero(cfg: Fp2Parameters) -> Fq2 {
        let m = cfg.nonresidue.m;
        Fq2::new(Fq::zero(m), Fq::zero(m), cfg)
    }

    fn one(cfg: Fp2Parameters) -> Fq2 {
        Fq2::one(cfg)
    }

    fn add(&self, other: &Fq2) -> Fq2 {
        Fq2::add(self, other)
    }

    fn sub(&self, other: &Fq2) -> Fq2 {
        Fq2::sub(self, other)
    }

    fn negate(&self) -> Fq2 {
        Fq2::negate(self)
    }

    fn double(&self) -> Fq2 {
        Fq2::add(self, self)
    }

    fn mul_by_constant(&self, c: Scalar) -> Fq2 {
        Fq2::mul_by_constant(self, c)
    }

    fn mul(&self, cs: &mut Backend, other: &Fq2) -> Fq2 {
        Fq2::mul(self, cs, other)
    }

    fn square(&self, cs: &mut Backend) -> Fq2 {
        Fq2::square(self, cs)
    }

    fn inverse(&self, cs: &mut Backend) -> Option<Fq2> {
        Fq2::inverse(self, cs)
    }

    fn enforce_mul(&self, cs: &mut Backend, other: &Fq2, result: &Fq2) {
        Fq2::enforce_mul(self, cs, other, result)
    }

    fn enforce_square(&self, cs: &mut Backend, result: &Fq2) {
        Fq2::enforce_mul(self, cs, self, result)
    }
}

impl FieldExtension for Fq2 {
    fn frobenius_map(&self, power: usize) -> Fq2 {
        Fq2::frobenius_map(self, power)
    }

    fn mul_by_non_residue(&self) -> Fq2 {
        let beta = self.params.nonresidue;
        Fq2::mul_by_constant(self, beta)
    }

    fn mul_by_fp(&self, fp: &Scalar) -> Fq2 {
        Fq2::mul_by_constant(self, *fp)
    }
}

} // verus!
