//! Field-arithmetic gadgets for rank-1 constraint systems.
//!
//! A gadget pairs a concrete field element with the symbolic linear
//! combination of circuit wires that must evaluate to it once the circuit
//! is assigned.  Linear operations recombine linear combinations for free;
//! multiplicative operations allocate fresh wires and emit the minimal set
//! of `A * B = C` constraints that bind them.

pub mod backend;
pub mod fp2;
pub mod fq;
pub mod fq2;
pub mod gadget;
pub mod laws;
pub mod linear;
pub mod scalar;

pub use backend::Backend;
pub use fp2::Fp2;
pub use fp2::Fp2Parameters;
pub use fq::Fq;
pub use fq2::Fq2;
pub use gadget::Field;
pub use gadget::FieldExtension;
pub use gadget::Gadget;
pub use linear::LinearCombination;
pub use linear::Term;
pub use linear::Wire;
pub use scalar::Scalar;
