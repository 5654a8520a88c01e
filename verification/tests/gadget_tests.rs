//! Gadget behaviour over a small prime field: the toy field of integers
//! modulo 13 with nonresidue 2.

use field_gadgets::backend::Backend;
use field_gadgets::fp2::Fp2;
use field_gadgets::fp2::Fp2Parameters;
use field_gadgets::fq::Fq;
use field_gadgets::fq2::Fq2;
use field_gadgets::scalar::Scalar;

const M: u64 = 13;

fn toy_params() -> Fp2Parameters {
    Fp2Parameters {
        nonresidue: Scalar::new(2, M),
        quadratic_nonresidue: (Scalar::new(1, M), Scalar::new(1, M)),
        frobenius_coeff: [Scalar::new(1, M), Scalar::new(12, M)],
    }
}

fn fq2_of(c0: u64, c1: u64, cs: &mut Backend) -> Fq2 {
    let value = Fp2::new(Scalar::new(c0, M), Scalar::new(c1, M));
    Fq2::from_fp2_alloc(cs, &value, toy_params())
}

#[test]
fn fq2_test() {
    // the a^2 * b / b == a^2 circuit, synthesized end to end
    let mut cs = Backend::new(M);
    let params = toy_params();
    let a_value = Fp2::new(Scalar::new(3, M), Scalar::new(5, M));
    let b_value = Fp2::new(Scalar::new(4, M), Scalar::new(1, M));
    let a = Fq2::from_fp2_alloc_input(&mut cs, &a_value, params);
    let b = Fq2::from_fp2_alloc_input(&mut cs, &b_value, params);

    let a2 = a.square(&mut cs);
    let a2_b = a2.mul(&mut cs, &b);
    let b_inv = b.inverse(&mut cs);
    assert!(b_inv.is_some());
    let b_inv = b_inv.unwrap();
    let lhs = b_inv.mul(&mut cs, &a2_b);

    assert_eq!(lhs.value(), a2.value());
    a.enforce_mul(&mut cs, &a, &lhs);

    // 2 (square) + 3 (mul) + 2 (inverse) + 3 (mul) + 3 (enforce)
    assert_eq!(cs.constraints.len(), 13);
}

#[test]
fn fp2_mul_concrete_scenario() {
    // (3 + 5u) * (4 + 1u) == 9 + 10u over Z_13 with u^2 = 2
    let mut cs = Backend::new(M);
    let a = fq2_of(3, 5, &mut cs);
    let b = fq2_of(4, 1, &mut cs);
    let constraints_before = cs.constraints.len();

    let product = a.mul(&mut cs, &b);

    assert_eq!(product.value(), Fp2::new(Scalar::new(9, M), Scalar::new(10, M)));
    assert_eq!(cs.constraints.len(), constraints_before + 3);
}

#[test]
fn fp2_division_identity() {
    // b^-1 * b == 1 for the nonzero b = (4, 1)
    let mut cs = Backend::new(M);
    let b = fq2_of(4, 1, &mut cs);
    let b_inv = b.inverse(&mut cs).expect("b is nonzero");
    let product = b_inv.mul(&mut cs, &b);
    assert_eq!(product.value(), Fp2::new(Scalar::new(1, M), Scalar::new(0, M)));
}

#[test]
fn fq_zero_has_no_inverse() {
    let mut cs = Backend::new(M);
    let zero = Fq::zero(M);
    let r = zero.inverse(&mut cs);
    assert!(r.is_none());
    assert_eq!(cs.constraints.len(), 0);
    assert_eq!(cs.witnesses.len(), 0);
}

#[test]
fn fq2_zero_has_no_inverse() {
    let mut cs = Backend::new(M);
    let zero = Fq2::new(Fq::zero(M), Fq::zero(M), toy_params());
    let r = zero.inverse(&mut cs);
    assert!(r.is_none());
    assert_eq!(cs.constraints.len(), 0);
    assert_eq!(cs.witnesses.len(), 0);
}

#[test]
fn fq_inverse_involution() {
    let mut cs = Backend::new(M);
    let x = Fq::alloc_witness(&mut cs, Scalar::new(7, M));
    let y = x.inverse(&mut cs).expect("7 is nonzero");
    let z = y.inverse(&mut cs).expect("the inverse is nonzero");
    assert_eq!(z.value(), x.value());
}

#[test]
fn fq2_inverse_involution() {
    let mut cs = Backend::new(M);
    let x = fq2_of(3, 5, &mut cs);
    let y = x.inverse(&mut cs).expect("x is nonzero");
    let z = y.inverse(&mut cs).expect("the inverse is nonzero");
    assert_eq!(z.value(), x.value());
}

#[test]
fn fp2_square_matches_self_mul_under_composition() {
    // a.square() * b == (a * a) * b at the value level
    let mut cs = Backend::new(M);
    let a = fq2_of(6, 11, &mut cs);
    let b = fq2_of(2, 9, &mut cs);

    let via_square = a.square(&mut cs).mul(&mut cs, &b);
    let via_mul = a.mul(&mut cs, &a).mul(&mut cs, &b);

    assert_eq!(via_square.value(), via_mul.value());
}

#[test]
fn fq_mul_emits_one_constraint_and_one_wire() {
    let mut cs = Backend::new(M);
    let a = Fq::alloc_witness(&mut cs, Scalar::new(3, M));
    let b = Fq::alloc_witness(&mut cs, Scalar::new(4, M));
    let constraints_before = cs.constraints.len();
    let wires_before = cs.witnesses.len();

    let product = a.mul(&mut cs, &b);

    assert_eq!(product.value().n, 12);
    assert_eq!(cs.constraints.len(), constraints_before + 1);
    assert_eq!(cs.witnesses.len(), wires_before + 1);

    let square = a.square(&mut cs);
    assert_eq!(square.value().n, 9);
    assert_eq!(cs.constraints.len(), constraints_before + 2);
    assert_eq!(cs.witnesses.len(), wires_before + 2);

    let sqr = a.sqr(&mut cs);
    assert_eq!(sqr.value().n, 9);

    let inv = a.inverse(&mut cs).expect("3 is nonzero");
    assert_eq!(inv.value().n, 9);  // 3 * 9 == 27 == 1 mod 13
    assert_eq!(cs.constraints.len(), constraints_before + 4);
    assert_eq!(cs.witnesses.len(), wires_before + 4);
}

#[test]
fn linear_operations_are_free() {
    let mut cs = Backend::new(M);
    let a = Fq::alloc_witness(&mut cs, Scalar::new(8, M));
    let b = Fq::alloc_witness(&mut cs, Scalar::new(11, M));
    let constraints_before = cs.constraints.len();
    let wires_before = cs.witnesses.len();

    assert_eq!(a.add(&b).value().n, 6);
    assert_eq!(a.sub(&b).value().n, 10);
    assert_eq!(a.negate().value().n, 5);
    assert_eq!(a.mul_by_constant(Scalar::new(2, M)).value().n, 3);
    assert_eq!(a.double().value().n, 3);

    let a2 = fq2_of(8, 11, &mut cs);
    let b2 = fq2_of(1, 2, &mut cs);
    let wires_mid = cs.witnesses.len();
    assert_eq!(a2.add(&b2).value(), Fp2::new(Scalar::new(9, M), Scalar::new(0, M)));
    assert_eq!(a2.sub(&b2).value(), Fp2::new(Scalar::new(7, M), Scalar::new(9, M)));
    assert_eq!(a2.negate().value(), Fp2::new(Scalar::new(5, M), Scalar::new(2, M)));
    assert_eq!(
        a2.mul_by_constant(Scalar::new(3, M)).value(),
        Fp2::new(Scalar::new(11, M), Scalar::new(7, M))
    );
    let frob = a2.frobenius_map(3);
    assert_eq!(frob.value(), Fp2::new(Scalar::new(8, M), Scalar::new(11 * 12 % M, M)));

    assert_eq!(cs.constraints.len(), constraints_before);
    assert_eq!(cs.witnesses.len(), wires_mid);
    assert_eq!(wires_mid, wires_before + 4);
}

#[test]
fn fp2_square_constraint_count() {
    let mut cs = Backend::new(M);
    let a = fq2_of(3, 5, &mut cs);
    let constraints_before = cs.constraints.len();
    let wires_before = cs.witnesses.len();

    // (3 + 5u)^2 = 9 + 2*25 + 30u = 59 + 30u = 7 + 4u mod 13
    let square = a.square(&mut cs);

    assert_eq!(square.value(), Fp2::new(Scalar::new(7, M), Scalar::new(4, M)));
    assert_eq!(cs.constraints.len(), constraints_before + 2);
    assert_eq!(cs.witnesses.len(), wires_before + 2);
}

#[test]
fn fp2_inverse_constraint_count() {
    let mut cs = Backend::new(M);
    let b = fq2_of(4, 1, &mut cs);
    let constraints_before = cs.constraints.len();

    let b_inv = b.inverse(&mut cs).expect("b is nonzero");

    // norm = 16 - 2 = 14 = 1; inverse = (4, -1) = (4, 12)
    assert_eq!(b_inv.value(), Fp2::new(Scalar::new(4, M), Scalar::new(12, M)));
    assert_eq!(cs.constraints.len(), constraints_before + 2);
}

#[test]
fn enforce_mul_matches_mul() {
    let mut cs = Backend::new(M);
    let a = fq2_of(3, 5, &mut cs);
    let b = fq2_of(4, 1, &mut cs);
    let product = a.mul(&mut cs, &b);
    let constraints_before = cs.constraints.len();
    let wires_before = cs.witnesses.len();

    a.enforce_mul(&mut cs, &b, &product);

    assert_eq!(cs.constraints.len(), constraints_before + 3);
    assert_eq!(cs.witnesses.len(), wires_before + 1);
}

fn square_of_sum<G: field_gadgets::Field>(cs: &mut Backend, x: &G, y: &G) -> G {
    x.add(y).square(cs)
}

#[test]
fn field_trait_polymorphism() {
    let mut cs = Backend::new(M);
    let x = Fq::alloc_witness(&mut cs, Scalar::new(3, M));
    let y = Fq::alloc_witness(&mut cs, Scalar::new(4, M));
    let s = square_of_sum(&mut cs, &x, &y);
    assert_eq!(field_gadgets::Gadget::value(&s).n, 10);

    let a = fq2_of(3, 5, &mut cs);
    let b = fq2_of(4, 1, &mut cs);
    let s2 = square_of_sum(&mut cs, &a, &b);
    // (7 + 6u)^2 = 49 + 2*36 + 84u = 121 + 84u = 4 + 6u mod 13
    assert_eq!(s2.value(), Fp2::new(Scalar::new(4, M), Scalar::new(6, M)));
}

#[test]
fn frobenius_even_power_is_identity_rescale() {
    let mut cs = Backend::new(M);
    let a = fq2_of(8, 11, &mut cs);
    let frob = a.frobenius_map(2);
    assert_eq!(frob.value(), Fp2::new(Scalar::new(8, M), Scalar::new(11, M)));
}

#[test]
fn fq_new_wraps_an_existing_combination() {
    let mut cs = Backend::new(M);
    let lc = field_gadgets::LinearCombination::from_wire(cs.one_wire(), M);
    let one = Fq::new(Scalar::new(1, M), &lc);
    let two = one.double();
    assert_eq!(two.value().n, 2);
}
