//! Base-field scalar arithmetic over small moduli.

use field_gadgets::fp2::Fp2;
use field_gadgets::fp2::Fp2Parameters;
use field_gadgets::scalar::Scalar;

#[test]
fn scalar_field_operations() {
    let m: u64 = 13;
    let a = Scalar::new(9, m);
    let b = Scalar::new(7, m);
    assert_eq!(a.add(&b).n, 3);
    assert_eq!(a.sub(&b).n, 2);
    assert_eq!(b.sub(&a).n, 11);
    assert_eq!(a.negate().n, 4);
    assert_eq!(Scalar::zero(m).negate().n, 0);
    assert_eq!(a.mul(&b).n, 11);
    assert_eq!(a.square().n, 3);
    assert_eq!(a.double().n, 5);
    assert_eq!(Scalar::new(29, m).n, 3);
}

#[test]
fn scalar_inverse_of_zero_is_absent() {
    assert!(Scalar::zero(13).inverse().is_none());
}

#[test]
fn scalar_inverse_needs_coprimality() {
    // 4 shares the factor 4 with the modulus 12
    assert!(Scalar::new(4, 12).inverse().is_none());
    // 5 is coprime with 12: 5 * 5 == 25 == 1 mod 12
    let inv = Scalar::new(5, 12).inverse().expect("5 is invertible");
    assert_eq!(inv.n, 5);
}

#[test]
fn scalar_inverse_in_prime_field() {
    let m: u64 = 13;
    for n in 1..m {
        let x = Scalar::new(n, m);
        let inv = x.inverse().expect("nonzero in a prime field");
        assert_eq!(x.mul(&inv).n, 1);
        let back = inv.inverse().expect("the inverse is nonzero");
        assert_eq!(back.n, n);
    }
}

#[test]
fn scalar_inverse_large_modulus() {
    // the largest prime below 2^64
    let m: u64 = 18446744073709551557;
    let x = Scalar::new(123456789123456789, m);
    let inv = x.inverse().expect("nonzero in a prime field");
    assert_eq!(x.mul(&inv).n, 1);
}

#[test]
fn fp2_value_inverse_formula() {
    let m: u64 = 13;
    let params = Fp2Parameters {
        nonresidue: Scalar::new(2, m),
        quadratic_nonresidue: (Scalar::new(1, m), Scalar::new(1, m)),
        frobenius_coeff: [Scalar::new(1, m), Scalar::new(12, m)],
    };
    let b = Fp2::new(Scalar::new(4, m), Scalar::new(1, m));
    let inv = b.inverse(&params).expect("b is nonzero");
    assert_eq!(inv, Fp2::new(Scalar::new(4, m), Scalar::new(12, m)));

    let zero = Fp2::new(Scalar::zero(m), Scalar::zero(m));
    assert!(zero.is_zero());
    assert!(zero.inverse(&params).is_none());

    // multiplying a constant by the nonresidue
    assert_eq!(params.mul_fp_by_nonresidue(&Scalar::new(7, m)).n, 1);
}
