//! Laws of the extension-field arithmetic that the gadget contracts
//! speak of: associativity of the product, the multiplicative identity,
//! uniqueness of inverses (hence the involution of inverting twice), and
//! the invertibility of every nonzero element under a prime modulus and a
//! true nonresidue.

use crate::fp2::{fp2_mul_c0, fp2_mul_c1, fp2_norm};
use crate::scalar::{
    euclid_gcd, fmul, is_prime, lemma_inverse_exists, lemma_inverse_unique, lemma_prime_coprime,
};
use vstd::prelude::*;
#[allow(unused_imports)]
use vstd::arithmetic::div_mod::*;
#[allow(unused_imports)]
use vstd::arithmetic::mul::*;

verus! {

/// `beta` is not a square modulo `m`.
pub open spec fn is_nonresidue(beta: int, m: int) -> bool {
    forall|t: int| 0 <= t < m ==> #[trigger] fmul(t, t, m) != beta
}

/// Reducing the right factor of each of two products does not change the
/// reduced sum.
proof fn lemma_two_products_mod(p: int, x: int, q: int, y: int, m: int)
    requires
        2 <= m,
    ensures
        (p * (x % m) + q * (y % m)) % m == (p * x + q * y) % m,
{
    lemma_mul_mod_noop_right(p, x, m);
    lemma_mul_mod_noop_right(q, y, m);
    lemma_add_mod_noop(p * (x % m), q * (y % m), m);
    lemma_add_mod_noop(p * x, q * y, m);
}

/// Reducing the left factor of each of two products does not change the
/// reduced sum.
proof fn lemma_two_products_mod_left(x: int, p: int, y: int, q: int, m: int)
    requires
        2 <= m,
    ensures
        ((x % m) * p + (y % m) * q) % m == (x * p + y * q) % m,
{
    lemma_mul_mod_noop_left(x, p, m);
    lemma_mul_mod_noop_left(y, q, m);
    lemma_add_mod_noop((x % m) * p, (y % m) * q, m);
    lemma_add_mod_noop(x * p, y * q, m);
}

/// Reducing the inner factor under a `beta` wrapper does not change the
/// reduced term-pair sum: both `c0`-shaped sums agree.
proof fn lemma_c0_shape_mod(p: int, x: int, beta: int, q: int, y: int, m: int)
    requires
        2 <= m,
    ensures
        (p * (x % m) + beta * (q * (y % m))) % m == (p * x + beta * (q * y)) % m,
{
    lemma_mul_mod_noop_right(p, x, m);
    lemma_mul_mod_noop_right(q, y, m);
    lemma_mul_mod_noop_right(beta, q * (y % m), m);
    lemma_mul_mod_noop_right(beta, q * y, m);
    lemma_add_mod_noop(p * (x % m), beta * (q * (y % m)), m);
    lemma_add_mod_noop(p * x, beta * (q * y), m);
}

/// The mirrored form, with the reductions on the left factors.
proof fn lemma_c0_shape_mod_left(x: int, p: int, beta: int, y: int, q: int, m: int)
    requires
        2 <= m,
    ensures
        ((x % m) * p + beta * ((y % m) * q)) % m == (x * p + beta * (y * q)) % m,
{
    lemma_mul_mod_noop_left(x, p, m);
    lemma_mul_mod_noop_left(y, q, m);
    lemma_mul_mod_noop_right(beta, (y % m) * q, m);
    lemma_mul_mod_noop_right(beta, y * q, m);
    lemma_add_mod_noop((x % m) * p, beta * ((y % m) * q), m);
    lemma_add_mod_noop(x * p, beta * (y * q), m);
}

/// The extension-field product is associative: composing two products in
/// either order yields the same components.
pub proof fn lemma_fp2_mul_assoc(
    a0: int,
    a1: int,
    b0: int,
    b1: int,
    c0: int,
    c1: int,
    beta: int,
    m: int,
)
    requires
        2 <= m,
    ensures
        fp2_mul_c0(
            fp2_mul_c0(a0, a1, b0, b1, beta, m),
            fp2_mul_c1(a0, a1, b0, b1, m),
            c0,
            c1,
            beta,
            m,
        ) == fp2_mul_c0(
            a0,
            a1,
            fp2_mul_c0(b0, b1, c0, c1, beta, m),
            fp2_mul_c1(b0, b1, c0, c1, m),
            beta,
            m,
        ),
        fp2_mul_c1(
            fp2_mul_c0(a0, a1, b0, b1, beta, m),
            fp2_mul_c1(a0, a1, b0, b1, m),
            c0,
            c1,
            m,
        ) == fp2_mul_c1(
            a0,
            a1,
            fp2_mul_c0(b0, b1, c0, c1, beta, m),
            fp2_mul_c1(b0, b1, c0, c1, m),
            m,
        ),
{
    let ab0 = a0 * b0 + beta * (a1 * b1);
    let ab1 = a0 * b1 + a1 * b0;
    let bc0 = b0 * c0 + beta * (b1 * c1);
    let bc1 = b0 * c1 + b1 * c0;

    // unreduce the inner products on each side
    lemma_c0_shape_mod_left(ab0, c0, beta, ab1, c1, m);
    lemma_c0_shape_mod(a0, bc0, beta, a1, bc1, m);
    lemma_two_products_mod_left(ab0, c1, ab1, c0, m);
    lemma_two_products_mod(a0, bc1, a1, bc0, m);

    // the unreduced composites are the same polynomial, one
    // distribution at a time
    assert((a0 * b0 + beta * (a1 * b1)) * c0 == a0 * (b0 * c0) + beta * (a1 * (b1 * c0))) by {
        lemma_mul_is_distributive_add_other_way(c0, a0 * b0, beta * (a1 * b1));
        lemma_mul_is_associative(a0, b0, c0);
        lemma_mul_is_associative(beta, a1 * b1, c0);
        lemma_mul_is_associative(a1, b1, c0);
    }
    assert(beta * ((a0 * b1 + a1 * b0) * c1) == beta * (a0 * (b1 * c1)) + beta * (a1 * (b0
        * c1))) by (nonlinear_arith);
    assert(a0 * (b0 * c0 + beta * (b1 * c1)) == a0 * (b0 * c0) + beta * (a0 * (b1 * c1)))
        by (nonlinear_arith);
    assert(beta * (a1 * (b0 * c1 + b1 * c0)) == beta * (a1 * (b0 * c1)) + beta * (a1 * (b1
        * c0))) by (nonlinear_arith);
    assert((a0 * b0 + beta * (a1 * b1)) * c1 == a0 * (b0 * c1) + beta * (a1 * (b1 * c1))) by {
        lemma_mul_is_distributive_add_other_way(c1, a0 * b0, beta * (a1 * b1));
        lemma_mul_is_associative(a0, b0, c1);
        lemma_mul_is_associative(beta, a1 * b1, c1);
        lemma_mul_is_associative(a1, b1, c1);
    }
    assert((a0 * b1 + a1 * b0) * c0 == a0 * (b1 * c0) + a1 * (b0 * c0)) by (nonlinear_arith);
    assert(a0 * (b0 * c1 + b1 * c0) == a0 * (b0 * c1) + a0 * (b1 * c0)) by (nonlinear_arith);
    assert(a1 * (b0 * c0 + beta * (b1 * c1)) == a1 * (b0 * c0) + beta * (a1 * (b1 * c1)))
        by (nonlinear_arith);
}

/// `1 + 0 u` is a left and right identity of the extension-field product.
pub proof fn lemma_fp2_mul_identity(a0: int, a1: int, beta: int, m: int)
    requires
        2 <= m,
        0 <= a0 < m,
        0 <= a1 < m,
    ensures
        fp2_mul_c0(1, 0, a0, a1, beta, m) == a0,
        fp2_mul_c1(1, 0, a0, a1, m) == a1,
        fp2_mul_c0(a0, a1, 1, 0, beta, m) == a0,
        fp2_mul_c1(a0, a1, 1, 0, m) == a1,
{
    lemma_small_mod(a0 as nat, m as nat);
    lemma_small_mod(a1 as nat, m as nat);
    assert(beta * (0 * a1) == 0) by (nonlinear_arith);
    assert(beta * (a1 * 0) == 0) by (nonlinear_arith);
}

/// Inverting twice returns the original value: whatever the inverse of
/// a value's inverse is, it carries the value itself.  Stated for the
/// base field over the product facts the gadget contracts give.
pub proof fn lemma_inverse_involution(a: int, b: int, c: int, m: int)
    requires
        2 <= m,
        0 <= a < m,
        0 <= b < m,
        0 <= c < m,
        fmul(a, b, m) == 1,
        fmul(b, c, m) == 1,
    ensures
        c == a,
{
    lemma_inverse_unique(a, b, c, m);
}

/// Inverting twice returns the original value, in the extension field:
/// if `b` is an inverse of `a` and `c` an inverse of `b`, then `c` is
/// `a` itself.
pub proof fn lemma_fp2_inverse_involution(
    a0: int,
    a1: int,
    b0: int,
    b1: int,
    c0: int,
    c1: int,
    beta: int,
    m: int,
)
    requires
        2 <= m,
        0 <= a0 < m,
        0 <= a1 < m,
        0 <= c0 < m,
        0 <= c1 < m,
        fp2_mul_c0(a0, a1, b0, b1, beta, m) == 1,
        fp2_mul_c1(a0, a1, b0, b1, m) == 0,
        fp2_mul_c0(b0, b1, c0, c1, beta, m) == 1,
        fp2_mul_c1(b0, b1, c0, c1, m) == 0,
    ensures
        c0 == a0,
        c1 == a1,
{
    lemma_fp2_mul_assoc(a0, a1, b0, b1, c0, c1, beta, m);
    lemma_fp2_mul_identity(c0, c1, beta, m);
    lemma_fp2_mul_identity(a0, a1, beta, m);
}

/// Under a prime modulus and a true nonresidue, every element other than
/// zero has an invertible norm, so the gadget's inversion succeeds on
/// exactly the nonzero elements.
pub proof fn lemma_nonzero_invertible(a0: int, a1: int, beta: int, m: int)
    requires
        is_prime(m as nat),
        is_nonresidue(beta, m),
        0 <= a0 < m,
        0 <= a1 < m,
        0 <= beta < m,
        !(a0 == 0 && a1 == 0),
    ensures
        euclid_gcd(m as nat, fp2_norm(a0, a1, beta, m) as nat) == 1,
{
    let norm = fp2_norm(a0, a1, beta, m);
    lemma_mod_bound(a0 * a0 - beta * (a1 * a1), m);
    if norm == 0 {
        // then the squares agree modulo m
        lemma_sub_mod_noop(a0 * a0, beta * (a1 * a1), m);
        let x = (a0 * a0) % m;
        let y = (beta * (a1 * a1)) % m;
        lemma_mod_bound(a0 * a0, m);
        lemma_mod_bound(beta * (a1 * a1), m);
        if x != y {
            if x - y > 0 {
                lemma_small_mod((x - y) as nat, m as nat);
            } else {
                lemma_mod_add_multiples_vanish(x - y, m);
                lemma_small_mod((x - y + m) as nat, m as nat);
            }
            assert(false);
        }
        if a1 == 0 {
            // a0 is nonzero but its square would be zero
            assert(beta * (a1 * a1) == 0) by (nonlinear_arith)
                requires
                    a1 == 0,
            ;
            lemma_small_mod(0nat, m as nat);
            lemma_inverse_exists(m as nat, a0 as nat);
            let s = choose|s: int| crate::scalar::is_inverse_mod(a0, s, m);
            lemma_mul_mod_noop(a0 * s, a0 * s, m);
            lemma_small_mod(1nat, m as nat);
            assert((a0 * s) * (a0 * s) == (a0 * a0) * (s * s)) by (nonlinear_arith);
            lemma_mul_mod_noop_left(a0 * a0, s * s, m);
            assert(0 * (s * s) == 0) by (nonlinear_arith);
            assert(false);
        } else {
            // the squares' ratio would make beta a square
            lemma_inverse_exists(m as nat, a1 as nat);
            let s = choose|s: int| crate::scalar::is_inverse_mod(a1, s, m);
            assert(crate::scalar::is_inverse_mod(a1, s, m));
            let t = (a0 * s) % m;
            lemma_mod_bound(a0 * s, m);
            lemma_mul_mod_noop(a0 * s, a0 * s, m);
            assert((t * t) % m == ((a0 * s) * (a0 * s)) % m);
            assert((a0 * s) * (a0 * s) == (a0 * a0) * (s * s)) by (nonlinear_arith);
            lemma_mul_mod_noop_left(a0 * a0, s * s, m);
            assert((t * t) % m == (x * (s * s)) % m);
            lemma_mul_mod_noop_left(beta * (a1 * a1), s * s, m);
            assert((t * t) % m == ((beta * (a1 * a1)) * (s * s)) % m);
            assert((beta * (a1 * a1)) * (s * s) == beta * ((a1 * s) * (a1 * s)))
                by (nonlinear_arith);
            lemma_mul_mod_noop_right(beta, (a1 * s) * (a1 * s), m);
            lemma_mul_mod_noop(a1 * s, a1 * s, m);
            lemma_small_mod(1nat, m as nat);
            assert(((a1 * s) * (a1 * s)) % m == 1);
            assert((t * t) % m == (beta * 1) % m);
            lemma_small_mod(beta as nat, m as nat);
            assert(fmul(t, t, m) == beta);
            assert(false);
        }
    }
    lemma_prime_coprime(m as nat, norm as nat);
}

} // verus!
