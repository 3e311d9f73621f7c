//! Divisibility in GF(2)[x]: what the greatest common divisor and the least common
//! multiple of Euclid's algorithm are.

use vstd::prelude::*;
use crate::bits::lemma_xor;
use crate::poly_gf2::{
    lemma_degree_bits, lemma_lower_degree_is_smaller, spec_degree, spec_div, spec_gcd, spec_lcm,
    spec_mul, spec_rem,
};
use crate::poly_gf2_lemmas::{
    lemma_div_degree, lemma_divmod_law, lemma_mul_associative, lemma_mul_commutative,
    lemma_mul_degree, lemma_mul_one, lemma_mul_zero, lemma_rem_linear, lemma_rem_of_multiple,
    lemma_rem_small,
};

verus! {

/// `d` divides `a`: `d` is not zero, and the division of `a` by `d` leaves no
/// remainder.
pub open spec fn divides(d: u32, a: u32) -> bool {
    d != 0 && spec_rem(a, d) == 0
}

/// A polynomial that is divided is the quotient times the divisor, and the product
/// fits in 32 bits.
pub proof fn lemma_divides(d: u32, a: u32)
    requires
        divides(d, a),
    ensures
        spec_mul(spec_div(a, d), d) == a,
        a != 0 ==> spec_degree(spec_div(a, d)) + spec_degree(d) == spec_degree(a),
        a != 0 ==> spec_div(a, d) != 0,
        a == 0 ==> spec_div(a, d) == 0,
{
    lemma_divmod_law(a, d);
    lemma_div_degree(a, d);
    lemma_xor(spec_mul(spec_div(a, d), d), 0, 0);
    lemma_degree_bits(a);
    lemma_degree_bits(d);
    lemma_degree_bits(spec_div(a, d));
    lemma_mul_zero(d);
}

/// Every polynomial but zero divides itself and zero, and one divides everything.
pub proof fn lemma_divides_basics(a: u32)
    ensures
        a != 0 ==> divides(a, a),
        a != 0 ==> divides(a, 0),
        divides(1, a),
{
    lemma_degree_bits(a);
    lemma_degree_bits(0);
    lemma_degree_bits(1);
    lemma_mul_one(a);
    crate::bits::lemma_shift(1, 0);
    crate::poly_gf2::lemma_degree_shift(1, 0);
    if a != 0 {
        lemma_rem_of_multiple(1, a);
        lemma_rem_small(0, a);
    }
    lemma_rem_of_multiple(a, 1);
}

/// What `d` divides, it divides times `q`, as long as the product fits in 32 bits.
pub proof fn lemma_divides_multiple(d: u32, b: u32, q: u32)
    requires
        divides(d, b),
        q != 0 && b != 0 ==> spec_degree(q) + spec_degree(b) <= 31,
    ensures
        divides(d, spec_mul(q, b)),
{
    lemma_divides(d, b);
    let kb = spec_div(b, d);
    lemma_degree_bits(q);
    lemma_degree_bits(b);
    lemma_degree_bits(d);
    lemma_degree_bits(kb);
    if q == 0 || b == 0 {
        lemma_mul_zero(q);
        lemma_mul_zero(b);
        lemma_divides_basics(d);
    } else {
        lemma_mul_associative(q, kb, d);
        lemma_mul_degree(q, kb);
        lemma_rem_of_multiple(spec_mul(q, kb), d);
    }
}

/// What `d` divides twice, it divides in the sum.
pub proof fn lemma_divides_sum(d: u32, a: u32, b: u32)
    requires
        divides(d, a),
        divides(d, b),
    ensures
        divides(d, a ^ b),
{
    lemma_rem_linear(a, b, d);
    lemma_xor(0, 0, 0);
}

/// The greatest common divisor divides both polynomials, and is zero only where both
/// are.
pub proof fn lemma_gcd_divides(a: u32, b: u32)
    ensures
        spec_gcd(a, b) == 0 <==> a == 0 && b == 0,
        spec_gcd(a, b) != 0 ==> divides(spec_gcd(a, b), a) && divides(spec_gcd(a, b), b),
    decreases b,
{
    if b == 0 {
        lemma_divides_basics(a);
    } else {
        let q = spec_div(a, b);
        let r = spec_rem(a, b);
        lemma_divmod_law(a, b);
        lemma_lower_degree_is_smaller(r, b);
        lemma_gcd_divides(b, r);
        let g = spec_gcd(b, r);
        lemma_div_degree(a, b);
        lemma_degree_bits(a);
        lemma_degree_bits(q);
        lemma_degree_bits(b);
        if spec_degree(a) < spec_degree(b) {
            lemma_mul_zero(b);
        }
        lemma_divides_multiple(g, b, q);
        lemma_divides_sum(g, spec_mul(q, b), r);
    }
}

/// Every common divisor divides the greatest common divisor.
pub proof fn lemma_gcd_greatest(a: u32, b: u32, d: u32)
    requires
        divides(d, a),
        divides(d, b),
    ensures
        spec_gcd(a, b) != 0 ==> divides(d, spec_gcd(a, b)),
    decreases b,
{
    if b != 0 {
        let q = spec_div(a, b);
        let r = spec_rem(a, b);
        lemma_divmod_law(a, b);
        lemma_lower_degree_is_smaller(r, b);
        lemma_div_degree(a, b);
        lemma_degree_bits(a);
        lemma_degree_bits(q);
        lemma_degree_bits(b);
        if spec_degree(a) < spec_degree(b) {
            lemma_mul_zero(b);
        }
        // r = a + q b
        lemma_divides_multiple(d, b, q);
        lemma_divides_sum(d, a, spec_mul(q, b));
        lemma_xor(spec_mul(q, b), r, 0);
        lemma_xor(r, spec_mul(q, b), 0);
        assert(r == a ^ spec_mul(q, b)) by {
            lemma_xor(spec_mul(q, b), r, spec_mul(q, b));
        }
        lemma_gcd_greatest(b, r, d);
    }
}

/// The least common multiple of two polynomials whose product fits in 32 bits is a
/// multiple of both, and has the degree of the product less that of the greatest
/// common divisor.
pub proof fn lemma_lcm_multiple(a: u32, b: u32)
    requires
        a != 0,
        b != 0,
        spec_degree(a) + spec_degree(b) <= 31,
    ensures
        spec_lcm(a, b) != 0,
        divides(a, spec_lcm(a, b)),
        divides(b, spec_lcm(a, b)),
        spec_degree(spec_lcm(a, b)) == spec_degree(a) + spec_degree(b) - spec_degree(
            spec_gcd(a, b),
        ),
{
    let g = spec_gcd(a, b);
    lemma_gcd_divides(a, b);
    lemma_divides(g, a);
    lemma_divides(g, b);
    let ka = spec_div(a, g);
    let kb = spec_div(b, g);
    lemma_degree_bits(a);
    lemma_degree_bits(b);
    lemma_degree_bits(g);
    lemma_degree_bits(ka);
    lemma_degree_bits(kb);
    // a b = (a kb) g, so the least common multiple is a kb = ka b
    lemma_mul_associative(a, kb, g);
    lemma_mul_degree(a, kb);
    lemma_rem_of_multiple(spec_mul(a, kb), g);
    assert(spec_lcm(a, b) == spec_mul(a, kb));
    lemma_mul_commutative(a, kb);
    lemma_rem_of_multiple(kb, a);
    // a kb = (ka g) kb = ka (g kb) = ka b
    lemma_mul_associative(ka, g, kb);
    lemma_mul_commutative(g, kb);
    lemma_rem_of_multiple(ka, b);
}

} // verus!
