//! The laws of the arithmetic of GF(2^M), proved for the products and sums that the
//! operators of `GF2TM` compute.

use vstd::prelude::*;
use vstd::std_specs::ops::{AddSpec, MulSpec};
use crate::bits::{lemma_leading_one, lemma_xor};
use crate::gf2tm::{
    field_exists, field_modulus, lemma_field_modulus, spec_fadd, spec_finv, spec_fmul, spec_fpow,
    GF2TM,
};
use crate::poly_gf2::{
    lemma_degree_bits, lemma_degree_shift, spec_degree, spec_div, spec_mul, spec_rem,
};
use crate::poly_gf2_lemmas::{
    lemma_div_degree, lemma_divmod_law, lemma_mul_associative, lemma_mul_commutative,
    lemma_mul_degree, lemma_mul_distributive, lemma_mul_one, lemma_mul_zero,
    lemma_rem_add_multiple, lemma_rem_linear, lemma_rem_small,
};

verus! {

/// The product modulo `p` does not depend on the order of its factors.
pub proof fn lemma_fmul_commutative(a: u32, b: u32, p: u32)
    ensures
        spec_fmul(a, b, p) == spec_fmul(b, a, p),
{
    lemma_mul_commutative(a, b);
}

/// The product modulo `p` distributes over XOR.
pub proof fn lemma_fmul_distributive(a: u32, b: u32, c: u32, p: u32)
    requires
        p != 0,
    ensures
        spec_fmul(a, b ^ c, p) == spec_fmul(a, b, p) ^ spec_fmul(a, c, p),
{
    lemma_mul_distributive(a, b, c);
    lemma_rem_linear(spec_mul(a, b), spec_mul(a, c), p);
}

/// A factor may be reduced modulo `p` before the product is, as long as the product
/// fits in 32 bits.
pub proof fn lemma_fmul_of_residue(x: u32, c: u32, p: u32)
    requires
        p != 0,
        x != 0 && c != 0 ==> spec_degree(x) + spec_degree(c) <= 31,
    ensures
        spec_fmul(spec_rem(x, p), c, p) == spec_fmul(x, c, p),
{
    let q = spec_div(x, p);
    let r = spec_rem(x, p);
    lemma_divmod_law(x, p);
    lemma_div_degree(x, p);
    lemma_degree_bits(x);
    lemma_degree_bits(c);
    lemma_degree_bits(p);
    lemma_degree_bits(q);
    // r * c = x * c + (q * c) * p
    lemma_xor(spec_mul(q, p), r, 0);
    assert(r == x ^ spec_mul(q, p)) by {
        lemma_xor(spec_mul(q, p), r, spec_mul(q, p));
        lemma_xor(r, spec_mul(q, p), 0);
    }
    lemma_mul_distributive(c, x, spec_mul(q, p));
    lemma_mul_associative(q, p, c);
    lemma_mul_commutative(p, c);
    lemma_mul_associative(q, c, p);
    let k = spec_mul(q, c);
    assert(spec_mul(r, c) == spec_mul(x, c) ^ spec_mul(k, p));
    if q == 0 || c == 0 {
        lemma_mul_zero(c);
        lemma_mul_zero(q);
    } else {
        lemma_mul_degree(q, c);
    }
    lemma_rem_add_multiple(spec_mul(x, c), k, p);
}

/// The product modulo `p` is associative, as long as the product of the three
/// factors fits in 32 bits.
pub proof fn lemma_fmul_associative(a: u32, b: u32, c: u32, p: u32)
    requires
        p != 0,
        a != 0 && b != 0 && c != 0 ==> spec_degree(a) + spec_degree(b) + spec_degree(c) <= 31,
    ensures
        spec_fmul(spec_fmul(a, b, p), c, p) == spec_fmul(a, spec_fmul(b, c, p), p),
{
    lemma_degree_bits(a);
    lemma_degree_bits(b);
    lemma_degree_bits(c);
    if a == 0 || b == 0 || c == 0 {
        lemma_mul_zero(a);
        lemma_mul_zero(b);
        lemma_mul_zero(c);
        lemma_degree_bits(0);
        lemma_degree_bits(p);
        lemma_rem_small(0, p);
        lemma_mul_zero(spec_fmul(a, b, p));
        lemma_mul_zero(spec_fmul(b, c, p));
    } else {
        lemma_mul_degree(a, b);
        lemma_mul_degree(b, c);
        lemma_fmul_of_residue(spec_mul(a, b), c, p);
        lemma_fmul_of_residue(spec_mul(b, c), a, p);
        lemma_mul_commutative(a, spec_fmul(b, c, p));
        lemma_mul_commutative(spec_mul(b, c), a);
        lemma_mul_associative(a, b, c);
    }
}

/// The sum of two residues is their XOR, and a residue.
pub proof fn lemma_fadd_reduced(a: u32, b: u32, m: u32)
    requires
        field_exists(m),
        spec_degree(a) < m,
        spec_degree(b) < m,
    ensures
        spec_fadd(a, b, field_modulus(m)) == a ^ b,
        spec_degree(a ^ b) < m,
{
    lemma_field_modulus(m);
    lemma_degree_shift(a, m);
    lemma_degree_shift(b, m);
    lemma_leading_one(a, b, m, m);
    lemma_degree_shift(a ^ b, m);
    lemma_rem_small(a ^ b, field_modulus(m));
}

/// A product in the field is a residue, and the product with zero is zero.
pub proof fn lemma_fmul_reduced(a: u32, b: u32, m: u32)
    requires
        field_exists(m),
    ensures
        spec_degree(spec_fmul(a, b, field_modulus(m))) < m,
        spec_fmul(a, 0, field_modulus(m)) == 0,
        spec_fmul(0, a, field_modulus(m)) == 0,
{
    lemma_field_modulus(m);
    lemma_divmod_law(spec_mul(a, b), field_modulus(m));
    lemma_mul_zero(a);
    lemma_degree_bits(0);
    lemma_rem_small(0, field_modulus(m));
}

/// One is the unit of the product modulo `p`, on the residues modulo `p`.
pub proof fn lemma_fmul_one(a: u32, p: u32)
    requires
        spec_degree(a) < spec_degree(p),
    ensures
        spec_fmul(a, 1, p) == a,
        spec_fmul(1, a, p) == a,
{
    lemma_mul_one(a);
    lemma_rem_small(a, p);
}

/// A power modulo `p` is a residue modulo `p`.
pub proof fn lemma_fpow_reduced(a: u32, n: nat, p: u32)
    requires
        spec_degree(p) >= 1,
    ensures
        spec_degree(spec_fpow(a, n, p)) < spec_degree(p),
{
    lemma_degree_bits(p);
    if n == 0 {
        crate::bits::lemma_shift(1, 0);
        lemma_degree_shift(1, 0);
    } else {
        lemma_divmod_law(spec_mul(spec_fpow(a, (n - 1) as nat, p), a), p);
    }
}

/// The power with a sum as exponent is the product of the powers, modulo a
/// polynomial `p` of degree at most 11.
pub proof fn lemma_fpow_add(a: u32, i: nat, j: nat, p: u32)
    requires
        1 <= spec_degree(p) <= MAX_ASSOCIATIVE_BITS,
        spec_degree(a) < spec_degree(p),
    ensures
        spec_fpow(a, i + j, p) == spec_fmul(spec_fpow(a, i, p), spec_fpow(a, j, p), p),
    decreases j,
{
    lemma_degree_bits(p);
    lemma_fpow_reduced(a, i, p);
    if j == 0 {
        lemma_fmul_one(spec_fpow(a, i, p), p);
    } else {
        let k = (j - 1) as nat;
        lemma_fpow_add(a, i, k, p);
        lemma_fpow_reduced(a, k, p);
        lemma_fmul_associative(spec_fpow(a, i, p), spec_fpow(a, k, p), a, p);
        assert(spec_fpow(a, i + j, p) == spec_fmul(spec_fpow(a, i + k, p), a, p));
    }
}

/// Every power of one is one.
pub proof fn lemma_fpow_of_one(n: nat, p: u32)
    requires
        spec_degree(p) >= 1,
    ensures
        spec_fpow(1, n, p) == 1,
    decreases n,
{
    if n > 0 {
        lemma_fpow_of_one((n - 1) as nat, p);
        crate::bits::lemma_shift(1, 0);
        lemma_degree_shift(1, 0);
        lemma_fmul_one(1, p);
    }
}

/// An element whose power `n + 1` is one has its power `n` as inverse.
pub proof fn lemma_inverse_from_order(a: u32, n: nat, p: u32)
    requires
        spec_fpow(a, n + 1, p) == 1,
    ensures
        spec_fmul(a, spec_fpow(a, n, p), p) == 1,
{
    lemma_fmul_commutative(a, spec_fpow(a, n, p), p);
}

/// Every element of GF(2^m) but zero, times its power `2^m - 2`, is one.
pub open spec fn field_has_inverses(m: u32) -> bool {
    forall|a: u32|
        a != 0 && spec_degree(a) < m ==> spec_fmul(
            a,
            #[trigger] spec_finv(a, m, field_modulus(m)),
            field_modulus(m),
        ) == 1
}

/// The largest `M` for which the product of three elements of GF(2^M) fits in 32 bits.
pub const MAX_ASSOCIATIVE_BITS: u32 = 11;

impl<const M: u32> GF2TM<M> {
    /// The sum of two elements is the XOR of their polynomials.
    pub proof fn law_add_is_xor(a: Self, b: Self)
        requires
            a.wf(),
            b.wf(),
        ensures
            a.add_spec(b).wf(),
            a.add_spec(b).spec_value() == a.spec_value() ^ b.spec_value(),
    {
        let p = field_modulus(M);
        lemma_field_modulus(M);
        Self::lemma_spec_elem(spec_fadd(a.spec_value(), b.spec_value(), p));
        let m: u32 = M;
        lemma_degree_shift(a.spec_value(), m);
        lemma_degree_shift(b.spec_value(), m);
        lemma_leading_one(a.spec_value(), b.spec_value(), m, m);
        lemma_degree_shift(a.spec_value() ^ b.spec_value(), m);
        lemma_rem_small(a.spec_value() ^ b.spec_value(), p);
    }

    /// The product of two elements is an element.
    pub proof fn law_mul_closed(a: Self, b: Self)
        requires
            a.wf(),
            b.wf(),
        ensures
            a.mul_spec(b).wf(),
            a.mul_spec(b).spec_value() == spec_fmul(
                a.spec_value(),
                b.spec_value(),
                field_modulus(M),
            ),
    {
        let p = field_modulus(M);
        lemma_field_modulus(M);
        Self::lemma_spec_elem(spec_fmul(a.spec_value(), b.spec_value(), p));
        lemma_divmod_law(spec_mul(a.spec_value(), b.spec_value()), p);
    }

    /// Addition is associative and commutative, zero is its unit, and every element
    /// is its own negative.
    pub proof fn law_add_group(a: Self, b: Self, c: Self)
        requires
            a.wf(),
            b.wf(),
            c.wf(),
        ensures
            a.add_spec(b).add_spec(c) == a.add_spec(b.add_spec(c)),
            a.add_spec(b) == b.add_spec(a),
            a.add_spec(Self::spec_elem(0)) == a,
            a.add_spec(a) == Self::spec_elem(0),
    {
        Self::law_add_is_xor(a, b);
        Self::law_add_is_xor(b, c);
        Self::law_add_is_xor(a.add_spec(b), c);
        Self::law_add_is_xor(a, b.add_spec(c));
        Self::law_add_is_xor(b, a);
        Self::law_add_is_xor(a, a);
        lemma_xor(a.spec_value(), b.spec_value(), c.spec_value());
        lemma_field_modulus(M);
        lemma_degree_bits(0);
        Self::lemma_spec_elem(0);
        Self::law_add_is_xor(a, Self::spec_elem(0));
        Self::lemma_extensional(a.add_spec(b).add_spec(c), a.add_spec(b.add_spec(c)));
        Self::lemma_extensional(a.add_spec(b), b.add_spec(a));
        Self::lemma_extensional(a.add_spec(Self::spec_elem(0)), a);
        Self::lemma_extensional(a.add_spec(a), Self::spec_elem(0));
    }

    /// Multiplication is commutative.
    pub proof fn law_mul_commutative(a: Self, b: Self)
        requires
            a.wf(),
            b.wf(),
        ensures
            a.mul_spec(b) == b.mul_spec(a),
    {
        lemma_fmul_commutative(a.spec_value(), b.spec_value(), field_modulus(M));
    }

    /// Multiplication distributes over addition.
    pub proof fn law_distributive(a: Self, b: Self, c: Self)
        requires
            a.wf(),
            b.wf(),
            c.wf(),
        ensures
            a.mul_spec(b.add_spec(c)) == a.mul_spec(b).add_spec(a.mul_spec(c)),
    {
        let p = field_modulus(M);
        lemma_field_modulus(M);
        Self::law_add_is_xor(b, c);
        Self::law_mul_closed(a, b);
        Self::law_mul_closed(a, c);
        Self::law_mul_closed(a, b.add_spec(c));
        Self::law_add_is_xor(a.mul_spec(b), a.mul_spec(c));
        lemma_fmul_distributive(a.spec_value(), b.spec_value(), c.spec_value(), p);
        Self::lemma_extensional(
            a.mul_spec(b.add_spec(c)),
            a.mul_spec(b).add_spec(a.mul_spec(c)),
        );
    }

    /// Multiplication is associative, in the fields of at most `2^11` elements.
    pub proof fn law_mul_associative(a: Self, b: Self, c: Self)
        requires
            a.wf(),
            b.wf(),
            c.wf(),
            M <= MAX_ASSOCIATIVE_BITS,
        ensures
            a.mul_spec(b).mul_spec(c) == a.mul_spec(b.mul_spec(c)),
    {
        let p = field_modulus(M);
        lemma_field_modulus(M);
        Self::law_mul_closed(a, b);
        Self::law_mul_closed(b, c);
        Self::law_mul_closed(a.mul_spec(b), c);
        Self::law_mul_closed(a, b.mul_spec(c));
        lemma_fmul_associative(a.spec_value(), b.spec_value(), c.spec_value(), p);
        Self::lemma_extensional(a.mul_spec(b).mul_spec(c), a.mul_spec(b.mul_spec(c)));
    }

    /// Squaring is compatible with multiplication: `a^2 * b^2 = (a * b)^2`, in the
    /// fields of at most `2^11` elements.
    pub proof fn law_frobenius(a: Self, b: Self)
        requires
            a.wf(),
            b.wf(),
            M <= MAX_ASSOCIATIVE_BITS,
        ensures
            a.mul_spec(a).mul_spec(b.mul_spec(b)) == a.mul_spec(b).mul_spec(a.mul_spec(b)),
    {
        Self::law_mul_closed(a, a);
        Self::law_mul_closed(b, b);
        Self::law_mul_closed(a, b);
        Self::law_mul_closed(b, a);
        // (a a)(b b) = a (a (b b)) = a ((a b) b) = a (b (a b)) = (a b)(a b)
        Self::law_mul_associative(a, a, b.mul_spec(b));
        Self::law_mul_associative(a, b, b);
        Self::law_mul_commutative(a.mul_spec(b), b);
        Self::law_mul_associative(a, b, a.mul_spec(b));
    }
}

} // verus!
