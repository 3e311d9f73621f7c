//! The value of a polynomial over GF(2) at a point of GF(2^m): evaluation is a
//! homomorphism, of sums to sums and of products to products.

use vstd::prelude::*;
use crate::bits::{lemma_leading_one, lemma_shift, lemma_xor};
use crate::field_laws::{
    lemma_fadd_reduced, lemma_fmul_associative, lemma_fmul_commutative, lemma_fmul_distributive,
    lemma_fmul_one, lemma_fmul_reduced, lemma_fpow_reduced, MAX_ASSOCIATIVE_BITS,
};
use crate::gf2tm::{field_exists, field_modulus, lemma_field_modulus, spec_fadd, spec_fmul, spec_fpow};
use crate::poly_field_spec::{spec_horner, spec_trim};
use crate::poly_gf2::{
    lemma_degree_bits, lemma_degree_shift, low_bits, mul_term, spec_degree, spec_mul,
    spec_mul_upto,
};
use crate::poly_gf2_lemmas::{lemma_term_as_monomial, lemma_mul_zero};

verus! {

/// The `n` lowest coefficients of `a`, as zeros and ones.
pub open spec fn spec_bits(a: u32, n: nat) -> Seq<u32> {
    Seq::new(n, |i: int| (a >> (i as u32)) & 1)
}

/// The value at `beta` of the polynomial made of the `n` lowest coefficients of `a`,
/// in the field with modulus `p`: `a_0 + beta * (a_1 + beta * (a_2 + ...))`.
pub open spec fn spec_eval_bits(a: u32, beta: u32, n: nat, p: u32) -> u32
    decreases n,
{
    if n == 0 {
        0
    } else {
        spec_fadd(a & 1, spec_fmul(spec_eval_bits(a >> 1, beta, (n - 1) as nat, p), beta, p), p)
    }
}

/// The value at `beta` of the polynomial `a`.
pub open spec fn spec_eval_at(a: u32, beta: u32, p: u32) -> u32 {
    spec_eval_bits(a, beta, 32, p)
}

proof fn lemma_bit_facts(a: u32, b: u32, i: u32)
    by (bit_vector)
    requires
        i < 31,
    ensures
        (a >> 1) >> i == a >> ((i + 1) as u32),
        (a ^ b) & 1 == (a & 1) ^ (b & 1),
        (a ^ b) >> 1 == (a >> 1) ^ (b >> 1),
        a & 1 == 0 || a & 1 == 1,
        (a << 1) & 1 == 0,
        a >> 31 == 0 ==> (a << 1) >> 1 == a,
        a << ((i + 1) as u32) == (a << i) << 1,
        (a << i) >> 31 == 0 ==> a << ((i + 1) as u32) >> ((i + 1) as u32) == (a << i) >> i,
        a >> 0 == a,
        a << 0 == a,
{
}

/// A coefficient of a polynomial over GF(2) is an element of every field.
proof fn lemma_bit_reduced(a: u32, m: u32)
    requires
        1 <= m < 32,
    ensures
        spec_degree(a & 1) < m,
{
    lemma_bit_facts(a, 0, 0);
    lemma_degree_bits(0);
    lemma_shift(1, 0);
    lemma_degree_shift(1, 0);
}

/// A value of a polynomial is an element of the field.
pub proof fn lemma_eval_reduced(a: u32, beta: u32, n: nat, m: u32)
    requires
        field_exists(m),
    ensures
        spec_degree(spec_eval_bits(a, beta, n, field_modulus(m))) < m,
{
    let p = field_modulus(m);
    lemma_field_modulus(m);
    if n == 0 {
        lemma_degree_bits(0);
    } else {
        crate::poly_gf2_lemmas::lemma_divmod_law(
            (a & 1) ^ spec_fmul(spec_eval_bits(a >> 1, beta, (n - 1) as nat, p), beta, p),
            p,
        );
    }
}

/// The value of the zero polynomial is zero.
pub proof fn lemma_eval_zero(beta: u32, n: nat, m: u32)
    requires
        field_exists(m),
    ensures
        spec_eval_bits(0, beta, n, field_modulus(m)) == 0,
    decreases n,
{
    if n > 0 {
        lemma_eval_zero(beta, (n - 1) as nat, m);
        lemma_shift(0, 0);
        lemma_fmul_reduced(beta, 0, m);
        lemma_degree_bits(0);
        lemma_fadd_reduced(0, 0, m);
        lemma_xor(0, 0, 0);
    }
}

/// Coefficients that are zero from `x^k` on add nothing to the value.
pub proof fn lemma_eval_extend(a: u32, beta: u32, k: nat, n: nat, m: u32)
    requires
        field_exists(m),
        k <= n <= 32,
        k < 32 ==> a >> (k as u32) == 0,
    ensures
        spec_eval_bits(a, beta, n, field_modulus(m)) == spec_eval_bits(a, beta, k, field_modulus(m)),
    decreases k,
{
    if k == 0 {
        lemma_bit_facts(a, 0, 0);
        lemma_eval_zero(beta, n, m);
    } else if k < 32 {
        lemma_bit_facts(a, 0, (k - 1) as u32);
        lemma_eval_extend(a >> 1, beta, (k - 1) as nat, (n - 1) as nat, m);
    }
}

/// The value of a sum is the sum of the values.
pub proof fn lemma_eval_linear(a: u32, b: u32, beta: u32, n: nat, m: u32)
    requires
        field_exists(m),
    ensures
        spec_eval_bits(a ^ b, beta, n, field_modulus(m)) == spec_eval_bits(
            a,
            beta,
            n,
            field_modulus(m),
        ) ^ spec_eval_bits(b, beta, n, field_modulus(m)),
    decreases n,
{
    let p = field_modulus(m);
    lemma_field_modulus(m);
    if n == 0 {
        lemma_xor(0, 0, 0);
    } else {
        let k = (n - 1) as nat;
        lemma_eval_linear(a >> 1, b >> 1, beta, k, m);
        lemma_bit_facts(a, b, 0);
        let u = spec_eval_bits(a >> 1, beta, k, p);
        let v = spec_eval_bits(b >> 1, beta, k, p);
        lemma_fmul_commutative(u ^ v, beta, p);
        lemma_fmul_distributive(beta, u, v, p);
        lemma_fmul_commutative(u, beta, p);
        lemma_fmul_commutative(v, beta, p);
        lemma_bit_reduced(a, m);
        lemma_bit_reduced(b, m);
        lemma_bit_reduced(a ^ b, m);
        lemma_fmul_reduced(u, beta, m);
        lemma_fmul_reduced(v, beta, m);
        lemma_fmul_reduced(u ^ v, beta, m);
        lemma_fadd_reduced(a & 1, spec_fmul(u, beta, p), m);
        lemma_fadd_reduced(b & 1, spec_fmul(v, beta, p), m);
        lemma_fadd_reduced((a ^ b) & 1, spec_fmul(u ^ v, beta, p), m);
        lemma_regroup(a & 1, b & 1, spec_fmul(u, beta, p), spec_fmul(v, beta, p));
    }
}

proof fn lemma_regroup(u: u32, v: u32, s: u32, t: u32)
    by (bit_vector)
    ensures
        (u ^ v) ^ (s ^ t) == (u ^ s) ^ (v ^ t),
{
}

/// The value of `x * a` is `beta` times the value of `a`.
pub proof fn lemma_eval_times_x(a: u32, beta: u32, m: u32)
    requires
        field_exists(m),
        a >> 31 == 0,
    ensures
        spec_eval_at(a << 1, beta, field_modulus(m)) == spec_fmul(
            spec_eval_at(a, beta, field_modulus(m)),
            beta,
            field_modulus(m),
        ),
{
    let p = field_modulus(m);
    lemma_field_modulus(m);
    lemma_bit_facts(a, 0, 0);
    lemma_eval_extend(a, beta, 31, 32, m);
    let y = spec_fmul(spec_eval_bits(a, beta, 31, p), beta, p);
    lemma_fmul_reduced(spec_eval_bits(a, beta, 31, p), beta, m);
    lemma_degree_bits(0);
    lemma_fadd_reduced(0, y, m);
    lemma_xor(y, 0, 0);
}

/// The value of `x^k * a` is `beta^k` times the value of `a`.
pub proof fn lemma_eval_times_monomial(a: u32, k: u32, beta: u32, m: u32)
    requires
        field_exists(m),
        m <= MAX_ASSOCIATIVE_BITS,
        spec_degree(beta) < m,
        a != 0 ==> spec_degree(a) + k <= 31,
        k < 32,
    ensures
        spec_eval_at(a << k, beta, field_modulus(m)) == spec_fmul(
            spec_eval_at(a, beta, field_modulus(m)),
            spec_fpow(beta, k as nat, field_modulus(m)),
            field_modulus(m),
        ),
    decreases k,
{
    let p = field_modulus(m);
    lemma_field_modulus(m);
    let e = spec_eval_at(a, beta, p);
    lemma_eval_reduced(a, beta, 32, m);
    if k == 0 {
        lemma_bit_facts(a, 0, 0);
        lemma_fmul_one(e, p);
    } else {
        let j = (k - 1) as u32;
        lemma_eval_times_monomial(a, j, beta, m);
        lemma_bit_facts(a, 0, j);
        // the top bit of a << j is clear
        lemma_degree_bits(a);
        if a == 0 {
            lemma_shift(a, j);
            lemma_leading_one(a << j, 0, 0, 31);
        } else {
            lemma_leading_one(a, 0, spec_degree(a) as u32, j);
            lemma_leading_one(a << j, 0, (spec_degree(a) + j) as u32, 31);
        }
        lemma_eval_times_x(a << j, beta, m);
        lemma_fpow_reduced(beta, j as nat, p);
        lemma_fmul_associative(e, spec_fpow(beta, j as nat, p), beta, p);
    }
}

/// The value of one is one.
pub proof fn lemma_eval_one(beta: u32, m: u32)
    requires
        field_exists(m),
    ensures
        spec_eval_at(1, beta, field_modulus(m)) == 1,
{
    let p = field_modulus(m);
    lemma_field_modulus(m);
    lemma_shift(1, 0);
    lemma_xor(1, 0, 0);
    assert(1u32 >> 1 == 0 && 1u32 & 1 == 1) by (bit_vector);
    lemma_eval_zero(beta, 31, m);
    lemma_fmul_reduced(beta, 0, m);
    lemma_degree_bits(0);
    lemma_fadd_reduced(1, 0, m);
}

proof fn lemma_eval_mul_upto(a: u32, b: u32, k: u32, beta: u32, m: u32)
    requires
        field_exists(m),
        m <= MAX_ASSOCIATIVE_BITS,
        spec_degree(beta) < m,
        a != 0,
        b != 0,
        spec_degree(a) + spec_degree(b) <= 31,
        k <= 32,
    ensures
        spec_eval_at(spec_mul_upto(a, b, k), beta, field_modulus(m)) == spec_fmul(
            spec_eval_at(a, beta, field_modulus(m)),
            spec_eval_at(low_bits(b, k), beta, field_modulus(m)),
            field_modulus(m),
        ),
    decreases k,
{
    let p = field_modulus(m);
    lemma_field_modulus(m);
    let ea = spec_eval_at(a, beta, p);
    lemma_eval_reduced(a, beta, 32, m);
    if k == 0 {
        lemma_term_as_monomial(a, b, 0);
        lemma_eval_zero(beta, 32, m);
        lemma_fmul_reduced(ea, 0, m);
    } else {
        let i = (k - 1) as u32;
        lemma_eval_mul_upto(a, b, i, beta, m);
        lemma_term_as_monomial(a, b, i);
        let before = spec_mul_upto(a, b, i);
        let low = low_bits(b, i);
        let t1 = mul_term(1u32, b, i);
        let ta = mul_term(a, b, i);
        lemma_eval_linear(before, ta, beta, 32, m);
        lemma_eval_linear(low, t1, beta, 32, m);
        lemma_eval_reduced(low, beta, 32, m);
        lemma_eval_reduced(t1, beta, 32, m);
        lemma_fmul_distributive(
            ea,
            spec_eval_at(low, beta, p),
            spec_eval_at(t1, beta, p),
            p,
        );
        // the term of bit i, on both sides
        if t1 == 0 {
            lemma_eval_zero(beta, 32, m);
            lemma_fmul_reduced(ea, 0, m);
        } else {
            lemma_degree_bits(a);
            lemma_degree_bits(b);
            lemma_shift(b, i);
            lemma_leading_one(b, b, i, spec_degree(b) as u32);
            lemma_eval_times_monomial(a, i, beta, m);
            lemma_shift(1, 0);
            lemma_degree_shift(1, 0);
            lemma_eval_times_monomial(1, i, beta, m);
            lemma_eval_one(beta, m);
            lemma_fpow_reduced(beta, i as nat, p);
            lemma_fmul_one(spec_fpow(beta, i as nat, p), p);
        }
    }
}

/// The value of a product that fits in 32 bits is the product of the values.
pub proof fn lemma_eval_mul(a: u32, b: u32, beta: u32, m: u32)
    requires
        field_exists(m),
        m <= MAX_ASSOCIATIVE_BITS,
        spec_degree(beta) < m,
        a != 0 && b != 0 ==> spec_degree(a) + spec_degree(b) <= 31,
    ensures
        spec_eval_at(spec_mul(a, b), beta, field_modulus(m)) == spec_fmul(
            spec_eval_at(a, beta, field_modulus(m)),
            spec_eval_at(b, beta, field_modulus(m)),
            field_modulus(m),
        ),
{
    if a == 0 || b == 0 {
        lemma_mul_zero(a);
        lemma_mul_zero(b);
        lemma_eval_zero(beta, 32, m);
        lemma_fmul_reduced(spec_eval_at(a, beta, field_modulus(m)), 0, m);
        lemma_fmul_reduced(spec_eval_at(b, beta, field_modulus(m)), 0, m);
    } else {
        lemma_eval_mul_upto(a, b, 32, beta, m);
    }
}

/// Horner's rule does not see a zero coefficient at the top.
proof fn lemma_horner_drop_zero(c: Seq<u32>, beta: u32, m: u32)
    requires
        field_exists(m),
        c.len() > 0,
        c.last() == 0,
    ensures
        spec_horner(c, beta, field_modulus(m)) == spec_horner(c.drop_last(), beta, field_modulus(m)),
    decreases c.len(),
{
    let p = field_modulus(m);
    if c.len() == 1 {
        assert(c.subrange(1, 1) =~= Seq::<u32>::empty());
        assert(c.drop_last() =~= Seq::<u32>::empty());
        lemma_fmul_reduced(beta, 0, m);
        lemma_degree_bits(0);
        lemma_fadd_reduced(0, 0, m);
        lemma_xor(0, 0, 0);
    } else {
        let tail = c.subrange(1, c.len() as int);
        lemma_horner_drop_zero(tail, beta, m);
        assert(tail.drop_last() =~= c.drop_last().subrange(1, c.len() - 1));
    }
}

/// Horner's rule gives the same value with and without the zeros at the top.
pub proof fn lemma_horner_trim(c: Seq<u32>, beta: u32, m: u32)
    requires
        field_exists(m),
    ensures
        spec_horner(spec_trim(c), beta, field_modulus(m)) == spec_horner(c, beta, field_modulus(m)),
    decreases c.len(),
{
    if c.len() > 0 && c.last() == 0 {
        lemma_horner_drop_zero(c, beta, m);
        lemma_horner_trim(c.drop_last(), beta, m);
    }
}

/// Horner's rule on the coefficients of a polynomial over GF(2) gives its value.
pub proof fn lemma_horner_bits(a: u32, n: nat, beta: u32, m: u32)
    requires
        field_exists(m),
        n <= 32,
    ensures
        spec_horner(spec_bits(a, n), beta, field_modulus(m)) == spec_eval_bits(
            a,
            beta,
            n,
            field_modulus(m),
        ),
    decreases n,
{
    if n > 0 {
        lemma_horner_bits(a >> 1, (n - 1) as nat, beta, m);
        let c = spec_bits(a, n);
        let tail = c.subrange(1, n as int);
        assert forall|i: int| 0 <= i < n - 1 implies tail[i] == spec_bits(a >> 1, (n - 1) as nat)[i] by {
            lemma_bit_facts(a, 0, i as u32);
        }
        assert(tail =~= spec_bits(a >> 1, (n - 1) as nat));
        lemma_bit_facts(a, 0, 0);
        assert(c[0] == a & 1);
    }
}

/// The value that Horner's rule finds for the word `a` of at most `n` bits, read as
/// a polynomial, is the value of the polynomial.
pub proof fn lemma_horner_is_eval(a: u32, n: nat, beta: u32, m: u32)
    requires
        field_exists(m),
        n <= 32,
        n < 32 ==> a >> (n as u32) == 0,
    ensures
        spec_horner(spec_trim(spec_bits(a, n)), beta, field_modulus(m)) == spec_eval_at(
            a,
            beta,
            field_modulus(m),
        ),
{
    lemma_horner_trim(spec_bits(a, n), beta, m);
    lemma_horner_bits(a, n, beta, m);
    lemma_eval_extend(a, beta, n, 32, m);
}

} // verus!
