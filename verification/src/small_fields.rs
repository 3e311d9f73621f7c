//! The powers of `x` in the fields GF(4), GF(8) and GF(16): they run through every
//! element but zero, so that `x` is the first primitive element of these fields.

use vstd::prelude::*;
use crate::bits::{lemma_leading_one, lemma_shift};
use crate::field_laws::lemma_fpow_of_one;
use crate::gf2tm::{
    field_modulus, lemma_first_primitive_unique, lemma_small_is_reduced, spec_fmul, spec_fpow,
    spec_is_primitive, spec_primitive_element,
};
use crate::irreducible_table::{lemma_irreducible_table, lemma_table_bits};
use crate::poly_gf2::{lemma_degree_bits, lemma_degree_shift, lemma_reduce_step, spec_degree};
use crate::poly_gf2_lemmas::{lemma_mul_commutative, lemma_mul_monomial, lemma_rem_small};

verus! {

/// The product of the residue `c` with `x` modulo the polynomial `p` of degree `m`:
/// `c` moved up by one place, without `p` where that reaches the degree of `p`.
pub open spec fn spec_times_x(c: u32, p: u32, m: u32) -> u32 {
    if (c << 1) >> m == 1 {
        (c << 1) ^ p
    } else {
        c << 1
    }
}

/// The product with `x` modulo `p` takes one step of reduction at most.
pub proof fn lemma_times_x(c: u32, p: u32, m: u32)
    requires
        1 <= m < 31,
        spec_degree(p) == m,
        spec_degree(c) < m,
    ensures
        spec_fmul(c, 2, p) == spec_times_x(c, p, m),
{
    lemma_table_bits();
    lemma_mul_monomial(c, 1);
    lemma_mul_commutative(c, 2);
    lemma_degree_bits(c);
    lemma_degree_bits(p);
    let x = c << 1;
    if c == 0 {
        lemma_shift(c, 1);
        lemma_leading_one(x, 0, 0, m);
        lemma_degree_bits(x);
        lemma_rem_small(x, p);
    } else {
        let dc = spec_degree(c) as u32;
        lemma_leading_one(c, 0, dc, 1);
        lemma_degree_shift(x, (dc + 1) as u32);
        lemma_degree_shift(x, m);
        if dc + 1 < m {
            lemma_rem_small(x, p);
        } else {
            lemma_shift(p, 0);
            lemma_reduce_step(x, p);
            lemma_rem_small(x ^ p, p);
        }
    }
}

/// The powers of `x` modulo the moduli of GF(4), GF(8) and GF(16), step by step.
proof fn lemma_steps()
    by (bit_vector)
    ensures
        spec_times_x(1, 7, 2) == 2,
        spec_times_x(2, 7, 2) == 3,
        spec_times_x(3, 7, 2) == 1,
        spec_times_x(1, 11, 3) == 2,
        spec_times_x(2, 11, 3) == 4,
        spec_times_x(4, 11, 3) == 3,
        spec_times_x(3, 11, 3) == 6,
        spec_times_x(6, 11, 3) == 7,
        spec_times_x(7, 11, 3) == 5,
        spec_times_x(5, 11, 3) == 1,
        spec_times_x(1, 19, 4) == 2,
        spec_times_x(2, 19, 4) == 4,
        spec_times_x(4, 19, 4) == 8,
        spec_times_x(8, 19, 4) == 3,
        spec_times_x(3, 19, 4) == 6,
        spec_times_x(6, 19, 4) == 12,
        spec_times_x(12, 19, 4) == 11,
        spec_times_x(11, 19, 4) == 5,
        spec_times_x(5, 19, 4) == 10,
        spec_times_x(10, 19, 4) == 7,
        spec_times_x(7, 19, 4) == 14,
        spec_times_x(14, 19, 4) == 15,
        spec_times_x(15, 19, 4) == 13,
        spec_times_x(13, 19, 4) == 9,
        spec_times_x(9, 19, 4) == 1,
{
}

/// The powers of `x` in GF(2^2).
proof fn lemma_powers_of_x_2()
    ensures
        field_modulus(2) == 7,
        spec_degree(7) == 2,
        spec_fpow(2, 0, 7) == 1,
        spec_fpow(2, 1, 7) == 2,
        spec_fpow(2, 2, 7) == 3,
        spec_fpow(2, 3, 7) == 1,
{
    lemma_irreducible_table();
    lemma_table_bits();
    lemma_steps();
    lemma_degree_shift(7, 2);
    assert(spec_fpow(2, 0, 7) == 1);
    lemma_small_is_reduced(1, 2);
    lemma_times_x(1, 7, 2);
    assert(spec_fpow(2, 1, 7) == 2);
    lemma_small_is_reduced(2, 2);
    lemma_times_x(2, 7, 2);
    assert(spec_fpow(2, 2, 7) == 3);
    lemma_small_is_reduced(3, 2);
    lemma_times_x(3, 7, 2);
    assert(spec_fpow(2, 3, 7) == 1);
}

/// The powers of `x` in GF(2^3).
proof fn lemma_powers_of_x_3()
    ensures
        field_modulus(3) == 11,
        spec_degree(11) == 3,
        spec_fpow(2, 0, 11) == 1,
        spec_fpow(2, 1, 11) == 2,
        spec_fpow(2, 2, 11) == 4,
        spec_fpow(2, 3, 11) == 3,
        spec_fpow(2, 4, 11) == 6,
        spec_fpow(2, 5, 11) == 7,
        spec_fpow(2, 6, 11) == 5,
        spec_fpow(2, 7, 11) == 1,
{
    lemma_irreducible_table();
    lemma_table_bits();
    lemma_steps();
    lemma_degree_shift(11, 3);
    assert(spec_fpow(2, 0, 11) == 1);
    lemma_small_is_reduced(1, 3);
    lemma_times_x(1, 11, 3);
    assert(spec_fpow(2, 1, 11) == 2);
    lemma_small_is_reduced(2, 3);
    lemma_times_x(2, 11, 3);
    assert(spec_fpow(2, 2, 11) == 4);
    lemma_small_is_reduced(4, 3);
    lemma_times_x(4, 11, 3);
    assert(spec_fpow(2, 3, 11) == 3);
    lemma_small_is_reduced(3, 3);
    lemma_times_x(3, 11, 3);
    assert(spec_fpow(2, 4, 11) == 6);
    lemma_small_is_reduced(6, 3);
    lemma_times_x(6, 11, 3);
    assert(spec_fpow(2, 5, 11) == 7);
    lemma_small_is_reduced(7, 3);
    lemma_times_x(7, 11, 3);
    assert(spec_fpow(2, 6, 11) == 5);
    lemma_small_is_reduced(5, 3);
    lemma_times_x(5, 11, 3);
    assert(spec_fpow(2, 7, 11) == 1);
}

/// The powers of `x` in GF(2^4).
proof fn lemma_powers_of_x_4()
    ensures
        field_modulus(4) == 19,
        spec_degree(19) == 4,
        spec_fpow(2, 0, 19) == 1,
        spec_fpow(2, 1, 19) == 2,
        spec_fpow(2, 2, 19) == 4,
        spec_fpow(2, 3, 19) == 8,
        spec_fpow(2, 4, 19) == 3,
        spec_fpow(2, 5, 19) == 6,
        spec_fpow(2, 6, 19) == 12,
        spec_fpow(2, 7, 19) == 11,
        spec_fpow(2, 8, 19) == 5,
        spec_fpow(2, 9, 19) == 10,
        spec_fpow(2, 10, 19) == 7,
        spec_fpow(2, 11, 19) == 14,
        spec_fpow(2, 12, 19) == 15,
        spec_fpow(2, 13, 19) == 13,
        spec_fpow(2, 14, 19) == 9,
        spec_fpow(2, 15, 19) == 1,
{
    lemma_irreducible_table();
    lemma_table_bits();
    lemma_steps();
    lemma_degree_shift(19, 4);
    assert(spec_fpow(2, 0, 19) == 1);
    lemma_small_is_reduced(1, 4);
    lemma_times_x(1, 19, 4);
    assert(spec_fpow(2, 1, 19) == 2);
    lemma_small_is_reduced(2, 4);
    lemma_times_x(2, 19, 4);
    assert(spec_fpow(2, 2, 19) == 4);
    lemma_small_is_reduced(4, 4);
    lemma_times_x(4, 19, 4);
    assert(spec_fpow(2, 3, 19) == 8);
    lemma_small_is_reduced(8, 4);
    lemma_times_x(8, 19, 4);
    assert(spec_fpow(2, 4, 19) == 3);
    lemma_small_is_reduced(3, 4);
    lemma_times_x(3, 19, 4);
    assert(spec_fpow(2, 5, 19) == 6);
    lemma_small_is_reduced(6, 4);
    lemma_times_x(6, 19, 4);
    assert(spec_fpow(2, 6, 19) == 12);
    lemma_small_is_reduced(12, 4);
    lemma_times_x(12, 19, 4);
    assert(spec_fpow(2, 7, 19) == 11);
    lemma_small_is_reduced(11, 4);
    lemma_times_x(11, 19, 4);
    assert(spec_fpow(2, 8, 19) == 5);
    lemma_small_is_reduced(5, 4);
    lemma_times_x(5, 19, 4);
    assert(spec_fpow(2, 9, 19) == 10);
    lemma_small_is_reduced(10, 4);
    lemma_times_x(10, 19, 4);
    assert(spec_fpow(2, 10, 19) == 7);
    lemma_small_is_reduced(7, 4);
    lemma_times_x(7, 19, 4);
    assert(spec_fpow(2, 11, 19) == 14);
    lemma_small_is_reduced(14, 4);
    lemma_times_x(14, 19, 4);
    assert(spec_fpow(2, 12, 19) == 15);
    lemma_small_is_reduced(15, 4);
    lemma_times_x(15, 19, 4);
    assert(spec_fpow(2, 13, 19) == 13);
    lemma_small_is_reduced(13, 4);
    lemma_times_x(13, 19, 4);
    assert(spec_fpow(2, 14, 19) == 9);
    lemma_small_is_reduced(9, 4);
    lemma_times_x(9, 19, 4);
    assert(spec_fpow(2, 15, 19) == 1);
}

/// In GF(4), GF(8) and GF(16) the first primitive element is `x`.
pub proof fn lemma_primitive_small(m: u32)
    requires
        2 <= m <= 4,
    ensures
        spec_primitive_element(m) == Some(2u32),
{
    lemma_irreducible_table();
    lemma_table_bits();
    let p = field_modulus(m);
    if m == 2 {
        lemma_powers_of_x_2();
    } else if m == 3 {
        lemma_powers_of_x_3();
    } else {
        lemma_powers_of_x_4();
    }
    lemma_fpow_of_one(1, p);
    assert(spec_is_primitive(2, m, p));
    assert(!spec_is_primitive(1, m, p));
    lemma_first_primitive_unique(2, m);
}

} // verus!
