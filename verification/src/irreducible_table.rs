//! The first irreducible polynomials of the degrees 1 to 8, and with them the
//! existence of the fields GF(2) to GF(2^8).

use vstd::prelude::*;
use crate::gf2tm::field_exists;
use crate::poly_gf2::{
    is_first_irreducible, lemma_degree_bits, lemma_degree_range, lemma_degree_shift,
    lemma_mul_upto_stable, mul_term, no_divisor_below, spec_degree, spec_div, spec_irreducible,
    spec_mul, spec_mul_upto, spec_rem,
};
use crate::poly_gf2_lemmas::{lemma_div_degree, lemma_divmod_law, lemma_rem_of_multiple};

verus! {

/// The product of `a` with the low eight bits of `b`, term by term.
pub open spec fn spec_mul8(a: u32, b: u32) -> u32 {
    0u32 ^ mul_term(a, b, 0) ^ mul_term(a, b, 1) ^ mul_term(a, b, 2) ^ mul_term(a, b, 3) ^ mul_term(
        a,
        b,
        4,
    ) ^ mul_term(a, b, 5) ^ mul_term(a, b, 6) ^ mul_term(a, b, 7)
}

proof fn lemma_below_256(x: u32)
    by (bit_vector)
    requires
        x < 256,
    ensures
        x >> 8 == 0,
{
}

/// The product with a polynomial of degree below eight has eight terms.
pub proof fn lemma_mul8(a: u32, b: u32)
    requires
        b < 256,
    ensures
        spec_mul(a, b) == spec_mul8(a, b),
{
    lemma_below_256(b);
    lemma_mul_upto_stable(a, b, 8, 32);
    reveal_with_fuel(spec_mul_upto, 9);
}

/// None of the polynomials of the table is a product of two polynomials of lower,
/// positive degree.
proof fn lemma_no_factors(q: u32, i: u32)
    by (bit_vector)
    requires
        q < 256,
    ensures
        2 <= i < 4 ==> spec_mul8(q, i) != 7,
        2 <= i < 8 ==> spec_mul8(q, i) != 11,
        2 <= i < 16 ==> spec_mul8(q, i) != 19,
        2 <= i < 32 ==> spec_mul8(q, i) != 37,
        2 <= i < 64 ==> spec_mul8(q, i) != 67,
        2 <= i < 128 ==> spec_mul8(q, i) != 131,
        2 <= i < 256 ==> spec_mul8(q, i) != 283,
{
}

/// A factorization of each polynomial that comes before the polynomial of the table
/// among those of its degree.
proof fn lemma_factorizations()
    by (bit_vector)
    ensures
        spec_mul8(2, 2) == 4,
        spec_mul8(3, 3) == 5,
        spec_mul8(3, 2) == 6,
        spec_mul8(4, 2) == 8,
        spec_mul8(7, 3) == 9,
        spec_mul8(5, 2) == 10,
        spec_mul8(8, 2) == 16,
        spec_mul8(15, 3) == 17,
        spec_mul8(9, 2) == 18,
        spec_mul8(16, 2) == 32,
        spec_mul8(31, 3) == 33,
        spec_mul8(17, 2) == 34,
        spec_mul8(13, 7) == 35,
        spec_mul8(18, 2) == 36,
        spec_mul8(32, 2) == 64,
        spec_mul8(63, 3) == 65,
        spec_mul8(33, 2) == 66,
        spec_mul8(64, 2) == 128,
        spec_mul8(127, 3) == 129,
        spec_mul8(65, 2) == 130,
        spec_mul8(128, 2) == 256,
        spec_mul8(255, 3) == 257,
        spec_mul8(129, 2) == 258,
        spec_mul8(109, 7) == 259,
        spec_mul8(130, 2) == 260,
        spec_mul8(19, 19) == 261,
        spec_mul8(131, 2) == 262,
        spec_mul8(253, 3) == 263,
        spec_mul8(132, 2) == 264,
        spec_mul8(47, 11) == 265,
        spec_mul8(133, 2) == 266,
        spec_mul8(249, 3) == 267,
        spec_mul8(134, 2) == 268,
        spec_mul8(251, 3) == 269,
        spec_mul8(135, 2) == 270,
        spec_mul8(59, 13) == 271,
        spec_mul8(136, 2) == 272,
        spec_mul8(107, 7) == 273,
        spec_mul8(137, 2) == 274,
        spec_mul8(241, 3) == 275,
        spec_mul8(138, 2) == 276,
        spec_mul8(243, 3) == 277,
        spec_mul8(139, 2) == 278,
        spec_mul8(31, 25) == 279,
        spec_mul8(140, 2) == 280,
        spec_mul8(247, 3) == 281,
        spec_mul8(141, 2) == 282,
{
}

/// The powers of two up to `2^8`, and the degrees of the polynomials of the table.
pub proof fn lemma_table_bits()
    by (bit_vector)
    ensures
        1u32 << 0 == 1,
        1u32 << 1 == 2,
        1u32 << 2 == 4,
        1u32 << 3 == 8,
        1u32 << 4 == 16,
        1u32 << 5 == 32,
        1u32 << 6 == 64,
        1u32 << 7 == 128,
        1u32 << 8 == 256,
        2u32 >> 1 == 1,
        7u32 >> 2 == 1,
        11u32 >> 3 == 1,
        19u32 >> 4 == 1,
        37u32 >> 5 == 1,
        67u32 >> 6 == 1,
        131u32 >> 7 == 1,
        283u32 >> 8 == 1,
{
}

/// A polynomial below `2^8` has degree below eight.
proof fn lemma_small_degree(x: u32)
    requires
        x < 256,
    ensures
        spec_degree(x) <= 7,
{
    lemma_below_256(x);
    lemma_degree_shift(x, 8);
}

/// A polynomial with a factorization into polynomials below `2^8` has the second
/// factor as a divisor.
proof fn lemma_has_divisor(v: u32, i: u32, k: u32, d: u32)
    requires
        k < 256,
        2 <= i < 256,
        i < (1u32 << d),
        spec_mul8(k, i) == v,
    ensures
        !no_divisor_below(v, d),
{
    lemma_mul8(k, i);
    lemma_small_degree(k);
    lemma_small_degree(i);
    lemma_degree_bits(k);
    lemma_rem_of_multiple(k, i);
    assert(spec_rem(v, i) == 0);
}

/// A polynomial of degree `d` at most eight that is no product of two polynomials of
/// lower, positive degree has no divisor from `2` up to `2^d`.
proof fn lemma_has_no_divisor(p: u32, d: u32)
    requires
        1 <= d <= 8,
        spec_degree(p) == d,
        (1u32 << d) <= 256,
        forall|q: u32, i: u32| q < 256 && 2 <= i < (1u32 << d) ==> #[trigger] spec_mul8(q, i) != p,
    ensures
        no_divisor_below(p, d),
{
    assert forall|i: u32| 2 <= i < (1u32 << d) implies #[trigger] spec_rem(p, i) != 0 by {
        if spec_rem(p, i) == 0 {
            let q = spec_div(p, i);
            lemma_divmod_law(p, i);
            lemma_div_degree(p, i);
            lemma_degree_bits(i);
            lemma_degree_bits(q);
            crate::bits::lemma_xor(spec_mul(q, i), 0, 0);
            // the divisor has a degree from 1 up to d, so the quotient one below eight
            lemma_table_bits();
            lemma_degree_range(i, 0);
            crate::gf2tm::lemma_small_is_reduced(i, d);
            lemma_degree_shift(q, 8);
            lemma_below_256_converse(q);
            lemma_mul8(q, i);
            assert(spec_mul8(q, i) == p);
        }
    }
}

proof fn lemma_below_256_converse(x: u32)
    by (bit_vector)
    requires
        x >> 8 == 0,
    ensures
        x < 256,
{
}

proof fn lemma_irreducible_1()
    ensures
        spec_irreducible(1) == 2,
{
    lemma_table_bits();
    lemma_degree_shift(2, 1);
    assert(no_divisor_below(2, 1));
    assert forall|q: u32| spec_degree(q) == 1 && q < 2 implies !#[trigger] no_divisor_below(q, 1) by {
        lemma_degree_range(q, 1);
    }
    assert(is_first_irreducible(2, 1));
    let c = choose|p: u32| is_first_irreducible(p, 1);
    lemma_degree_range(c, 1);
    assert(c == 2);
}

proof fn lemma_irreducible_2()
    ensures
        spec_irreducible(2) == 7,
{
    lemma_table_bits();
    lemma_degree_shift(7, 2);
    assert forall|q: u32, i: u32| q < 256 && 2 <= i < (1u32 << 2u32) implies #[trigger] spec_mul8(q, i) != 7u32 by {
        lemma_no_factors(q, i);
    }
    lemma_has_no_divisor(7, 2);
    lemma_factorizations();
    lemma_has_divisor(4, 2, 2, 2);
    lemma_has_divisor(5, 3, 3, 2);
    lemma_has_divisor(6, 2, 3, 2);
    assert forall|q: u32| spec_degree(q) == 2 && q < 7 implies !#[trigger] no_divisor_below(q, 2) by {
        lemma_degree_range(q, 2);
    }
    assert(is_first_irreducible(7, 2));
    let c = choose|p: u32| is_first_irreducible(p, 2);
    lemma_degree_range(c, 2);
    assert(c == 7);
}

proof fn lemma_irreducible_3()
    ensures
        spec_irreducible(3) == 11,
{
    lemma_table_bits();
    lemma_degree_shift(11, 3);
    assert forall|q: u32, i: u32| q < 256 && 2 <= i < (1u32 << 3u32) implies #[trigger] spec_mul8(q, i) != 11u32 by {
        lemma_no_factors(q, i);
    }
    lemma_has_no_divisor(11, 3);
    lemma_factorizations();
    lemma_has_divisor(8, 2, 4, 3);
    lemma_has_divisor(9, 3, 7, 3);
    lemma_has_divisor(10, 2, 5, 3);
    assert forall|q: u32| spec_degree(q) == 3 && q < 11 implies !#[trigger] no_divisor_below(q, 3) by {
        lemma_degree_range(q, 3);
    }
    assert(is_first_irreducible(11, 3));
    let c = choose|p: u32| is_first_irreducible(p, 3);
    lemma_degree_range(c, 3);
    assert(c == 11);
}

proof fn lemma_irreducible_4()
    ensures
        spec_irreducible(4) == 19,
{
    lemma_table_bits();
    lemma_degree_shift(19, 4);
    assert forall|q: u32, i: u32| q < 256 && 2 <= i < (1u32 << 4u32) implies #[trigger] spec_mul8(q, i) != 19u32 by {
        lemma_no_factors(q, i);
    }
    lemma_has_no_divisor(19, 4);
    lemma_factorizations();
    lemma_has_divisor(16, 2, 8, 4);
    lemma_has_divisor(17, 3, 15, 4);
    lemma_has_divisor(18, 2, 9, 4);
    assert forall|q: u32| spec_degree(q) == 4 && q < 19 implies !#[trigger] no_divisor_below(q, 4) by {
        lemma_degree_range(q, 4);
    }
    assert(is_first_irreducible(19, 4));
    let c = choose|p: u32| is_first_irreducible(p, 4);
    lemma_degree_range(c, 4);
    assert(c == 19);
}

proof fn lemma_irreducible_5()
    ensures
        spec_irreducible(5) == 37,
{
    lemma_table_bits();
    lemma_degree_shift(37, 5);
    assert forall|q: u32, i: u32| q < 256 && 2 <= i < (1u32 << 5u32) implies #[trigger] spec_mul8(q, i) != 37u32 by {
        lemma_no_factors(q, i);
    }
    lemma_has_no_divisor(37, 5);
    lemma_factorizations();
    lemma_has_divisor(32, 2, 16, 5);
    lemma_has_divisor(33, 3, 31, 5);
    lemma_has_divisor(34, 2, 17, 5);
    lemma_has_divisor(35, 7, 13, 5);
    lemma_has_divisor(36, 2, 18, 5);
    assert forall|q: u32| spec_degree(q) == 5 && q < 37 implies !#[trigger] no_divisor_below(q, 5) by {
        lemma_degree_range(q, 5);
    }
    assert(is_first_irreducible(37, 5));
    let c = choose|p: u32| is_first_irreducible(p, 5);
    lemma_degree_range(c, 5);
    assert(c == 37);
}

proof fn lemma_irreducible_6()
    ensures
        spec_irreducible(6) == 67,
{
    lemma_table_bits();
    lemma_degree_shift(67, 6);
    assert forall|q: u32, i: u32| q < 256 && 2 <= i < (1u32 << 6u32) implies #[trigger] spec_mul8(q, i) != 67u32 by {
        lemma_no_factors(q, i);
    }
    lemma_has_no_divisor(67, 6);
    lemma_factorizations();
    lemma_has_divisor(64, 2, 32, 6);
    lemma_has_divisor(65, 3, 63, 6);
    lemma_has_divisor(66, 2, 33, 6);
    assert forall|q: u32| spec_degree(q) == 6 && q < 67 implies !#[trigger] no_divisor_below(q, 6) by {
        lemma_degree_range(q, 6);
    }
    assert(is_first_irreducible(67, 6));
    let c = choose|p: u32| is_first_irreducible(p, 6);
    lemma_degree_range(c, 6);
    assert(c == 67);
}

proof fn lemma_irreducible_7()
    ensures
        spec_irreducible(7) == 131,
{
    lemma_table_bits();
    lemma_degree_shift(131, 7);
    assert forall|q: u32, i: u32| q < 256 && 2 <= i < (1u32 << 7u32) implies #[trigger] spec_mul8(q, i) != 131u32 by {
        lemma_no_factors(q, i);
    }
    lemma_has_no_divisor(131, 7);
    lemma_factorizations();
    lemma_has_divisor(128, 2, 64, 7);
    lemma_has_divisor(129, 3, 127, 7);
    lemma_has_divisor(130, 2, 65, 7);
    assert forall|q: u32| spec_degree(q) == 7 && q < 131 implies !#[trigger] no_divisor_below(q, 7) by {
        lemma_degree_range(q, 7);
    }
    assert(is_first_irreducible(131, 7));
    let c = choose|p: u32| is_first_irreducible(p, 7);
    lemma_degree_range(c, 7);
    assert(c == 131);
}

proof fn lemma_irreducible_8()
    ensures
        spec_irreducible(8) == 283,
{
    lemma_table_bits();
    lemma_degree_shift(283, 8);
    assert forall|q: u32, i: u32| q < 256 && 2 <= i < (1u32 << 8u32) implies #[trigger] spec_mul8(q, i) != 283u32 by {
        lemma_no_factors(q, i);
    }
    lemma_has_no_divisor(283, 8);
    lemma_factorizations();
    lemma_has_divisor(256, 2, 128, 8);
    lemma_has_divisor(257, 3, 255, 8);
    lemma_has_divisor(258, 2, 129, 8);
    lemma_has_divisor(259, 7, 109, 8);
    lemma_has_divisor(260, 2, 130, 8);
    lemma_has_divisor(261, 19, 19, 8);
    lemma_has_divisor(262, 2, 131, 8);
    lemma_has_divisor(263, 3, 253, 8);
    lemma_has_divisor(264, 2, 132, 8);
    lemma_has_divisor(265, 11, 47, 8);
    lemma_has_divisor(266, 2, 133, 8);
    lemma_has_divisor(267, 3, 249, 8);
    lemma_has_divisor(268, 2, 134, 8);
    lemma_has_divisor(269, 3, 251, 8);
    lemma_has_divisor(270, 2, 135, 8);
    lemma_has_divisor(271, 13, 59, 8);
    lemma_has_divisor(272, 2, 136, 8);
    lemma_has_divisor(273, 7, 107, 8);
    lemma_has_divisor(274, 2, 137, 8);
    lemma_has_divisor(275, 3, 241, 8);
    lemma_has_divisor(276, 2, 138, 8);
    lemma_has_divisor(277, 3, 243, 8);
    lemma_has_divisor(278, 2, 139, 8);
    lemma_has_divisor(279, 25, 31, 8);
    lemma_has_divisor(280, 2, 140, 8);
    lemma_has_divisor(281, 3, 247, 8);
    lemma_has_divisor(282, 2, 141, 8);
    assert forall|q: u32| spec_degree(q) == 8 && q < 283 implies !#[trigger] no_divisor_below(q, 8) by {
        lemma_degree_range(q, 8);
    }
    assert(is_first_irreducible(283, 8));
    let c = choose|p: u32| is_first_irreducible(p, 8);
    lemma_degree_range(c, 8);
    assert(c == 283);
}

/// The first irreducible polynomials of the degrees 1 to 8.
pub proof fn lemma_irreducible_table()
    ensures
        spec_irreducible(1) == 0b10,
        spec_irreducible(2) == 0b111,
        spec_irreducible(3) == 0b1011,
        spec_irreducible(4) == 0b10011,
        spec_irreducible(5) == 0b100101,
        spec_irreducible(6) == 0b1000011,
        spec_irreducible(7) == 0b10000011,
        spec_irreducible(8) == 0b100011011,
{
    lemma_irreducible_1();
    lemma_irreducible_2();
    lemma_irreducible_3();
    lemma_irreducible_4();
    lemma_irreducible_5();
    lemma_irreducible_6();
    lemma_irreducible_7();
    lemma_irreducible_8();
}

/// The fields GF(2) to GF(2^8) exist.
pub proof fn lemma_small_fields_exist(m: u32)
    requires
        1 <= m <= 8,
    ensures
        field_exists(m),
{
    lemma_irreducible_table();
}

} // verus!
