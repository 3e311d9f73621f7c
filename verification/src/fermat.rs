//! Fermat's little theorem in the fields GF(2) to GF(2^8): the power `2^m - 1` of
//! every element but zero is one, so that the power `2^m - 2` is its inverse.
//!
//! The product in such a field is written without recursion, as the eight terms of
//! the product of the polynomials and the seven residues of the monomials that may
//! stand above the degree of the field. The power is then a tower of squares, and one
//! query about fixed-width words settles each field.

use vstd::prelude::*;
use vstd::std_specs::ops::{DivSpec, MulSpec};
use crate::bits::{lemma_leading_one, lemma_shift};
use crate::field_laws::{
    field_has_inverses, lemma_fmul_associative, lemma_fmul_commutative, lemma_fmul_of_residue,
    lemma_fmul_one, lemma_fpow_add, lemma_fpow_reduced, lemma_inverse_from_order,
};
use crate::gf2tm::{
    field_exists, field_modulus, lemma_field_modulus, lemma_small_is_reduced, spec_finv,
    spec_fmul, spec_fpow, GF2TM,
};
use crate::irreducible_table::{lemma_irreducible_table, lemma_mul8, lemma_table_bits, spec_mul8};
use crate::poly_gf2::{
    lemma_degree_bits, lemma_degree_shift, low_bits, spec_degree, spec_mul, spec_rem,
};
use crate::poly_gf2_lemmas::{
    lemma_divmod_law, lemma_mul_degree, lemma_mul_monomial, lemma_mul_zero, lemma_rem_linear,
    lemma_rem_small,
};
use crate::small_fields::{lemma_times_x, spec_times_x};

verus! {

/// The residue `r` where bit `k` of `z` is set, and nothing elsewhere.
pub open spec fn pick(z: u32, k: u32, r: u32) -> u32 {
    if (z >> k) & 1 == 1 {
        r
    } else {
        0
    }
}

/// The residue of a polynomial `z` of degree below `m + 7`, from the residues
/// `r0 .. r6` of the monomials `x^m .. x^(m+6)`.
pub open spec fn fold7(
    z: u32,
    m: u32,
    r0: u32,
    r1: u32,
    r2: u32,
    r3: u32,
    r4: u32,
    r5: u32,
    r6: u32,
) -> u32 {
    low_bits(z, m) ^ pick(z, m, r0) ^ pick(z, (m + 1) as u32, r1) ^ pick(z, (m + 2) as u32, r2)
        ^ pick(z, (m + 3) as u32, r3) ^ pick(z, (m + 4) as u32, r4) ^ pick(
        z,
        (m + 5) as u32,
        r5,
    ) ^ pick(z, (m + 6) as u32, r6)
}

/// A polynomial of degree below `m + 7` is its terms below `x^m` and seven monomials.
proof fn lemma_decompose7(z: u32, m: u32)
    by (bit_vector)
    requires
        1 <= m <= 8,
        z >> ((m + 7) as u32) == 0,
    ensures
        z == low_bits(z, m) ^ pick(z, m, 1u32 << m) ^ pick(
            z,
            (m + 1) as u32,
            1u32 << ((m + 1) as u32),
        ) ^ pick(z, (m + 2) as u32, 1u32 << ((m + 2) as u32)) ^ pick(
            z,
            (m + 3) as u32,
            1u32 << ((m + 3) as u32),
        ) ^ pick(z, (m + 4) as u32, 1u32 << ((m + 4) as u32)) ^ pick(
            z,
            (m + 5) as u32,
            1u32 << ((m + 5) as u32),
        ) ^ pick(z, (m + 6) as u32, 1u32 << ((m + 6) as u32)),
        low_bits(z, m) >> m == 0,
{
}

/// The residue of the monomial that `pick` takes is the residue that it takes.
proof fn lemma_pick(z: u32, k: u32, r: u32, p: u32)
    requires
        p != 0,
        spec_rem(1u32 << k, p) == r,
    ensures
        spec_rem(pick(z, k, 1u32 << k), p) == pick(z, k, r),
{
    lemma_degree_bits(0);
    lemma_degree_bits(p);
    lemma_rem_small(0, p);
}

/// The remainder of a polynomial of degree below `m + 7` is made of the residues of
/// its monomials.
pub proof fn lemma_fold7(
    z: u32,
    m: u32,
    p: u32,
    r0: u32,
    r1: u32,
    r2: u32,
    r3: u32,
    r4: u32,
    r5: u32,
    r6: u32,
)
    requires
        1 <= m <= 8,
        spec_degree(p) == m,
        z >> ((m + 7) as u32) == 0,
        spec_rem(1u32 << m, p) == r0,
        spec_rem(1u32 << ((m + 1) as u32), p) == r1,
        spec_rem(1u32 << ((m + 2) as u32), p) == r2,
        spec_rem(1u32 << ((m + 3) as u32), p) == r3,
        spec_rem(1u32 << ((m + 4) as u32), p) == r4,
        spec_rem(1u32 << ((m + 5) as u32), p) == r5,
        spec_rem(1u32 << ((m + 6) as u32), p) == r6,
    ensures
        spec_rem(z, p) == fold7(z, m, r0, r1, r2, r3, r4, r5, r6),
{
    lemma_degree_bits(p);
    lemma_decompose7(z, m);
    let low = low_bits(z, m);
    lemma_degree_shift(low, m);
    lemma_rem_small(low, p);
    let b0 = pick(z, m, 1u32 << m);
    let b1 = pick(z, (m + 1) as u32, 1u32 << ((m + 1) as u32));
    let b2 = pick(z, (m + 2) as u32, 1u32 << ((m + 2) as u32));
    let b3 = pick(z, (m + 3) as u32, 1u32 << ((m + 3) as u32));
    let b4 = pick(z, (m + 4) as u32, 1u32 << ((m + 4) as u32));
    let b5 = pick(z, (m + 5) as u32, 1u32 << ((m + 5) as u32));
    let b6 = pick(z, (m + 6) as u32, 1u32 << ((m + 6) as u32));
    lemma_pick(z, m, r0, p);
    lemma_pick(z, (m + 1) as u32, r1, p);
    lemma_pick(z, (m + 2) as u32, r2, p);
    lemma_pick(z, (m + 3) as u32, r3, p);
    lemma_pick(z, (m + 4) as u32, r4, p);
    lemma_pick(z, (m + 5) as u32, r5, p);
    lemma_pick(z, (m + 6) as u32, r6, p);
    lemma_rem_linear(low, b0, p);
    lemma_rem_linear(low ^ b0, b1, p);
    lemma_rem_linear(low ^ b0 ^ b1, b2, p);
    lemma_rem_linear(low ^ b0 ^ b1 ^ b2, b3, p);
    lemma_rem_linear(low ^ b0 ^ b1 ^ b2 ^ b3, b4, p);
    lemma_rem_linear(low ^ b0 ^ b1 ^ b2 ^ b3 ^ b4, b5, p);
    lemma_rem_linear(low ^ b0 ^ b1 ^ b2 ^ b3 ^ b4 ^ b5, b6, p);
}

/// The residue of the next monomial is `x` times the residue of this one.
proof fn lemma_next_residue(k: u32, p: u32, m: u32, r: u32)
    requires
        1 <= m <= 8,
        k < 30,
        spec_degree(p) == m,
        spec_rem(1u32 << k, p) == r,
    ensures
        spec_rem(1u32 << ((k + 1) as u32), p) == spec_times_x(r, p, m),
{
    lemma_degree_bits(p);
    lemma_divmod_law(1u32 << k, p);
    lemma_times_x(r, p, m);
    // x^(k+1) = x^k * x
    lemma_mul_monomial(2, k);
    lemma_table_bits();
    lemma_shift(0, k);
    lemma_leading_one(0, 0, 0, k);
    lemma_degree_shift(1u32 << k, k);
    lemma_degree_shift(2, 1);
    lemma_two_shifts(k);
    lemma_fmul_of_residue(1u32 << k, 2, p);
}

proof fn lemma_two_shifts(k: u32)
    by (bit_vector)
    requires
        k < 31,
    ensures
        2u32 << k == 1u32 << ((k + 1) as u32),
        2u32 >> 1 == 1,
{
}

/// The residues of the monomials from `x^m` to `x^(m+6)` in each field, step by step.
proof fn lemma_residue_steps()
    by (bit_vector)
    ensures
        spec_times_x(2, 7, 2) == 3,
        spec_times_x(3, 7, 2) == 1,
        spec_times_x(1, 7, 2) == 2,
        spec_times_x(4, 11, 3) == 3,
        spec_times_x(3, 11, 3) == 6,
        spec_times_x(6, 11, 3) == 7,
        spec_times_x(7, 11, 3) == 5,
        spec_times_x(5, 11, 3) == 1,
        spec_times_x(1, 11, 3) == 2,
        spec_times_x(2, 11, 3) == 4,
        spec_times_x(8, 19, 4) == 3,
        spec_times_x(3, 19, 4) == 6,
        spec_times_x(6, 19, 4) == 12,
        spec_times_x(12, 19, 4) == 11,
        spec_times_x(11, 19, 4) == 5,
        spec_times_x(5, 19, 4) == 10,
        spec_times_x(10, 19, 4) == 7,
        spec_times_x(16, 37, 5) == 5,
        spec_times_x(5, 37, 5) == 10,
        spec_times_x(10, 37, 5) == 20,
        spec_times_x(20, 37, 5) == 13,
        spec_times_x(13, 37, 5) == 26,
        spec_times_x(26, 37, 5) == 17,
        spec_times_x(17, 37, 5) == 7,
        spec_times_x(32, 67, 6) == 3,
        spec_times_x(3, 67, 6) == 6,
        spec_times_x(6, 67, 6) == 12,
        spec_times_x(12, 67, 6) == 24,
        spec_times_x(24, 67, 6) == 48,
        spec_times_x(48, 67, 6) == 35,
        spec_times_x(35, 67, 6) == 5,
        spec_times_x(64, 131, 7) == 3,
        spec_times_x(3, 131, 7) == 6,
        spec_times_x(6, 131, 7) == 12,
        spec_times_x(12, 131, 7) == 24,
        spec_times_x(24, 131, 7) == 48,
        spec_times_x(48, 131, 7) == 96,
        spec_times_x(96, 131, 7) == 67,
        spec_times_x(128, 283, 8) == 27,
        spec_times_x(27, 283, 8) == 54,
        spec_times_x(54, 283, 8) == 108,
        spec_times_x(108, 283, 8) == 216,
        spec_times_x(216, 283, 8) == 171,
        spec_times_x(171, 283, 8) == 77,
        spec_times_x(77, 283, 8) == 154,
{
}

/// The residues of the monomials above the degree of GF(2^2).
proof fn lemma_residues_2()
    ensures
        field_modulus(2) == 7,
        spec_degree(7) == 2,
        spec_rem(1u32 << 2u32, 7) == 3,
        spec_rem(1u32 << 3u32, 7) == 1,
        spec_rem(1u32 << 4u32, 7) == 2,
        spec_rem(1u32 << 5u32, 7) == 3,
        spec_rem(1u32 << 6u32, 7) == 1,
        spec_rem(1u32 << 7u32, 7) == 2,
        spec_rem(1u32 << 8u32, 7) == 3,
{
    lemma_irreducible_table();
    lemma_table_bits();
    lemma_residue_steps();
    lemma_degree_shift(7, 2);
    lemma_leading_one(0, 0, 0, 1);
    lemma_degree_shift(1u32 << 1u32, 1);
    lemma_rem_small(1u32 << 1u32, 7);
    lemma_next_residue(1, 7, 2, 2);
    lemma_next_residue(2, 7, 2, 3);
    lemma_next_residue(3, 7, 2, 1);
    lemma_next_residue(4, 7, 2, 2);
    lemma_next_residue(5, 7, 2, 3);
    lemma_next_residue(6, 7, 2, 1);
    lemma_next_residue(7, 7, 2, 2);
}

/// The residues of the monomials above the degree of GF(2^3).
proof fn lemma_residues_3()
    ensures
        field_modulus(3) == 11,
        spec_degree(11) == 3,
        spec_rem(1u32 << 3u32, 11) == 3,
        spec_rem(1u32 << 4u32, 11) == 6,
        spec_rem(1u32 << 5u32, 11) == 7,
        spec_rem(1u32 << 6u32, 11) == 5,
        spec_rem(1u32 << 7u32, 11) == 1,
        spec_rem(1u32 << 8u32, 11) == 2,
        spec_rem(1u32 << 9u32, 11) == 4,
{
    lemma_irreducible_table();
    lemma_table_bits();
    lemma_residue_steps();
    lemma_degree_shift(11, 3);
    lemma_leading_one(0, 0, 0, 2);
    lemma_degree_shift(1u32 << 2u32, 2);
    lemma_rem_small(1u32 << 2u32, 11);
    lemma_next_residue(2, 11, 3, 4);
    lemma_next_residue(3, 11, 3, 3);
    lemma_next_residue(4, 11, 3, 6);
    lemma_next_residue(5, 11, 3, 7);
    lemma_next_residue(6, 11, 3, 5);
    lemma_next_residue(7, 11, 3, 1);
    lemma_next_residue(8, 11, 3, 2);
}

/// The residues of the monomials above the degree of GF(2^4).
proof fn lemma_residues_4()
    ensures
        field_modulus(4) == 19,
        spec_degree(19) == 4,
        spec_rem(1u32 << 4u32, 19) == 3,
        spec_rem(1u32 << 5u32, 19) == 6,
        spec_rem(1u32 << 6u32, 19) == 12,
        spec_rem(1u32 << 7u32, 19) == 11,
        spec_rem(1u32 << 8u32, 19) == 5,
        spec_rem(1u32 << 9u32, 19) == 10,
        spec_rem(1u32 << 10u32, 19) == 7,
{
    lemma_irreducible_table();
    lemma_table_bits();
    lemma_residue_steps();
    lemma_degree_shift(19, 4);
    lemma_leading_one(0, 0, 0, 3);
    lemma_degree_shift(1u32 << 3u32, 3);
    lemma_rem_small(1u32 << 3u32, 19);
    lemma_next_residue(3, 19, 4, 8);
    lemma_next_residue(4, 19, 4, 3);
    lemma_next_residue(5, 19, 4, 6);
    lemma_next_residue(6, 19, 4, 12);
    lemma_next_residue(7, 19, 4, 11);
    lemma_next_residue(8, 19, 4, 5);
    lemma_next_residue(9, 19, 4, 10);
}

/// The residues of the monomials above the degree of GF(2^5).
proof fn lemma_residues_5()
    ensures
        field_modulus(5) == 37,
        spec_degree(37) == 5,
        spec_rem(1u32 << 5u32, 37) == 5,
        spec_rem(1u32 << 6u32, 37) == 10,
        spec_rem(1u32 << 7u32, 37) == 20,
        spec_rem(1u32 << 8u32, 37) == 13,
        spec_rem(1u32 << 9u32, 37) == 26,
        spec_rem(1u32 << 10u32, 37) == 17,
        spec_rem(1u32 << 11u32, 37) == 7,
{
    lemma_irreducible_table();
    lemma_table_bits();
    lemma_residue_steps();
    lemma_degree_shift(37, 5);
    lemma_leading_one(0, 0, 0, 4);
    lemma_degree_shift(1u32 << 4u32, 4);
    lemma_rem_small(1u32 << 4u32, 37);
    lemma_next_residue(4, 37, 5, 16);
    lemma_next_residue(5, 37, 5, 5);
    lemma_next_residue(6, 37, 5, 10);
    lemma_next_residue(7, 37, 5, 20);
    lemma_next_residue(8, 37, 5, 13);
    lemma_next_residue(9, 37, 5, 26);
    lemma_next_residue(10, 37, 5, 17);
}

/// The residues of the monomials above the degree of GF(2^6).
proof fn lemma_residues_6()
    ensures
        field_modulus(6) == 67,
        spec_degree(67) == 6,
        spec_rem(1u32 << 6u32, 67) == 3,
        spec_rem(1u32 << 7u32, 67) == 6,
        spec_rem(1u32 << 8u32, 67) == 12,
        spec_rem(1u32 << 9u32, 67) == 24,
        spec_rem(1u32 << 10u32, 67) == 48,
        spec_rem(1u32 << 11u32, 67) == 35,
        spec_rem(1u32 << 12u32, 67) == 5,
{
    lemma_irreducible_table();
    lemma_table_bits();
    lemma_residue_steps();
    lemma_degree_shift(67, 6);
    lemma_leading_one(0, 0, 0, 5);
    lemma_degree_shift(1u32 << 5u32, 5);
    lemma_rem_small(1u32 << 5u32, 67);
    lemma_next_residue(5, 67, 6, 32);
    lemma_next_residue(6, 67, 6, 3);
    lemma_next_residue(7, 67, 6, 6);
    lemma_next_residue(8, 67, 6, 12);
    lemma_next_residue(9, 67, 6, 24);
    lemma_next_residue(10, 67, 6, 48);
    lemma_next_residue(11, 67, 6, 35);
}

/// The residues of the monomials above the degree of GF(2^7).
proof fn lemma_residues_7()
    ensures
        field_modulus(7) == 131,
        spec_degree(131) == 7,
        spec_rem(1u32 << 7u32, 131) == 3,
        spec_rem(1u32 << 8u32, 131) == 6,
        spec_rem(1u32 << 9u32, 131) == 12,
        spec_rem(1u32 << 10u32, 131) == 24,
        spec_rem(1u32 << 11u32, 131) == 48,
        spec_rem(1u32 << 12u32, 131) == 96,
        spec_rem(1u32 << 13u32, 131) == 67,
{
    lemma_irreducible_table();
    lemma_table_bits();
    lemma_residue_steps();
    lemma_degree_shift(131, 7);
    lemma_leading_one(0, 0, 0, 6);
    lemma_degree_shift(1u32 << 6u32, 6);
    lemma_rem_small(1u32 << 6u32, 131);
    lemma_next_residue(6, 131, 7, 64);
    lemma_next_residue(7, 131, 7, 3);
    lemma_next_residue(8, 131, 7, 6);
    lemma_next_residue(9, 131, 7, 12);
    lemma_next_residue(10, 131, 7, 24);
    lemma_next_residue(11, 131, 7, 48);
    lemma_next_residue(12, 131, 7, 96);
}

/// The residues of the monomials above the degree of GF(2^8).
proof fn lemma_residues_8()
    ensures
        field_modulus(8) == 283,
        spec_degree(283) == 8,
        spec_rem(1u32 << 8u32, 283) == 27,
        spec_rem(1u32 << 9u32, 283) == 54,
        spec_rem(1u32 << 10u32, 283) == 108,
        spec_rem(1u32 << 11u32, 283) == 216,
        spec_rem(1u32 << 12u32, 283) == 171,
        spec_rem(1u32 << 13u32, 283) == 77,
        spec_rem(1u32 << 14u32, 283) == 154,
{
    lemma_irreducible_table();
    lemma_table_bits();
    lemma_residue_steps();
    lemma_degree_shift(283, 8);
    lemma_leading_one(0, 0, 0, 7);
    lemma_degree_shift(1u32 << 7u32, 7);
    lemma_rem_small(1u32 << 7u32, 283);
    lemma_next_residue(7, 283, 8, 128);
    lemma_next_residue(8, 283, 8, 27);
    lemma_next_residue(9, 283, 8, 54);
    lemma_next_residue(10, 283, 8, 108);
    lemma_next_residue(11, 283, 8, 216);
    lemma_next_residue(12, 283, 8, 171);
    lemma_next_residue(13, 283, 8, 77);
}

/// The product of two residues is the fold of the eight terms of their product.
proof fn lemma_product(
    x: u32,
    y: u32,
    m: u32,
    p: u32,
    r0: u32,
    r1: u32,
    r2: u32,
    r3: u32,
    r4: u32,
    r5: u32,
    r6: u32,
)
    requires
        1 <= m <= 8,
        spec_degree(p) == m,
        spec_degree(x) < m,
        spec_degree(y) < m,
        spec_rem(1u32 << m, p) == r0,
        spec_rem(1u32 << ((m + 1) as u32), p) == r1,
        spec_rem(1u32 << ((m + 2) as u32), p) == r2,
        spec_rem(1u32 << ((m + 3) as u32), p) == r3,
        spec_rem(1u32 << ((m + 4) as u32), p) == r4,
        spec_rem(1u32 << ((m + 5) as u32), p) == r5,
        spec_rem(1u32 << ((m + 6) as u32), p) == r6,
    ensures
        spec_fmul(x, y, p) == fold7(spec_mul8(x, y), m, r0, r1, r2, r3, r4, r5, r6),
{
    lemma_degree_bits(x);
    lemma_degree_bits(y);
    lemma_degree_shift(y, 8);
    lemma_below(y, 8);
    lemma_table_bits();
    lemma_mul8(x, y);
    let z = spec_mul(x, y);
    if x == 0 || y == 0 {
        lemma_mul_zero(x);
        lemma_mul_zero(y);
        lemma_leading_one(z, 0, 0, (m + 7) as u32);
    } else {
        lemma_mul_degree(x, y);
        lemma_degree_shift(z, (m + 7) as u32);
    }
    lemma_fold7(z, m, p, r0, r1, r2, r3, r4, r5, r6);
}

/// The power `2^i - 1` of `a` modulo `p`, as a tower of squares: each level is the
/// square of the level below, times `a`.
pub open spec fn spec_tower(a: u32, i: nat, p: u32) -> u32
    decreases i,
{
    if i <= 1 {
        a
    } else {
        spec_fmul(
            spec_fmul(spec_tower(a, (i - 1) as nat, p), spec_tower(a, (i - 1) as nat, p), p),
            a,
            p,
        )
    }
}

/// `2^i - 1`.
pub open spec fn spec_ones(i: nat) -> nat
    decreases i,
{
    if i == 0 {
        0
    } else {
        2 * spec_ones((i - 1) as nat) + 1
    }
}

/// Level `i` of the tower is the power `2^i - 1`.
proof fn lemma_tower(a: u32, i: nat, p: u32)
    requires
        1 <= i,
        1 <= spec_degree(p) <= 11,
        spec_degree(a) < spec_degree(p),
    ensures
        spec_tower(a, i, p) == spec_fpow(a, spec_ones(i), p),
    decreases i,
{
    if i == 1 {
        lemma_fmul_one(a, p);
        assert(spec_ones(1) == 1) by {
            assert(spec_ones(0) == 0);
        }
        assert(spec_fpow(a, 1, p) == spec_fmul(spec_fpow(a, 0, p), a, p));
    } else {
        let n = spec_ones((i - 1) as nat);
        lemma_tower(a, (i - 1) as nat, p);
        lemma_fpow_add(a, n, n, p);
        assert(spec_fpow(a, 2 * n + 1, p) == spec_fmul(spec_fpow(a, 2 * n, p), a, p));
    }
}

/// The tower of squares over an element of GF(2^2) but zero ends in one.
#[verifier::rlimit(50)]
proof fn lemma_tower_2(
    a: u32,
    y2: u32,
    s2: u32,
    z2: u32,
    t2: u32,
)
    by (bit_vector)
    requires
        1 <= a < 4,
        y2 == spec_mul8(a, a),
        s2 == fold7(y2, 2, 3, 1, 2, 3, 1, 2, 3),
        z2 == spec_mul8(s2, a),
        t2 == fold7(z2, 2, 3, 1, 2, 3, 1, 2, 3),
    ensures
        t2 == 1,
{
}

/// The power `2^2 - 1` of every element of GF(2^2) but zero is one.
proof fn lemma_fermat_2(a: u32)
    requires
        1 <= a < 4,
    ensures
        field_modulus(2) == 7,
        spec_fpow(a, 3, 7) == 1,
{
    lemma_residues_2();
    lemma_table_bits();
    lemma_small_is_reduced(a, 2);
    let p = 7u32;
    assert(spec_tower(a, 1, p) == a);
    let s2 = spec_fmul(a, a, p);
    let t2 = spec_fmul(s2, a, p);
    lemma_divmod_law(spec_mul(a, a), p);
    lemma_divmod_law(spec_mul(s2, a), p);
    lemma_product(a, a, 2, p, 3, 1, 2, 3, 1, 2, 3);
    lemma_product(s2, a, 2, p, 3, 1, 2, 3, 1, 2, 3);
    assert(spec_tower(a, 2, p) == t2);
    lemma_tower_2(
        a,
        spec_mul8(a, a),
        s2,
        spec_mul8(s2, a),
        t2,
    );
    lemma_tower(a, 2, p);
    lemma_ones(2);
}

/// The tower of squares over an element of GF(2^3) but zero ends in one.
#[verifier::rlimit(50)]
proof fn lemma_tower_3(
    a: u32,
    y2: u32,
    s2: u32,
    z2: u32,
    t2: u32,
    y3: u32,
    s3: u32,
    z3: u32,
    t3: u32,
)
    by (bit_vector)
    requires
        1 <= a < 8,
        y2 == spec_mul8(a, a),
        s2 == fold7(y2, 3, 3, 6, 7, 5, 1, 2, 4),
        z2 == spec_mul8(s2, a),
        t2 == fold7(z2, 3, 3, 6, 7, 5, 1, 2, 4),
        y3 == spec_mul8(t2, t2),
        s3 == fold7(y3, 3, 3, 6, 7, 5, 1, 2, 4),
        z3 == spec_mul8(s3, a),
        t3 == fold7(z3, 3, 3, 6, 7, 5, 1, 2, 4),
    ensures
        t3 == 1,
{
}

/// The power `2^3 - 1` of every element of GF(2^3) but zero is one.
proof fn lemma_fermat_3(a: u32)
    requires
        1 <= a < 8,
    ensures
        field_modulus(3) == 11,
        spec_fpow(a, 7, 11) == 1,
{
    lemma_residues_3();
    lemma_table_bits();
    lemma_small_is_reduced(a, 3);
    let p = 11u32;
    assert(spec_tower(a, 1, p) == a);
    let s2 = spec_fmul(a, a, p);
    let t2 = spec_fmul(s2, a, p);
    lemma_divmod_law(spec_mul(a, a), p);
    lemma_divmod_law(spec_mul(s2, a), p);
    lemma_product(a, a, 3, p, 3, 6, 7, 5, 1, 2, 4);
    lemma_product(s2, a, 3, p, 3, 6, 7, 5, 1, 2, 4);
    assert(spec_tower(a, 2, p) == t2);
    let s3 = spec_fmul(t2, t2, p);
    let t3 = spec_fmul(s3, a, p);
    lemma_divmod_law(spec_mul(t2, t2), p);
    lemma_divmod_law(spec_mul(s3, a), p);
    lemma_product(t2, t2, 3, p, 3, 6, 7, 5, 1, 2, 4);
    lemma_product(s3, a, 3, p, 3, 6, 7, 5, 1, 2, 4);
    assert(spec_tower(a, 3, p) == t3);
    lemma_tower_3(
        a,
        spec_mul8(a, a),
        s2,
        spec_mul8(s2, a),
        t2,
        spec_mul8(t2, t2),
        s3,
        spec_mul8(s3, a),
        t3,
    );
    lemma_tower(a, 3, p);
    lemma_ones(3);
}

/// The tower of squares over an element of GF(2^4) but zero ends in one.
#[verifier::rlimit(50)]
proof fn lemma_tower_4(
    a: u32,
    y2: u32,
    s2: u32,
    z2: u32,
    t2: u32,
    y3: u32,
    s3: u32,
    z3: u32,
    t3: u32,
    y4: u32,
    s4: u32,
    z4: u32,
    t4: u32,
)
    by (bit_vector)
    requires
        1 <= a < 16,
        y2 == spec_mul8(a, a),
        s2 == fold7(y2, 4, 3, 6, 12, 11, 5, 10, 7),
        z2 == spec_mul8(s2, a),
        t2 == fold7(z2, 4, 3, 6, 12, 11, 5, 10, 7),
        y3 == spec_mul8(t2, t2),
        s3 == fold7(y3, 4, 3, 6, 12, 11, 5, 10, 7),
        z3 == spec_mul8(s3, a),
        t3 == fold7(z3, 4, 3, 6, 12, 11, 5, 10, 7),
        y4 == spec_mul8(t3, t3),
        s4 == fold7(y4, 4, 3, 6, 12, 11, 5, 10, 7),
        z4 == spec_mul8(s4, a),
        t4 == fold7(z4, 4, 3, 6, 12, 11, 5, 10, 7),
    ensures
        t4 == 1,
{
}

/// The power `2^4 - 1` of every element of GF(2^4) but zero is one.
proof fn lemma_fermat_4(a: u32)
    requires
        1 <= a < 16,
    ensures
        field_modulus(4) == 19,
        spec_fpow(a, 15, 19) == 1,
{
    lemma_residues_4();
    lemma_table_bits();
    lemma_small_is_reduced(a, 4);
    let p = 19u32;
    assert(spec_tower(a, 1, p) == a);
    let s2 = spec_fmul(a, a, p);
    let t2 = spec_fmul(s2, a, p);
    lemma_divmod_law(spec_mul(a, a), p);
    lemma_divmod_law(spec_mul(s2, a), p);
    lemma_product(a, a, 4, p, 3, 6, 12, 11, 5, 10, 7);
    lemma_product(s2, a, 4, p, 3, 6, 12, 11, 5, 10, 7);
    assert(spec_tower(a, 2, p) == t2);
    let s3 = spec_fmul(t2, t2, p);
    let t3 = spec_fmul(s3, a, p);
    lemma_divmod_law(spec_mul(t2, t2), p);
    lemma_divmod_law(spec_mul(s3, a), p);
    lemma_product(t2, t2, 4, p, 3, 6, 12, 11, 5, 10, 7);
    lemma_product(s3, a, 4, p, 3, 6, 12, 11, 5, 10, 7);
    assert(spec_tower(a, 3, p) == t3);
    let s4 = spec_fmul(t3, t3, p);
    let t4 = spec_fmul(s4, a, p);
    lemma_divmod_law(spec_mul(t3, t3), p);
    lemma_divmod_law(spec_mul(s4, a), p);
    lemma_product(t3, t3, 4, p, 3, 6, 12, 11, 5, 10, 7);
    lemma_product(s4, a, 4, p, 3, 6, 12, 11, 5, 10, 7);
    assert(spec_tower(a, 4, p) == t4);
    lemma_tower_4(
        a,
        spec_mul8(a, a),
        s2,
        spec_mul8(s2, a),
        t2,
        spec_mul8(t2, t2),
        s3,
        spec_mul8(s3, a),
        t3,
        spec_mul8(t3, t3),
        s4,
        spec_mul8(s4, a),
        t4,
    );
    lemma_tower(a, 4, p);
    lemma_ones(4);
}

/// The tower of squares over an element of GF(2^5) but zero ends in one.
#[verifier::rlimit(50)]
proof fn lemma_tower_5(
    a: u32,
    y2: u32,
    s2: u32,
    z2: u32,
    t2: u32,
    y3: u32,
    s3: u32,
    z3: u32,
    t3: u32,
    y4: u32,
    s4: u32,
    z4: u32,
    t4: u32,
    y5: u32,
    s5: u32,
    z5: u32,
    t5: u32,
)
    by (bit_vector)
    requires
        1 <= a < 32,
        y2 == spec_mul8(a, a),
        s2 == fold7(y2, 5, 5, 10, 20, 13, 26, 17, 7),
        z2 == spec_mul8(s2, a),
        t2 == fold7(z2, 5, 5, 10, 20, 13, 26, 17, 7),
        y3 == spec_mul8(t2, t2),
        s3 == fold7(y3, 5, 5, 10, 20, 13, 26, 17, 7),
        z3 == spec_mul8(s3, a),
        t3 == fold7(z3, 5, 5, 10, 20, 13, 26, 17, 7),
        y4 == spec_mul8(t3, t3),
        s4 == fold7(y4, 5, 5, 10, 20, 13, 26, 17, 7),
        z4 == spec_mul8(s4, a),
        t4 == fold7(z4, 5, 5, 10, 20, 13, 26, 17, 7),
        y5 == spec_mul8(t4, t4),
        s5 == fold7(y5, 5, 5, 10, 20, 13, 26, 17, 7),
        z5 == spec_mul8(s5, a),
        t5 == fold7(z5, 5, 5, 10, 20, 13, 26, 17, 7),
    ensures
        t5 == 1,
{
}

/// The power `2^5 - 1` of every element of GF(2^5) but zero is one.
proof fn lemma_fermat_5(a: u32)
    requires
        1 <= a < 32,
    ensures
        field_modulus(5) == 37,
        spec_fpow(a, 31, 37) == 1,
{
    lemma_residues_5();
    lemma_table_bits();
    lemma_small_is_reduced(a, 5);
    let p = 37u32;
    assert(spec_tower(a, 1, p) == a);
    let s2 = spec_fmul(a, a, p);
    let t2 = spec_fmul(s2, a, p);
    lemma_divmod_law(spec_mul(a, a), p);
    lemma_divmod_law(spec_mul(s2, a), p);
    lemma_product(a, a, 5, p, 5, 10, 20, 13, 26, 17, 7);
    lemma_product(s2, a, 5, p, 5, 10, 20, 13, 26, 17, 7);
    assert(spec_tower(a, 2, p) == t2);
    let s3 = spec_fmul(t2, t2, p);
    let t3 = spec_fmul(s3, a, p);
    lemma_divmod_law(spec_mul(t2, t2), p);
    lemma_divmod_law(spec_mul(s3, a), p);
    lemma_product(t2, t2, 5, p, 5, 10, 20, 13, 26, 17, 7);
    lemma_product(s3, a, 5, p, 5, 10, 20, 13, 26, 17, 7);
    assert(spec_tower(a, 3, p) == t3);
    let s4 = spec_fmul(t3, t3, p);
    let t4 = spec_fmul(s4, a, p);
    lemma_divmod_law(spec_mul(t3, t3), p);
    lemma_divmod_law(spec_mul(s4, a), p);
    lemma_product(t3, t3, 5, p, 5, 10, 20, 13, 26, 17, 7);
    lemma_product(s4, a, 5, p, 5, 10, 20, 13, 26, 17, 7);
    assert(spec_tower(a, 4, p) == t4);
    let s5 = spec_fmul(t4, t4, p);
    let t5 = spec_fmul(s5, a, p);
    lemma_divmod_law(spec_mul(t4, t4), p);
    lemma_divmod_law(spec_mul(s5, a), p);
    lemma_product(t4, t4, 5, p, 5, 10, 20, 13, 26, 17, 7);
    lemma_product(s5, a, 5, p, 5, 10, 20, 13, 26, 17, 7);
    assert(spec_tower(a, 5, p) == t5);
    lemma_tower_5(
        a,
        spec_mul8(a, a),
        s2,
        spec_mul8(s2, a),
        t2,
        spec_mul8(t2, t2),
        s3,
        spec_mul8(s3, a),
        t3,
        spec_mul8(t3, t3),
        s4,
        spec_mul8(s4, a),
        t4,
        spec_mul8(t4, t4),
        s5,
        spec_mul8(s5, a),
        t5,
    );
    lemma_tower(a, 5, p);
    lemma_ones(5);
}

/// The tower of squares over an element of GF(2^6) but zero ends in one.
#[verifier::rlimit(50)]
proof fn lemma_tower_6(
    a: u32,
    y2: u32,
    s2: u32,
    z2: u32,
    t2: u32,
    y3: u32,
    s3: u32,
    z3: u32,
    t3: u32,
    y4: u32,
    s4: u32,
    z4: u32,
    t4: u32,
    y5: u32,
    s5: u32,
    z5: u32,
    t5: u32,
    y6: u32,
    s6: u32,
    z6: u32,
    t6: u32,
)
    by (bit_vector)
    requires
        1 <= a < 64,
        y2 == spec_mul8(a, a),
        s2 == fold7(y2, 6, 3, 6, 12, 24, 48, 35, 5),
        z2 == spec_mul8(s2, a),
        t2 == fold7(z2, 6, 3, 6, 12, 24, 48, 35, 5),
        y3 == spec_mul8(t2, t2),
        s3 == fold7(y3, 6, 3, 6, 12, 24, 48, 35, 5),
        z3 == spec_mul8(s3, a),
        t3 == fold7(z3, 6, 3, 6, 12, 24, 48, 35, 5),
        y4 == spec_mul8(t3, t3),
        s4 == fold7(y4, 6, 3, 6, 12, 24, 48, 35, 5),
        z4 == spec_mul8(s4, a),
        t4 == fold7(z4, 6, 3, 6, 12, 24, 48, 35, 5),
        y5 == spec_mul8(t4, t4),
        s5 == fold7(y5, 6, 3, 6, 12, 24, 48, 35, 5),
        z5 == spec_mul8(s5, a),
        t5 == fold7(z5, 6, 3, 6, 12, 24, 48, 35, 5),
        y6 == spec_mul8(t5, t5),
        s6 == fold7(y6, 6, 3, 6, 12, 24, 48, 35, 5),
        z6 == spec_mul8(s6, a),
        t6 == fold7(z6, 6, 3, 6, 12, 24, 48, 35, 5),
    ensures
        t6 == 1,
{
}

/// The power `2^6 - 1` of every element of GF(2^6) but zero is one.
proof fn lemma_fermat_6(a: u32)
    requires
        1 <= a < 64,
    ensures
        field_modulus(6) == 67,
        spec_fpow(a, 63, 67) == 1,
{
    lemma_residues_6();
    lemma_table_bits();
    lemma_small_is_reduced(a, 6);
    let p = 67u32;
    assert(spec_tower(a, 1, p) == a);
    let s2 = spec_fmul(a, a, p);
    let t2 = spec_fmul(s2, a, p);
    lemma_divmod_law(spec_mul(a, a), p);
    lemma_divmod_law(spec_mul(s2, a), p);
    lemma_product(a, a, 6, p, 3, 6, 12, 24, 48, 35, 5);
    lemma_product(s2, a, 6, p, 3, 6, 12, 24, 48, 35, 5);
    assert(spec_tower(a, 2, p) == t2);
    let s3 = spec_fmul(t2, t2, p);
    let t3 = spec_fmul(s3, a, p);
    lemma_divmod_law(spec_mul(t2, t2), p);
    lemma_divmod_law(spec_mul(s3, a), p);
    lemma_product(t2, t2, 6, p, 3, 6, 12, 24, 48, 35, 5);
    lemma_product(s3, a, 6, p, 3, 6, 12, 24, 48, 35, 5);
    assert(spec_tower(a, 3, p) == t3);
    let s4 = spec_fmul(t3, t3, p);
    let t4 = spec_fmul(s4, a, p);
    lemma_divmod_law(spec_mul(t3, t3), p);
    lemma_divmod_law(spec_mul(s4, a), p);
    lemma_product(t3, t3, 6, p, 3, 6, 12, 24, 48, 35, 5);
    lemma_product(s4, a, 6, p, 3, 6, 12, 24, 48, 35, 5);
    assert(spec_tower(a, 4, p) == t4);
    let s5 = spec_fmul(t4, t4, p);
    let t5 = spec_fmul(s5, a, p);
    lemma_divmod_law(spec_mul(t4, t4), p);
    lemma_divmod_law(spec_mul(s5, a), p);
    lemma_product(t4, t4, 6, p, 3, 6, 12, 24, 48, 35, 5);
    lemma_product(s5, a, 6, p, 3, 6, 12, 24, 48, 35, 5);
    assert(spec_tower(a, 5, p) == t5);
    let s6 = spec_fmul(t5, t5, p);
    let t6 = spec_fmul(s6, a, p);
    lemma_divmod_law(spec_mul(t5, t5), p);
    lemma_divmod_law(spec_mul(s6, a), p);
    lemma_product(t5, t5, 6, p, 3, 6, 12, 24, 48, 35, 5);
    lemma_product(s6, a, 6, p, 3, 6, 12, 24, 48, 35, 5);
    assert(spec_tower(a, 6, p) == t6);
    lemma_tower_6(
        a,
        spec_mul8(a, a),
        s2,
        spec_mul8(s2, a),
        t2,
        spec_mul8(t2, t2),
        s3,
        spec_mul8(s3, a),
        t3,
        spec_mul8(t3, t3),
        s4,
        spec_mul8(s4, a),
        t4,
        spec_mul8(t4, t4),
        s5,
        spec_mul8(s5, a),
        t5,
        spec_mul8(t5, t5),
        s6,
        spec_mul8(s6, a),
        t6,
    );
    lemma_tower(a, 6, p);
    lemma_ones(6);
}

/// The tower of squares over an element of GF(2^7) but zero ends in one.
#[verifier::rlimit(50)]
proof fn lemma_tower_7(
    a: u32,
    y2: u32,
    s2: u32,
    z2: u32,
    t2: u32,
    y3: u32,
    s3: u32,
    z3: u32,
    t3: u32,
    y4: u32,
    s4: u32,
    z4: u32,
    t4: u32,
    y5: u32,
    s5: u32,
    z5: u32,
    t5: u32,
    y6: u32,
    s6: u32,
    z6: u32,
    t6: u32,
    y7: u32,
    s7: u32,
    z7: u32,
    t7: u32,
)
    by (bit_vector)
    requires
        1 <= a < 128,
        y2 == spec_mul8(a, a),
        s2 == fold7(y2, 7, 3, 6, 12, 24, 48, 96, 67),
        z2 == spec_mul8(s2, a),
        t2 == fold7(z2, 7, 3, 6, 12, 24, 48, 96, 67),
        y3 == spec_mul8(t2, t2),
        s3 == fold7(y3, 7, 3, 6, 12, 24, 48, 96, 67),
        z3 == spec_mul8(s3, a),
        t3 == fold7(z3, 7, 3, 6, 12, 24, 48, 96, 67),
        y4 == spec_mul8(t3, t3),
        s4 == fold7(y4, 7, 3, 6, 12, 24, 48, 96, 67),
        z4 == spec_mul8(s4, a),
        t4 == fold7(z4, 7, 3, 6, 12, 24, 48, 96, 67),
        y5 == spec_mul8(t4, t4),
        s5 == fold7(y5, 7, 3, 6, 12, 24, 48, 96, 67),
        z5 == spec_mul8(s5, a),
        t5 == fold7(z5, 7, 3, 6, 12, 24, 48, 96, 67),
        y6 == spec_mul8(t5, t5),
        s6 == fold7(y6, 7, 3, 6, 12, 24, 48, 96, 67),
        z6 == spec_mul8(s6, a),
        t6 == fold7(z6, 7, 3, 6, 12, 24, 48, 96, 67),
        y7 == spec_mul8(t6, t6),
        s7 == fold7(y7, 7, 3, 6, 12, 24, 48, 96, 67),
        z7 == spec_mul8(s7, a),
        t7 == fold7(z7, 7, 3, 6, 12, 24, 48, 96, 67),
    ensures
        t7 == 1,
{
}

/// The power `2^7 - 1` of every element of GF(2^7) but zero is one.
proof fn lemma_fermat_7(a: u32)
    requires
        1 <= a < 128,
    ensures
        field_modulus(7) == 131,
        spec_fpow(a, 127, 131) == 1,
{
    lemma_residues_7();
    lemma_table_bits();
    lemma_small_is_reduced(a, 7);
    let p = 131u32;
    assert(spec_tower(a, 1, p) == a);
    let s2 = spec_fmul(a, a, p);
    let t2 = spec_fmul(s2, a, p);
    lemma_divmod_law(spec_mul(a, a), p);
    lemma_divmod_law(spec_mul(s2, a), p);
    lemma_product(a, a, 7, p, 3, 6, 12, 24, 48, 96, 67);
    lemma_product(s2, a, 7, p, 3, 6, 12, 24, 48, 96, 67);
    assert(spec_tower(a, 2, p) == t2);
    let s3 = spec_fmul(t2, t2, p);
    let t3 = spec_fmul(s3, a, p);
    lemma_divmod_law(spec_mul(t2, t2), p);
    lemma_divmod_law(spec_mul(s3, a), p);
    lemma_product(t2, t2, 7, p, 3, 6, 12, 24, 48, 96, 67);
    lemma_product(s3, a, 7, p, 3, 6, 12, 24, 48, 96, 67);
    assert(spec_tower(a, 3, p) == t3);
    let s4 = spec_fmul(t3, t3, p);
    let t4 = spec_fmul(s4, a, p);
    lemma_divmod_law(spec_mul(t3, t3), p);
    lemma_divmod_law(spec_mul(s4, a), p);
    lemma_product(t3, t3, 7, p, 3, 6, 12, 24, 48, 96, 67);
    lemma_product(s4, a, 7, p, 3, 6, 12, 24, 48, 96, 67);
    assert(spec_tower(a, 4, p) == t4);
    let s5 = spec_fmul(t4, t4, p);
    let t5 = spec_fmul(s5, a, p);
    lemma_divmod_law(spec_mul(t4, t4), p);
    lemma_divmod_law(spec_mul(s5, a), p);
    lemma_product(t4, t4, 7, p, 3, 6, 12, 24, 48, 96, 67);
    lemma_product(s5, a, 7, p, 3, 6, 12, 24, 48, 96, 67);
    assert(spec_tower(a, 5, p) == t5);
    let s6 = spec_fmul(t5, t5, p);
    let t6 = spec_fmul(s6, a, p);
    lemma_divmod_law(spec_mul(t5, t5), p);
    lemma_divmod_law(spec_mul(s6, a), p);
    lemma_product(t5, t5, 7, p, 3, 6, 12, 24, 48, 96, 67);
    lemma_product(s6, a, 7, p, 3, 6, 12, 24, 48, 96, 67);
    assert(spec_tower(a, 6, p) == t6);
    let s7 = spec_fmul(t6, t6, p);
    let t7 = spec_fmul(s7, a, p);
    lemma_divmod_law(spec_mul(t6, t6), p);
    lemma_divmod_law(spec_mul(s7, a), p);
    lemma_product(t6, t6, 7, p, 3, 6, 12, 24, 48, 96, 67);
    lemma_product(s7, a, 7, p, 3, 6, 12, 24, 48, 96, 67);
    assert(spec_tower(a, 7, p) == t7);
    lemma_tower_7(
        a,
        spec_mul8(a, a),
        s2,
        spec_mul8(s2, a),
        t2,
        spec_mul8(t2, t2),
        s3,
        spec_mul8(s3, a),
        t3,
        spec_mul8(t3, t3),
        s4,
        spec_mul8(s4, a),
        t4,
        spec_mul8(t4, t4),
        s5,
        spec_mul8(s5, a),
        t5,
        spec_mul8(t5, t5),
        s6,
        spec_mul8(s6, a),
        t6,
        spec_mul8(t6, t6),
        s7,
        spec_mul8(s7, a),
        t7,
    );
    lemma_tower(a, 7, p);
    lemma_ones(7);
}

/// The tower of squares over an element of GF(2^8) but zero ends in one.
#[verifier::rlimit(50)]
proof fn lemma_tower_8(
    a: u32,
    y2: u32,
    s2: u32,
    z2: u32,
    t2: u32,
    y3: u32,
    s3: u32,
    z3: u32,
    t3: u32,
    y4: u32,
    s4: u32,
    z4: u32,
    t4: u32,
    y5: u32,
    s5: u32,
    z5: u32,
    t5: u32,
    y6: u32,
    s6: u32,
    z6: u32,
    t6: u32,
    y7: u32,
    s7: u32,
    z7: u32,
    t7: u32,
    y8: u32,
    s8: u32,
    z8: u32,
    t8: u32,
)
    by (bit_vector)
    requires
        1 <= a < 256,
        y2 == spec_mul8(a, a),
        s2 == fold7(y2, 8, 27, 54, 108, 216, 171, 77, 154),
        z2 == spec_mul8(s2, a),
        t2 == fold7(z2, 8, 27, 54, 108, 216, 171, 77, 154),
        y3 == spec_mul8(t2, t2),
        s3 == fold7(y3, 8, 27, 54, 108, 216, 171, 77, 154),
        z3 == spec_mul8(s3, a),
        t3 == fold7(z3, 8, 27, 54, 108, 216, 171, 77, 154),
        y4 == spec_mul8(t3, t3),
        s4 == fold7(y4, 8, 27, 54, 108, 216, 171, 77, 154),
        z4 == spec_mul8(s4, a),
        t4 == fold7(z4, 8, 27, 54, 108, 216, 171, 77, 154),
        y5 == spec_mul8(t4, t4),
        s5 == fold7(y5, 8, 27, 54, 108, 216, 171, 77, 154),
        z5 == spec_mul8(s5, a),
        t5 == fold7(z5, 8, 27, 54, 108, 216, 171, 77, 154),
        y6 == spec_mul8(t5, t5),
        s6 == fold7(y6, 8, 27, 54, 108, 216, 171, 77, 154),
        z6 == spec_mul8(s6, a),
        t6 == fold7(z6, 8, 27, 54, 108, 216, 171, 77, 154),
        y7 == spec_mul8(t6, t6),
        s7 == fold7(y7, 8, 27, 54, 108, 216, 171, 77, 154),
        z7 == spec_mul8(s7, a),
        t7 == fold7(z7, 8, 27, 54, 108, 216, 171, 77, 154),
        y8 == spec_mul8(t7, t7),
        s8 == fold7(y8, 8, 27, 54, 108, 216, 171, 77, 154),
        z8 == spec_mul8(s8, a),
        t8 == fold7(z8, 8, 27, 54, 108, 216, 171, 77, 154),
    ensures
        t8 == 1,
{
}

/// The power `2^8 - 1` of every element of GF(2^8) but zero is one.
proof fn lemma_fermat_8(a: u32)
    requires
        1 <= a < 256,
    ensures
        field_modulus(8) == 283,
        spec_fpow(a, 255, 283) == 1,
{
    lemma_residues_8();
    lemma_table_bits();
    lemma_small_is_reduced(a, 8);
    let p = 283u32;
    assert(spec_tower(a, 1, p) == a);
    let s2 = spec_fmul(a, a, p);
    let t2 = spec_fmul(s2, a, p);
    lemma_divmod_law(spec_mul(a, a), p);
    lemma_divmod_law(spec_mul(s2, a), p);
    lemma_product(a, a, 8, p, 27, 54, 108, 216, 171, 77, 154);
    lemma_product(s2, a, 8, p, 27, 54, 108, 216, 171, 77, 154);
    assert(spec_tower(a, 2, p) == t2);
    let s3 = spec_fmul(t2, t2, p);
    let t3 = spec_fmul(s3, a, p);
    lemma_divmod_law(spec_mul(t2, t2), p);
    lemma_divmod_law(spec_mul(s3, a), p);
    lemma_product(t2, t2, 8, p, 27, 54, 108, 216, 171, 77, 154);
    lemma_product(s3, a, 8, p, 27, 54, 108, 216, 171, 77, 154);
    assert(spec_tower(a, 3, p) == t3);
    let s4 = spec_fmul(t3, t3, p);
    let t4 = spec_fmul(s4, a, p);
    lemma_divmod_law(spec_mul(t3, t3), p);
    lemma_divmod_law(spec_mul(s4, a), p);
    lemma_product(t3, t3, 8, p, 27, 54, 108, 216, 171, 77, 154);
    lemma_product(s4, a, 8, p, 27, 54, 108, 216, 171, 77, 154);
    assert(spec_tower(a, 4, p) == t4);
    let s5 = spec_fmul(t4, t4, p);
    let t5 = spec_fmul(s5, a, p);
    lemma_divmod_law(spec_mul(t4, t4), p);
    lemma_divmod_law(spec_mul(s5, a), p);
    lemma_product(t4, t4, 8, p, 27, 54, 108, 216, 171, 77, 154);
    lemma_product(s5, a, 8, p, 27, 54, 108, 216, 171, 77, 154);
    assert(spec_tower(a, 5, p) == t5);
    let s6 = spec_fmul(t5, t5, p);
    let t6 = spec_fmul(s6, a, p);
    lemma_divmod_law(spec_mul(t5, t5), p);
    lemma_divmod_law(spec_mul(s6, a), p);
    lemma_product(t5, t5, 8, p, 27, 54, 108, 216, 171, 77, 154);
    lemma_product(s6, a, 8, p, 27, 54, 108, 216, 171, 77, 154);
    assert(spec_tower(a, 6, p) == t6);
    let s7 = spec_fmul(t6, t6, p);
    let t7 = spec_fmul(s7, a, p);
    lemma_divmod_law(spec_mul(t6, t6), p);
    lemma_divmod_law(spec_mul(s7, a), p);
    lemma_product(t6, t6, 8, p, 27, 54, 108, 216, 171, 77, 154);
    lemma_product(s7, a, 8, p, 27, 54, 108, 216, 171, 77, 154);
    assert(spec_tower(a, 7, p) == t7);
    let s8 = spec_fmul(t7, t7, p);
    let t8 = spec_fmul(s8, a, p);
    lemma_divmod_law(spec_mul(t7, t7), p);
    lemma_divmod_law(spec_mul(s8, a), p);
    lemma_product(t7, t7, 8, p, 27, 54, 108, 216, 171, 77, 154);
    lemma_product(s8, a, 8, p, 27, 54, 108, 216, 171, 77, 154);
    assert(spec_tower(a, 8, p) == t8);
    lemma_tower_8(
        a,
        spec_mul8(a, a),
        s2,
        spec_mul8(s2, a),
        t2,
        spec_mul8(t2, t2),
        s3,
        spec_mul8(s3, a),
        t3,
        spec_mul8(t3, t3),
        s4,
        spec_mul8(s4, a),
        t4,
        spec_mul8(t4, t4),
        s5,
        spec_mul8(s5, a),
        t5,
        spec_mul8(t5, t5),
        s6,
        spec_mul8(s6, a),
        t6,
        spec_mul8(t6, t6),
        s7,
        spec_mul8(s7, a),
        t7,
        spec_mul8(t7, t7),
        s8,
        spec_mul8(s8, a),
        t8,
    );
    lemma_tower(a, 8, p);
    lemma_ones(8);
}

proof fn lemma_ones(i: nat)
    requires
        i <= 8,
    ensures
        i == 0 ==> spec_ones(i) == 0,
        i == 1 ==> spec_ones(i) == 1,
        i == 2 ==> spec_ones(i) == 3,
        i == 3 ==> spec_ones(i) == 7,
        i == 4 ==> spec_ones(i) == 15,
        i == 5 ==> spec_ones(i) == 31,
        i == 6 ==> spec_ones(i) == 63,
        i == 7 ==> spec_ones(i) == 127,
        i == 8 ==> spec_ones(i) == 255,
    decreases i,
{
    if i > 0 {
        lemma_ones((i - 1) as nat);
    }
}

proof fn lemma_below(a: u32, m: u32)
    by (bit_vector)
    requires
        m < 32,
        a >> m == 0,
    ensures
        a < (1u32 << m),
{
}

/// In the fields GF(2) to GF(2^8) the power `2^m - 2` of an element that is not zero
/// is its inverse.
pub proof fn lemma_inverse_small(a: u32, m: u32)
    requires
        1 <= m <= 8,
        a != 0,
        spec_degree(a) < m,
    ensures
        field_exists(m),
        spec_fmul(a, spec_finv(a, m, field_modulus(m)), field_modulus(m)) == 1,
{
    lemma_irreducible_table();
    lemma_table_bits();
    lemma_degree_bits(a);
    lemma_degree_shift(a, m);
    lemma_below(a, m);
    if m == 1 {
        lemma_degree_shift(2, 1);
        lemma_fmul_one(1, 2);
        assert(spec_fpow(1, 0, 2) == 1);
    } else if m == 2 {
        lemma_fermat_2(a);
        lemma_inverse_from_order(a, 2, 7);
    } else if m == 3 {
        lemma_fermat_3(a);
        lemma_inverse_from_order(a, 6, 11);
    } else if m == 4 {
        lemma_fermat_4(a);
        lemma_inverse_from_order(a, 14, 19);
    } else if m == 5 {
        lemma_fermat_5(a);
        lemma_inverse_from_order(a, 30, 37);
    } else if m == 6 {
        lemma_fermat_6(a);
        lemma_inverse_from_order(a, 62, 67);
    } else if m == 7 {
        lemma_fermat_7(a);
        lemma_inverse_from_order(a, 126, 131);
    } else {
        lemma_fermat_8(a);
        lemma_inverse_from_order(a, 254, 283);
    }
}

/// In the fields GF(2) to GF(2^8) every element but zero has an inverse.
pub proof fn lemma_small_fields_have_inverses(m: u32)
    requires
        1 <= m <= 8,
    ensures
        field_exists(m),
        field_has_inverses(m),
{
    lemma_irreducible_table();
    assert forall|a: u32| a != 0 && spec_degree(a) < m implies spec_fmul(
        a,
        #[trigger] spec_finv(a, m, field_modulus(m)),
        field_modulus(m),
    ) == 1 by {
        lemma_inverse_small(a, m);
    }
}

impl<const M: u32> GF2TM<M> {
    /// In the fields GF(2) to GF(2^8) an element that is not zero, times its inverse,
    /// is one.
    pub proof fn law_inverse(a: Self)
        requires
            1 <= M <= 8,
            a.wf(),
            a.spec_value() != 0,
        ensures
            a.mul_spec(Self::spec_elem(spec_finv(a.spec_value(), M, field_modulus(M))))
                == Self::spec_elem(1),
    {
        lemma_inverse_small(a.spec_value(), M);
        Self::lemma_spec_elem(spec_finv(a.spec_value(), M, field_modulus(M)));
    }

    /// In the fields GF(2) to GF(2^8) the quotient by an element that is not zero,
    /// times that element, is the dividend.
    pub proof fn law_division(a: Self, b: Self)
        requires
            1 <= M <= 8,
            a.wf(),
            b.wf(),
            b.spec_value() != 0,
        ensures
            a.div_spec(b).mul_spec(b) == a,
    {
        let p = field_modulus(M);
        let inv = spec_finv(b.spec_value(), M, p);
        lemma_field_modulus(M);
        lemma_inverse_small(b.spec_value(), M);
        lemma_fpow_reduced(b.spec_value(), ((1u32 << M) - 2) as nat, p);
        Self::lemma_spec_elem(spec_fmul(a.spec_value(), inv, p));
        lemma_fmul_associative(a.spec_value(), inv, b.spec_value(), p);
        lemma_fmul_commutative(inv, b.spec_value(), p);
        lemma_fmul_one(a.spec_value(), p);
        Self::lemma_spec_elem(a.spec_value());
        Self::lemma_extensional(a.div_spec(b).mul_spec(b), a);
    }
}

} // verus!
