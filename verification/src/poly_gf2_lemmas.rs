//! Algebraic facts about the carry-less product and polynomial division on `u32`.

use vstd::prelude::*;
use crate::bits::{lemma_leading_one, lemma_shift, lemma_xor};
use crate::poly_gf2::{
    low_bits, mul_term, spec_degree, spec_div, spec_mul, spec_mul_upto, spec_pow, spec_rem,
};
use crate::poly_gf2::{lemma_degree_bits, lemma_degree_shift, lemma_reduce_step};

verus! {

proof fn lemma_term_left_linear(x: u32, y: u32, c: u32, i: u32, rx: u32, ry: u32)
    by (bit_vector)
    requires
        i < 32,
    ensures
        (rx ^ ry) ^ mul_term(x ^ y, c, i) == (rx ^ mul_term(x, c, i)) ^ (ry ^ mul_term(y, c, i)),
{
}

proof fn lemma_term_right_linear(a: u32, b: u32, c: u32, i: u32, rb: u32, rc: u32)
    by (bit_vector)
    requires
        i < 32,
    ensures
        (rb ^ rc) ^ mul_term(a, b ^ c, i) == (rb ^ mul_term(a, b, i)) ^ (rc ^ mul_term(a, c, i)),
{
}

pub(crate) proof fn lemma_mul_upto_left_linear(x: u32, y: u32, c: u32, n: u32)
    requires
        n <= 32,
    ensures
        spec_mul_upto(x ^ y, c, n) == spec_mul_upto(x, c, n) ^ spec_mul_upto(y, c, n),
    decreases n,
{
    if n == 0 {
        lemma_xor(0, 0, 0);
    } else {
        let i = (n - 1) as u32;
        lemma_mul_upto_left_linear(x, y, c, i);
        lemma_term_left_linear(x, y, c, i, spec_mul_upto(x, c, i), spec_mul_upto(y, c, i));
    }
}

pub(crate) proof fn lemma_mul_upto_right_linear(a: u32, b: u32, c: u32, n: u32)
    requires
        n <= 32,
    ensures
        spec_mul_upto(a, b ^ c, n) == spec_mul_upto(a, b, n) ^ spec_mul_upto(a, c, n),
    decreases n,
{
    if n == 0 {
        lemma_xor(0, 0, 0);
    } else {
        let i = (n - 1) as u32;
        lemma_mul_upto_right_linear(a, b, c, i);
        lemma_term_right_linear(a, b, c, i, spec_mul_upto(a, b, i), spec_mul_upto(a, c, i));
    }
}

proof fn lemma_zero_terms(a: u32, i: u32)
    by (bit_vector)
    requires
        i < 32,
    ensures
        0u32 ^ mul_term(0, a, i) == 0,
        0u32 ^ mul_term(a, 0, i) == 0,
{
}

pub(crate) proof fn lemma_mul_upto_zero(a: u32, n: u32)
    requires
        n <= 32,
    ensures
        spec_mul_upto(0, a, n) == 0,
        spec_mul_upto(a, 0, n) == 0,
    decreases n,
{
    if n > 0 {
        lemma_mul_upto_zero(a, (n - 1) as u32);
        lemma_zero_terms(a, (n - 1) as u32);
    }
}

proof fn lemma_monomial_step(a: u32, j: u32, i: u32)
    by (bit_vector)
    requires
        i < 32,
        j < 32,
    ensures
        (low_bits(a, i) << j) ^ mul_term(1u32 << j, a, i) == low_bits(a, (i + 1) as u32) << j,
        low_bits(a, 0) << j == 0,
{
}

pub proof fn lemma_term_as_monomial(a: u32, b: u32, i: u32)
    by (bit_vector)
    requires
        i < 32,
    ensures
        low_bits(b, 0) == 0,
        low_bits(b, i) ^ mul_term(1u32, b, i) == low_bits(b, (i + 1) as u32),
        mul_term(1u32, b, i) == 0 || mul_term(1u32, b, i) == 1u32 << i,
        mul_term(1u32, b, i) == 0 ==> mul_term(a, b, i) == 0,
        mul_term(1u32, b, i) != 0 ==> mul_term(a, b, i) == a << i,
{
}

/// Multiplying the monomial `x^j` by `a` shifts `a` up by `j` places.
pub(crate) proof fn lemma_mul_upto_monomial(a: u32, j: u32, n: u32)
    requires
        n <= 32,
        j < 32,
    ensures
        spec_mul_upto(1u32 << j, a, n) == low_bits(a, n) << j,
    decreases n,
{
    if n == 0 {
        lemma_monomial_step(a, j, 0);
    } else {
        let i = (n - 1) as u32;
        lemma_mul_upto_monomial(a, j, i);
        lemma_monomial_step(a, j, i);
    }
}

/// The product with the monomial `x^j` moves the polynomial up by `j` places.
pub proof fn lemma_mul_monomial(a: u32, j: u32)
    requires
        j < 32,
    ensures
        spec_mul(1u32 << j, a) == a << j,
{
    lemma_mul_upto_monomial(a, j, 32);
}

/// The product with zero is zero.
pub proof fn lemma_mul_zero(a: u32)
    ensures
        spec_mul(0, a) == 0,
        spec_mul(a, 0) == 0,
{
    lemma_mul_upto_zero(a, 32);
}

proof fn lemma_mul_upto_flip(a: u32, b: u32, n: u32)
    requires
        n <= 32,
    ensures
        spec_mul_upto(a, b, n) == spec_mul(low_bits(b, n), a),
    decreases n,
{
    if n == 0 {
        lemma_term_as_monomial(a, b, 0);
        lemma_mul_zero(a);
    } else {
        let i = (n - 1) as u32;
        lemma_mul_upto_flip(a, b, i);
        lemma_term_as_monomial(a, b, i);
        let t = mul_term(1u32, b, i);
        // the term of bit i, seen as the product of a monomial with a
        assert(mul_term(a, b, i) == spec_mul(t, a)) by {
            if t == 0 {
                lemma_mul_zero(a);
            } else {
                lemma_mul_monomial(a, i);
            }
        }
        lemma_mul_upto_left_linear(low_bits(b, i), t, a, 32);
    }
}

/// The carry-less product is commutative.
pub proof fn lemma_mul_commutative(a: u32, b: u32)
    ensures
        spec_mul(a, b) == spec_mul(b, a),
{
    lemma_mul_upto_flip(a, b, 32);
}

/// The carry-less product distributes over XOR, on both sides.
pub proof fn lemma_mul_distributive(a: u32, b: u32, c: u32)
    ensures
        spec_mul(a, b ^ c) == spec_mul(a, b) ^ spec_mul(a, c),
        spec_mul(b ^ c, a) == spec_mul(b, a) ^ spec_mul(c, a),
{
    lemma_mul_upto_right_linear(a, b, c, 32);
    lemma_mul_upto_left_linear(b, c, a, 32);
}

proof fn lemma_term_shift(b: u32, c: u32, n: u32, i: u32, r: u32)
    by (bit_vector)
    requires
        i < 32,
        n < 32,
    ensures
        (r << n) ^ mul_term(b << n, c, i) == (r ^ mul_term(b, c, i)) << n,
        0u32 << n == 0,
{
}

proof fn lemma_mul_upto_shift(b: u32, c: u32, n: u32, k: u32)
    requires
        k <= 32,
        n < 32,
    ensures
        spec_mul_upto(b << n, c, k) == spec_mul_upto(b, c, k) << n,
    decreases k,
{
    if k == 0 {
        lemma_term_shift(b, c, n, 0, 0);
    } else {
        let i = (k - 1) as u32;
        lemma_mul_upto_shift(b, c, n, i);
        lemma_term_shift(b, c, n, i, spec_mul_upto(b, c, i));
    }
}

/// Multiplying by `x^n` commutes with the product.
pub proof fn lemma_mul_shift(b: u32, c: u32, n: u32)
    requires
        n < 32,
    ensures
        spec_mul(b << n, c) == spec_mul(b, c) << n,
{
    lemma_mul_upto_shift(b, c, n, 32);
}

proof fn lemma_mul_upto_assoc(a: u32, b: u32, c: u32, n: u32)
    requires
        n <= 32,
    ensures
        spec_mul(spec_mul_upto(b, a, n), c) == spec_mul_upto(spec_mul(b, c), a, n),
    decreases n,
{
    if n == 0 {
        lemma_mul_zero(c);
    } else {
        let i = (n - 1) as u32;
        lemma_mul_upto_assoc(a, b, c, i);
        lemma_mul_distributive(c, spec_mul_upto(b, a, i), mul_term(b, a, i));
        lemma_term_as_monomial(b, a, i);
        lemma_term_as_monomial(spec_mul(b, c), a, i);
        if mul_term(1u32, a, i) == 0 {
            lemma_mul_zero(c);
        } else {
            lemma_mul_shift(b, c, i);
        }
    }
}

/// The carry-less product is associative.
pub proof fn lemma_mul_associative(a: u32, b: u32, c: u32)
    ensures
        spec_mul(spec_mul(a, b), c) == spec_mul(a, spec_mul(b, c)),
{
    lemma_mul_upto_assoc(a, b, c, 32);
    lemma_mul_commutative(a, b);
    lemma_mul_commutative(spec_mul(b, c), a);
}

/// One is the unit of the product.
pub proof fn lemma_mul_one(a: u32)
    ensures
        spec_mul(1, a) == a,
        spec_mul(a, 1) == a,
{
    lemma_mul_monomial(a, 0);
    lemma_shift(a, 0);
    lemma_shift(1, 0);
    lemma_mul_commutative(a, 1);
}

/// A power is the base times the power before it, on either side.
pub proof fn lemma_pow_unfold_left(a: u32, n: nat)
    ensures
        spec_pow(a, n + 1) == spec_mul(a, spec_pow(a, n)),
{
    lemma_mul_commutative(a, spec_pow(a, n));
}

/// The power of a square is the power with twice the exponent.
pub proof fn lemma_pow_square(a: u32, n: nat)
    ensures
        spec_pow(spec_mul(a, a), n) == spec_pow(a, 2 * n),
    decreases n,
{
    if n > 0 {
        let m = (n - 1) as nat;
        lemma_pow_square(a, m);
        lemma_mul_associative(spec_pow(a, 2 * m), a, a);
        assert(spec_pow(a, 2 * m + 1) == spec_mul(spec_pow(a, 2 * m), a));
        assert(spec_pow(a, 2 * m + 2) == spec_mul(spec_pow(a, 2 * m + 1), a));
    }
}

/// One round of square-and-multiply keeps `acc * base^exp`.
pub proof fn lemma_pow_binary_step(acc: u32, base: u32, exp: u32)
    requires
        exp > 0,
    ensures
        exp & 1 == 1 ==> spec_mul(
            spec_mul(acc, base),
            spec_pow(spec_mul(base, base), (exp >> 1) as nat),
        ) == spec_mul(acc, spec_pow(base, exp as nat)),
        exp & 1 != 1 ==> spec_mul(acc, spec_pow(spec_mul(base, base), (exp >> 1) as nat))
            == spec_mul(acc, spec_pow(base, exp as nat)),
        exp >> 1 < exp,
{
    let half = exp >> 1;
    lemma_shift(exp, 0);
    lemma_pow_square(base, half as nat);
    if exp & 1 == 1 {
        lemma_pow_unfold_left(base, 2 * (half as nat));
        lemma_mul_associative(acc, base, spec_pow(base, 2 * (half as nat)));
    }
}

/// Long division splits the dividend: `a = q * b + r`, and `r` has lower degree than `b`.
pub proof fn lemma_divmod_law(a: u32, b: u32)
    requires
        b != 0,
    ensures
        spec_mul(spec_div(a, b), b) ^ spec_rem(a, b) == a,
        spec_degree(spec_rem(a, b)) < spec_degree(b),
    decreases a,
{
    if spec_degree(a) < spec_degree(b) {
        lemma_mul_zero(b);
        lemma_xor(a, 0, 0);
    } else {
        lemma_reduce_step(a, b);
        let s = (spec_degree(a) - spec_degree(b)) as u32;
        let a2 = a ^ (b << s);
        lemma_divmod_law(a2, b);
        let q2 = spec_div(a2, b);
        lemma_mul_distributive(b, q2, 1u32 << s);
        lemma_mul_monomial(b, s);
        lemma_xor(spec_mul(q2, b), spec_rem(a2, b), b << s);
        lemma_xor(a, b << s, 0);
    }
}

/// How the terms below `x^i` grow with `i`.
pub proof fn lemma_low_bits_step(b: u32, i: u32)
    by (bit_vector)
    requires
        i < 32,
    ensures
        low_bits(b, i) >> i == 0,
        (b >> i) & 1 == 1 ==> low_bits(b, (i + 1) as u32) >> i == 1,
        (b >> i) & 1 != 1 ==> low_bits(b, (i + 1) as u32) == low_bits(b, i),
        low_bits(b, 0) == 0,
        i >= 1 ==> low_bits(1, i) == 1,
{
}

proof fn lemma_mul_upto_degree(a: u32, b: u32, n: u32)
    requires
        a != 0,
        b != 0,
        spec_degree(a) + spec_degree(b) <= 31,
        n <= 32,
    ensures
        low_bits(b, n) == 0 ==> spec_mul_upto(a, b, n) == 0,
        low_bits(b, n) != 0 ==> spec_degree(spec_mul_upto(a, b, n)) == spec_degree(a)
            + spec_degree(low_bits(b, n)),
    decreases n,
{
    lemma_degree_bits(a);
    lemma_degree_bits(b);
    if n == 0 {
        lemma_low_bits_step(b, 0);
    } else {
        let i = (n - 1) as u32;
        lemma_mul_upto_degree(a, b, i);
        lemma_low_bits_step(b, i);
        lemma_term_as_monomial(a, b, i);
        let before = spec_mul_upto(a, b, i);
        let lb = low_bits(b, i);
        let da = spec_degree(a) as u32;
        lemma_degree_shift(lb, i);
        lemma_shift(b, i);
        if (b >> i) & 1 == 1 {
            let top = (da + i) as u32;
            lemma_leading_one(b, b, i, spec_degree(b) as u32);
            lemma_leading_one(a, a, da, i);
            assert(mul_term(a, b, i) == a << i);
            lemma_degree_shift(low_bits(b, n), i);
            if lb == 0 {
                lemma_xor(a << i, 0, 0);
            } else {
                lemma_degree_shift(before, top);
            }
            lemma_leading_one(before, a << i, top, top);
            lemma_degree_shift(before ^ (a << i), top);
        } else {
            assert(mul_term(a, b, i) == 0);
            lemma_xor(before, 0, 0);
        }
    }
}

/// The degree of a product that fits in 32 bits is the sum of the degrees.
pub proof fn lemma_mul_degree(a: u32, b: u32)
    requires
        a != 0,
        b != 0,
        spec_degree(a) + spec_degree(b) <= 31,
    ensures
        spec_degree(spec_mul(a, b)) == spec_degree(a) + spec_degree(b),
        spec_mul(a, b) != 0,
{
    lemma_mul_upto_degree(a, b, 32);
    lemma_degree_bits(spec_mul(a, b));
    lemma_degree_bits(a);
    lemma_degree_bits(b);
}

/// The quotient is zero where the dividend has lower degree than the divisor, and has
/// the difference of the degrees as its degree elsewhere.
pub proof fn lemma_div_degree(a: u32, b: u32)
    requires
        b != 0,
    ensures
        spec_degree(a) < spec_degree(b) ==> spec_div(a, b) == 0,
        spec_degree(a) >= spec_degree(b) ==> spec_degree(spec_div(a, b)) == spec_degree(a)
            - spec_degree(b),
    decreases a,
{
    if spec_degree(a) >= spec_degree(b) {
        lemma_reduce_step(a, b);
        let s = (spec_degree(a) - spec_degree(b)) as u32;
        let a2 = a ^ (b << s);
        lemma_div_degree(a2, b);
        let q2 = spec_div(a2, b);
        lemma_degree_bits(q2);
        lemma_degree_bits(b);
        lemma_degree_bits(a2);
        lemma_degree_shift(q2, s);
        lemma_leading_one(q2, 1u32 << s, s, s);
        lemma_degree_shift(q2 ^ (1u32 << s), s);
    }
}

/// There is one quotient and one remainder: whatever splits `a` as `q * b + r`, with
/// `r` of lower degree than `b` and the product `q * b` within 32 bits, is the
/// quotient and the remainder of the long division.
pub proof fn lemma_division_unique(a: u32, b: u32, q: u32, r: u32)
    requires
        b != 0,
        spec_degree(r) < spec_degree(b),
        q != 0 ==> spec_degree(q) + spec_degree(b) <= 31,
        spec_mul(q, b) ^ r == a,
    ensures
        q == spec_div(a, b),
        r == spec_rem(a, b),
{
    let q0 = spec_div(a, b);
    let r0 = spec_rem(a, b);
    lemma_divmod_law(a, b);
    lemma_div_degree(a, b);
    lemma_degree_bits(a);
    lemma_degree_bits(b);
    lemma_degree_bits(q);
    lemma_degree_bits(q0);
    let d = q ^ q0;
    let db = spec_degree(b) as u32;
    // d * b = r + r0
    lemma_mul_distributive(b, q, q0);
    lemma_xor(spec_mul(q, b), r, 0);
    lemma_xor(spec_mul(q0, b), r0, 0);
    lemma_xor(spec_mul(q, b), r, spec_mul(q0, b));
    lemma_xor(r, spec_mul(q0, b), r0);
    lemma_xor(spec_mul(q, b), spec_mul(q0, b), r);
    assert(spec_mul(d, b) == r ^ r0) by {
        let x = spec_mul(q, b);
        let y = spec_mul(q0, b);
        assert(x ^ r == y ^ r0);
        lemma_xor_cancel(x, y, r, r0);
    }
    lemma_degree_shift(r, db);
    lemma_degree_shift(r0, db);
    lemma_leading_one(r, r0, db, db);
    lemma_degree_shift(r ^ r0, db);
    if d != 0 {
        // the degree of d is at most 31 - deg b
        if db > 0 {
            let top = (32 - db) as u32;
            lemma_degree_shift(q, top);
            lemma_degree_shift(q0, top);
            lemma_leading_one(q, q0, top, top);
            lemma_degree_shift(d, top);
        }
        lemma_degree_bits(d);
        lemma_mul_degree(d, b);
        assert(false);
    }
    lemma_leading_one(q, q0, 0, 0);
    lemma_xor(spec_mul(q, b), r0, 0);
    lemma_xor(spec_mul(q, b), r, 0);
    lemma_xor_cancel(spec_mul(q, b), spec_mul(q, b), r, r0);
    lemma_leading_one(r, r0, 0, 0);
}

proof fn lemma_xor_cancel(x: u32, y: u32, r: u32, s: u32)
    by (bit_vector)
    requires
        x ^ r == y ^ s,
    ensures
        x ^ y == r ^ s,
{
}

/// The remainder of a polynomial of lower degree than the divisor is the polynomial.
pub proof fn lemma_rem_small(a: u32, b: u32)
    requires
        spec_degree(a) < spec_degree(b),
    ensures
        spec_rem(a, b) == a,
        spec_div(a, b) == 0,
{
}

/// A multiple of `b` that fits in 32 bits leaves no remainder.
pub proof fn lemma_rem_of_multiple(k: u32, b: u32)
    requires
        b != 0,
        k != 0 ==> spec_degree(k) + spec_degree(b) <= 31,
    ensures
        spec_rem(spec_mul(k, b), b) == 0,
        spec_div(spec_mul(k, b), b) == k,
{
    lemma_degree_bits(0);
    lemma_degree_bits(b);
    lemma_xor(spec_mul(k, b), 0, 0);
    lemma_division_unique(spec_mul(k, b), b, k, 0);
}

/// The remainder is linear.
pub proof fn lemma_rem_linear(a: u32, c: u32, b: u32)
    requires
        b != 0,
    ensures
        spec_rem(a ^ c, b) == spec_rem(a, b) ^ spec_rem(c, b),
        spec_div(a ^ c, b) == spec_div(a, b) ^ spec_div(c, b),
{
    let qa = spec_div(a, b);
    let qc = spec_div(c, b);
    let ra = spec_rem(a, b);
    let rc = spec_rem(c, b);
    lemma_divmod_law(a, b);
    lemma_divmod_law(c, b);
    lemma_div_degree(a, b);
    lemma_div_degree(c, b);
    lemma_degree_bits(a);
    lemma_degree_bits(c);
    lemma_degree_bits(b);
    lemma_degree_bits(qa);
    lemma_degree_bits(qc);
    let db = spec_degree(b) as u32;
    lemma_degree_shift(ra, db);
    lemma_degree_shift(rc, db);
    lemma_leading_one(ra, rc, db, db);
    lemma_degree_shift(ra ^ rc, db);
    if qa ^ qc != 0 && db > 0 {
        let top = (32 - db) as u32;
        lemma_degree_shift(qa, top);
        lemma_degree_shift(qc, top);
        lemma_leading_one(qa, qc, top, top);
        lemma_degree_shift(qa ^ qc, top);
    }
    lemma_degree_bits(qa ^ qc);
    lemma_mul_distributive(b, qa, qc);
    lemma_xor_regroup(spec_mul(qa, b), ra, spec_mul(qc, b), rc);
    lemma_division_unique(a ^ c, b, qa ^ qc, ra ^ rc);
}

proof fn lemma_xor_regroup(x: u32, r: u32, y: u32, s: u32)
    by (bit_vector)
    ensures
        (x ^ y) ^ (r ^ s) == (x ^ r) ^ (y ^ s),
{
}

/// Adding a multiple of `b` that fits in 32 bits does not change the remainder.
pub proof fn lemma_rem_add_multiple(a: u32, k: u32, b: u32)
    requires
        b != 0,
        k != 0 ==> spec_degree(k) + spec_degree(b) <= 31,
    ensures
        spec_rem(a ^ spec_mul(k, b), b) == spec_rem(a, b),
{
    lemma_rem_linear(a, spec_mul(k, b), b);
    lemma_rem_of_multiple(k, b);
    lemma_xor(spec_rem(a, b), 0, 0);
}

proof fn lemma_split_bits(v: u32, m: u32, dq: u32)
    by (bit_vector)
    requires
        m < 32,
        dq < 32,
    ensures
        ((v >> m) << m) ^ low_bits(v, m) == v,
        low_bits(v, m) >> m == 0,
        (v >> m) >> dq == 1 ==> dq + m <= 31,
{
}

/// The remainder modulo `x^m` is made of the terms below `x^m`, and the quotient of
/// the others.
pub proof fn lemma_rem_monomial(v: u32, m: u32)
    requires
        m < 32,
    ensures
        spec_rem(v, 1u32 << m) == low_bits(v, m),
        spec_div(v, 1u32 << m) == v >> m,
{
    let q = v >> m;
    let r = low_bits(v, m);
    lemma_degree_bits(q);
    lemma_shift(0, m);
    lemma_leading_one(0, 0, 0, m);
    lemma_degree_shift(1u32 << m, m);
    lemma_degree_shift(r, m);
    if q != 0 {
        lemma_split_bits(v, m, spec_degree(q) as u32);
    } else {
        lemma_split_bits(v, m, 0);
    }
    lemma_mul_monomial(q, m);
    lemma_mul_commutative(q, 1u32 << m);
    lemma_division_unique(v, 1u32 << m, q, r);
}

} // verus!
