//! Polynomials over GF(2), packed into a `u32`: bit `i` is the coefficient of `x^i`.

use vstd::prelude::*;
use vstd::std_specs::bits::axiom_u32_leading_zeros;
use vstd::std_specs::bits::u32_leading_zeros;
use crate::bits::{lemma_leading_one, lemma_shift, lemma_xor};
use crate::error::CodeError;
use crate::gcd_laws::{divides, lemma_gcd_divides, lemma_gcd_greatest, lemma_lcm_multiple};
use crate::poly_gf2_lemmas::lemma_divmod_law;
use num_traits::Zero;
use std::ops::{Add, Sub};

verus! {

/// The exponent of the leading term of `a`, and `-1` for the zero polynomial.
pub open spec fn spec_degree(a: u32) -> int {
    31 - u32_leading_zeros(a)
}

/// The term that bit `i` of `b` contributes to a product with `a`: `a * x^i` if the bit
/// is set, nothing otherwise.
pub open spec fn mul_term(a: u32, b: u32, i: u32) -> u32 {
    if (b >> i) & 1 == 1 {
        a << i
    } else {
        0
    }
}

/// The carry-less product of `a` with the low `n` bits of `b`, truncated to 32 bits:
/// the sum (XOR) of `a * x^i` over the set bits `i < n` of `b`.
pub open spec fn spec_mul_upto(a: u32, b: u32, n: u32) -> u32
    decreases n,
{
    if n == 0 {
        0
    } else {
        spec_mul_upto(a, b, (n - 1) as u32) ^ mul_term(a, b, (n - 1) as u32)
    }
}

/// The terms of `a` below `x^n`: `a` modulo `x^n`.
pub open spec fn low_bits(a: u32, n: u32) -> u32 {
    if n >= 32 {
        a
    } else {
        a & !(0xffff_ffffu32 << n)
    }
}

/// The product of `a` and `b` in GF(2)[x], truncated to the terms below `x^32`.
pub open spec fn spec_mul(a: u32, b: u32) -> u32 {
    spec_mul_upto(a, b, 32)
}

/// The degree of a polynomial that is not zero is the place of its leading one.
pub proof fn lemma_degree_bits(a: u32)
    ensures
        -1 <= spec_degree(a) <= 31,
        a == 0 <==> spec_degree(a) == -1,
        a != 0 ==> a >> (spec_degree(a) as u32) == 1,
{
    axiom_u32_leading_zeros(a);
    if a != 0 {
        let lz = u32_leading_zeros(a);
        let d = (31 - lz) as u32;
        let e = (32 - lz) as u32;
        assert((a >> d) & 1 != 0 && a >> e == 0 && e == d + 1 && d < 32 ==> a >> d == 1)
            by (bit_vector);
    }
}

proof fn lemma_reduce_step_bits(a: u32, b: u32, da: u32, db: u32, s: u32)
    by (bit_vector)
    requires
        da < 32,
        db <= da,
        s == da - db,
        a >> da == 1,
        b >> db == 1,
    ensures
        a ^ (b << s) < a,
        (a ^ (b << s)) >> da == 0,
        (b << s) >> da == 1,
        (b << s) >> s == b,
{
}

/// One step of long division lowers the dividend.
pub proof fn lemma_reduce_step(a: u32, b: u32)
    requires
        b != 0,
        spec_degree(a) >= spec_degree(b),
    ensures
        a != 0,
        0 <= spec_degree(a) - spec_degree(b) <= 31,
        a ^ (b << ((spec_degree(a) - spec_degree(b)) as u32)) < a,
        spec_degree(a ^ (b << ((spec_degree(a) - spec_degree(b)) as u32))) < spec_degree(a),
{
    lemma_degree_bits(a);
    lemma_degree_bits(b);
    let da = spec_degree(a) as u32;
    let db = spec_degree(b) as u32;
    let s = (da - db) as u32;
    lemma_reduce_step_bits(a, b, da, db, s);
    let a2 = a ^ (b << s);
    lemma_degree_bits(a2);
    if a2 != 0 {
        let d2 = spec_degree(a2) as u32;
        lemma_leading_one(a2, 0, d2, da);
    }
}

/// The remainder of the long division of `a` by `b` in GF(2)[x]; `a` itself where `b` is zero.
pub open spec fn spec_rem(a: u32, b: u32) -> u32
    decreases a,
{
    if b == 0 || spec_degree(a) < spec_degree(b) {
        a
    } else {
        let s = (spec_degree(a) - spec_degree(b)) as u32;
        proof {
            lemma_reduce_step(a, b);
        }
        spec_rem(a ^ (b << s), b)
    }
}

/// The quotient of the long division of `a` by `b` in GF(2)[x]; zero where `b` is zero.
pub open spec fn spec_div(a: u32, b: u32) -> u32
    decreases a,
{
    if b == 0 || spec_degree(a) < spec_degree(b) {
        0
    } else {
        let s = (spec_degree(a) - spec_degree(b)) as u32;
        proof {
            lemma_reduce_step(a, b);
        }
        spec_div(a ^ (b << s), b) ^ (1u32 << s)
    }
}

/// `a` multiplied by itself `n` times, truncated like the product.
pub open spec fn spec_pow(a: u32, n: nat) -> u32
    decreases n,
{
    if n == 0 {
        1
    } else {
        spec_mul(spec_pow(a, (n - 1) as nat), a)
    }
}

/// A polynomial of lower degree is the smaller number.
pub proof fn lemma_lower_degree_is_smaller(r: u32, b: u32)
    requires
        spec_degree(r) < spec_degree(b),
    ensures
        r < b,
{
    lemma_degree_bits(r);
    lemma_degree_bits(b);
    if r != 0 {
        lemma_leading_one(r, b, spec_degree(r) as u32, spec_degree(b) as u32);
    }
}

/// The greatest common divisor of `a` and `b` by Euclid's algorithm.
pub open spec fn spec_gcd(a: u32, b: u32) -> u32
    decreases b,
{
    if b == 0 {
        a
    } else {
        proof {
            lemma_divmod_law(a, b);
            lemma_lower_degree_is_smaller(spec_rem(a, b), b);
        }
        spec_gcd(b, spec_rem(a, b))
    }
}

/// The least common multiple `a * b / gcd(a, b)`, and zero where both are zero.
pub open spec fn spec_lcm(a: u32, b: u32) -> u32 {
    if spec_gcd(a, b) == 0 {
        0
    } else {
        spec_div(spec_mul(a, b), spec_gcd(a, b))
    }
}

/// The sum in GF(2) of all coefficients of `a`.
pub open spec fn spec_parity(a: u32) -> u32
    decreases a,
{
    if a == 0 {
        0
    } else {
        proof {
            lemma_shift(a, 0);
        }
        (a & 1) ^ spec_parity(a >> 1)
    }
}

/// The value of the polynomial `a` at the point `x & 1` of GF(2).
pub open spec fn spec_eval(a: u32, x: u32) -> u32 {
    if x & 1 == 1 {
        spec_parity(a)
    } else {
        a & 1
    }
}

/// No polynomial `i` with `2 <= i < 2^d` divides `p`.
pub open spec fn no_divisor_below(p: u32, d: u32) -> bool {
    forall|i: u32| 2 <= i < (1u32 << d) ==> #[trigger] spec_rem(p, i) != 0
}

/// `p` is the first polynomial of degree `d` that none of the polynomials from `2`
/// up to `2^d` divides.
pub open spec fn is_first_irreducible(p: u32, d: u32) -> bool {
    &&& spec_degree(p) == d
    &&& no_divisor_below(p, d)
    &&& forall|q: u32| spec_degree(q) == d && q < p ==> !#[trigger] no_divisor_below(q, d)
}

/// The first polynomial of degree `d` without a divisor between `2` and `2^d`,
/// and zero where there is none.
pub open spec fn spec_irreducible(d: u32) -> u32 {
    if exists|p: u32| is_first_irreducible(p, d) {
        choose|p: u32| is_first_irreducible(p, d)
    } else {
        0
    }
}

/// A polynomial over GF(2); bit `i` of `poly` is the coefficient of `x^i`.
#[derive(Clone, Copy, Debug, PartialEq, Eq, Structural, Hash, PartialOrd)]
pub struct PolyGF2 {
    pub poly: u32,
}

proof fn lemma_mul_step_bits(a0: u32, b0: u32, k: u32)
    by (bit_vector)
    requires
        k < 32,
    ensures
        ((b0 >> k) & 1 > 0) ==> mul_term(a0, b0, k) == a0 << k,
        !((b0 >> k) & 1 > 0) ==> mul_term(a0, b0, k) == 0,
        k < 31 ==> (b0 >> k) >> 1 == b0 >> ((k + 1) as u32),
        k < 31 ==> (a0 << k) << 1 == a0 << ((k + 1) as u32),
        k == 31 ==> (b0 >> k) >> 1 == 0,
        b0 >> 0 == b0,
        a0 << 0 == a0,
{
}

proof fn lemma_high_bits_clear(a: u32, b: u32, k: u32, i: u32, acc: u32)
    by (bit_vector)
    requires
        b >> k == 0,
        k <= i < 32,
    ensures
        acc ^ mul_term(a, b, i) == acc,
{
}

/// Bits of `b` at or above `k` contribute nothing when they are all clear.
pub proof fn lemma_mul_upto_stable(a: u32, b: u32, k: u32, n: u32)
    requires
        k <= n <= 32,
        k < 32 ==> b >> k == 0,
    ensures
        spec_mul_upto(a, b, n) == spec_mul_upto(a, b, k),
    decreases n,
{
    if n > k {
        lemma_mul_upto_stable(a, b, k, (n - 1) as u32);
        lemma_high_bits_clear(a, b, k, (n - 1) as u32, spec_mul_upto(a, b, (n - 1) as u32));
    }
}

impl PolyGF2 {
    /// The polynomial whose coefficients are the bits of `poly`.
    pub fn new(poly: u32) -> (r: Self)
        ensures
            r.poly == poly,
    {
        PolyGF2 { poly }
    }
}

impl std::ops::Add for PolyGF2 {
    type Output = PolyGF2;

    /// Addition in GF(2)[x] is XOR of the coefficients.
    fn add(self, rhs: Self) -> (r: PolyGF2)
        ensures
            r.poly == self.poly ^ rhs.poly,
    {
        PolyGF2 { poly: self.poly ^ rhs.poly }
    }
}

impl vstd::std_specs::ops::AddSpecImpl for PolyGF2 {
    open spec fn obeys_add_spec() -> bool {
        true
    }

    open spec fn add_req(self, rhs: Self) -> bool {
        true
    }

    open spec fn add_spec(self, rhs: Self) -> PolyGF2 {
        PolyGF2 { poly: self.poly ^ rhs.poly }
    }
}

impl std::ops::AddAssign for PolyGF2 {
    fn add_assign(&mut self, rhs: Self)
        ensures
            final(self).poly == old(self).poly ^ rhs.poly,
    {
        *self = *self + rhs;
    }
}

impl std::ops::Mul for PolyGF2 {
    type Output = PolyGF2;

    /// Carry-less multiplication by shift and XOR: the product in GF(2)[x], of which
    /// the terms from `x^32` on are dropped.
    fn mul(self, rhs: Self) -> (r: PolyGF2)
        ensures
            r.poly == spec_mul(self.poly, rhs.poly),
    {
        let mut result: u32 = 0;
        let mut a: u32 = self.poly;
        let mut b: u32 = rhs.poly;
        let ghost mut k: u32 = 0;
        proof {
            lemma_mul_step_bits(self.poly, rhs.poly, 0);
        }
        while b > 0
            invariant
                k <= 32,
                k < 32 ==> a == self.poly << k,
                k < 32 ==> b == rhs.poly >> k,
                k == 32 ==> b == 0,
                result == spec_mul_upto(self.poly, rhs.poly, k),
            decreases 32 - k,
        {
            proof {
                lemma_mul_step_bits(self.poly, rhs.poly, k);
                lemma_xor(result, 0, 0);
            }
            if b & 1 > 0 {
                result ^= a;
            }
            a <<= 1;
            b >>= 1;
            proof {
                k = (k + 1) as u32;
            }
        }
        proof {
            lemma_mul_upto_stable(self.poly, rhs.poly, k, 32);
        }
        PolyGF2 { poly: result }
    }
}

impl vstd::std_specs::ops::MulSpecImpl for PolyGF2 {
    open spec fn obeys_mul_spec() -> bool {
        true
    }

    open spec fn mul_req(self, rhs: Self) -> bool {
        true
    }

    open spec fn mul_spec(self, rhs: Self) -> PolyGF2 {
        PolyGF2 { poly: spec_mul(self.poly, rhs.poly) }
    }
}

impl std::ops::MulAssign for PolyGF2 {
    fn mul_assign(&mut self, rhs: Self)
        ensures
            final(self).poly == spec_mul(old(self).poly, rhs.poly),
    {
        *self = *self * rhs;
    }
}

impl num_traits::Zero for PolyGF2 {
    fn zero() -> (r: Self)
        ensures
            r.poly == 0,
    {
        PolyGF2 { poly: 0 }
    }

    fn is_zero(&self) -> (r: bool)
        ensures
            r == (self.poly == 0),
    {
        self.poly == 0
    }
}

impl std::ops::Sub for PolyGF2 {
    type Output = PolyGF2;

    /// Subtraction in GF(2)[x] is addition.
    fn sub(self, rhs: Self) -> (r: PolyGF2)
        ensures
            r.poly == self.poly ^ rhs.poly,
    {
        self.add(rhs)
    }
}

impl vstd::std_specs::ops::SubSpecImpl for PolyGF2 {
    open spec fn obeys_sub_spec() -> bool {
        true
    }

    open spec fn sub_req(self, rhs: Self) -> bool {
        true
    }

    open spec fn sub_spec(self, rhs: Self) -> PolyGF2 {
        PolyGF2 { poly: self.poly ^ rhs.poly }
    }
}

impl std::ops::SubAssign for PolyGF2 {
    fn sub_assign(&mut self, rhs: Self)
        ensures
            final(self).poly == old(self).poly ^ rhs.poly,
    {
        *self = *self - rhs
    }
}

impl std::ops::Neg for PolyGF2 {
    type Output = PolyGF2;

    /// Every polynomial over GF(2) is its own negative.
    fn neg(self) -> (r: PolyGF2)
        ensures
            r == self,
    {
        proof {
            lemma_xor(self.poly, 0, 0);
        }
        PolyGF2::default() - self
    }
}

impl vstd::std_specs::ops::NegSpecImpl for PolyGF2 {
    open spec fn obeys_neg_spec() -> bool {
        true
    }

    open spec fn neg_req(self) -> bool {
        true
    }

    open spec fn neg_spec(self) -> PolyGF2 {
        self
    }
}

impl Default for PolyGF2 {
    fn default() -> (r: Self)
        ensures
            r.poly == 0,
    {
        PolyGF2 { poly: 0 }
    }
}

impl From<u32> for PolyGF2 {
    fn from(poly: u32) -> (r: Self)
        ensures
            r.poly == poly,
    {
        PolyGF2 { poly }
    }
}

impl vstd::std_specs::convert::FromSpecImpl<u32> for PolyGF2 {
    open spec fn obeys_from_spec() -> bool {
        true
    }

    open spec fn from_spec(poly: u32) -> Self {
        PolyGF2 { poly }
    }
}

impl From<PolyGF2> for u32 {
    fn from(value: PolyGF2) -> (r: Self)
        ensures
            r == value.poly,
    {
        value.poly
    }
}

impl vstd::std_specs::convert::FromSpecImpl<PolyGF2> for u32 {
    open spec fn obeys_from_spec() -> bool {
        true
    }

    open spec fn from_spec(value: PolyGF2) -> Self {
        value.poly
    }
}

impl PolyGF2 {
    /// Long division by a polynomial that is not zero.
    fn divmod_nonzero(self, rhs: Self) -> (r: (Self, Self))
        requires
            rhs.poly != 0,
        ensures
            r.0.poly == spec_div(self.poly, rhs.poly),
            r.1.poly == spec_rem(self.poly, rhs.poly),
    {
        let mut quotient: u32 = 0;
        let mut remainder: u32 = self.poly;
        let divisor: u32 = rhs.poly;
        proof {
            lemma_xor(spec_div(self.poly, divisor), 0, 0);
        }
        while remainder != 0 && remainder.leading_zeros() <= divisor.leading_zeros()
            invariant
                divisor != 0,
                spec_rem(remainder, divisor) == spec_rem(self.poly, divisor),
                quotient ^ spec_div(remainder, divisor) == spec_div(self.poly, divisor),
            decreases remainder,
        {
            proof {
                lemma_reduce_step(remainder, divisor);
            }
            // Compute the shift needed to align leading terms
            let shift: u32 = divisor.leading_zeros() - remainder.leading_zeros();
            proof {
                lemma_xor(quotient, spec_div(remainder ^ (divisor << shift), divisor), 1u32 << shift);
            }
            // Update the quotient by adding the shifted term
            quotient ^= 1u32 << shift;
            // Update the remainder by subtracting (XOR) the shifted divisor
            remainder ^= divisor << shift;
        }
        proof {
            lemma_degree_bits(remainder);
            lemma_degree_bits(divisor);
            lemma_xor(quotient, 0, 0);
        }
        (PolyGF2::new(quotient), PolyGF2::new(remainder))
    }

    /// Long division: the quotient and the remainder of `self` by `rhs`, which
    /// satisfy `self = quotient * rhs + remainder` with the remainder of lower degree
    /// than `rhs`. Division by the zero polynomial is refused.
    pub fn divmod(self, rhs: Self) -> (r: Result<(Self, Self), CodeError>)
        ensures
            rhs.poly == 0 <==> r is Err,
            r is Err ==> r == Err::<(Self, Self), CodeError>(CodeError::DivisionByZero),
            r is Ok ==> {
                let (q, m) = r->Ok_0;
                &&& q.poly == spec_div(self.poly, rhs.poly)
                &&& m.poly == spec_rem(self.poly, rhs.poly)
                &&& spec_mul(q.poly, rhs.poly) ^ m.poly == self.poly
                &&& spec_degree(m.poly) < spec_degree(rhs.poly)
            },
    {
        if rhs.is_zero() {
            return Err(CodeError::DivisionByZero);
        }
        proof {
            lemma_divmod_law(self.poly, rhs.poly);
        }
        Ok(self.divmod_nonzero(rhs))
    }

    /// `self` multiplied by itself `rhs` times.
    pub fn pow(&self, rhs: u32) -> (r: Self)
        ensures
            r.poly == spec_pow(self.poly, rhs as nat),
    {
        let mut result = PolyGF2::new(1);
        let mut i: u32 = 0;
        while i < rhs
            invariant
                i <= rhs,
                result.poly == spec_pow(self.poly, i as nat),
            decreases rhs - i,
        {
            result = result * *self;
            i += 1;
        }
        result
    }
}

proof fn lemma_degree_range_bits(q: u32, d: u32)
    by (bit_vector)
    requires
        d < 32,
    ensures
        q >> d == 1 <==> ((1u32 << d) <= q && q - (1u32 << d) <= (1u32 << d) - 1),
        1 <= (1u32 << d) <= 0x8000_0000u32,
{
}

/// The polynomials of degree `d` are the numbers from `2^d` up to, not including, `2^(d+1)`.
pub proof fn lemma_degree_range(q: u32, d: u32)
    requires
        d < 32,
    ensures
        spec_degree(q) == d <==> ((1u32 << d) <= q && q - (1u32 << d) <= (1u32 << d) - 1),
        1 <= (1u32 << d) <= 0x8000_0000u32,
{
    lemma_degree_bits(q);
    lemma_degree_range_bits(q, d);
    if q != 0 && q >> d == 1 {
        lemma_leading_one(q, 0, d, spec_degree(q) as u32);
    }
}

/// A polynomial has degree `d` where its bits from `d` on are a single one, and
/// degree below `d` where they are zero.
pub proof fn lemma_degree_shift(q: u32, d: u32)
    requires
        d < 32,
    ensures
        q >> d == 1 <==> spec_degree(q) == d,
        q >> d == 0 <==> spec_degree(q) < d,
{
    lemma_degree_bits(q);
    lemma_degree_range(q, d);
    lemma_degree_range_bits(q, d);
    if q != 0 {
        lemma_leading_one(q, 0, spec_degree(q) as u32, d);
    } else {
        lemma_leading_one(q, 0, 0, d);
    }
}

impl PolyGF2 {
    /// Whether some polynomial from `2` up to, not including, `2^degree` divides `poly`.
    fn has_divisor_below(poly: u32, degree: u32) -> (r: bool)
        requires
            degree < 32,
        ensures
            r == !no_divisor_below(poly, degree),
    {
        let lo: u32 = 1u32 << degree;
        let mut i: u32 = 2;
        while i < lo
            invariant
                2 <= i,
                lo == 1u32 << degree,
                forall|j: u32| 2 <= j < i ==> #[trigger] spec_rem(poly, j) != 0,
            decreases lo - i,
        {
            if (PolyGF2::new(poly) % PolyGF2::new(i)) == PolyGF2::default() {
                return true;
            }
            i += 1;
        }
        false
    }

    /// The first polynomial of the given degree that no polynomial of lower, positive
    /// degree divides. Zero where the search finds none, and for a degree that does
    /// not fit in 32 bits.
    pub fn irreducible(degree: u32) -> (r: Self)
        ensures
            r.poly == spec_irreducible(degree),
    {
        if degree >= 32 {
            proof {
                assert forall|p: u32| !is_first_irreducible(p, degree) by {
                    lemma_degree_bits(p);
                }
            }
            return PolyGF2::default();
        }
        let lo: u32 = 1u32 << degree;
        let mut poly: u32 = lo;
        proof {
            lemma_degree_range(poly, degree);
            assert forall|q: u32| spec_degree(q) == degree && q < poly implies !no_divisor_below(
                q,
                degree,
            ) by {
                lemma_degree_range(q, degree);
            }
        }
        loop
            invariant
                degree < 32,
                lo == 1u32 << degree,
                spec_degree(poly) == degree,
                forall|q: u32|
                    spec_degree(q) == degree && q < poly ==> !#[trigger] no_divisor_below(
                        q,
                        degree,
                    ),
            decreases u32::MAX - poly,
        {
            if !Self::has_divisor_below(poly, degree) {
                proof {
                    assert(is_first_irreducible(poly, degree));
                    let c = choose|p: u32| is_first_irreducible(p, degree);
                    assert(c == poly);
                }
                return PolyGF2::new(poly);
            }
            proof {
                lemma_degree_range(poly, degree);
            }
            if poly - lo == lo - 1 {
                proof {
                    assert forall|p: u32| !is_first_irreducible(p, degree) by {
                        lemma_degree_range(p, degree);
                    }
                }
                return PolyGF2::default();
            }
            poly += 1;
            proof {
                lemma_degree_range(poly, degree);
            }
        }
    }

    /// The exponent of the leading term, and 63 for the zero polynomial.
    pub fn degree(&self) -> (r: usize)
        ensures
            self.poly != 0 ==> r == spec_degree(self.poly),
            self.poly == 0 ==> r == 63,
    {
        let lz: u32 = self.poly.leading_zeros();
        proof {
            axiom_u32_leading_zeros(self.poly);
            lemma_shift(lz, 0);
        }
        (lz ^ 31) as usize
    }

    /// The greatest common divisor by Euclid's algorithm: a divisor of both
    /// polynomials that every common divisor divides, and zero where both are zero.
    pub fn gcd(&self, rhs: Self) -> (r: Self)
        ensures
            r.poly == spec_gcd(self.poly, rhs.poly),
            r.poly == 0 <==> self.poly == 0 && rhs.poly == 0,
            r.poly != 0 ==> divides(r.poly, self.poly) && divides(r.poly, rhs.poly),
            forall|d: u32|
                r.poly != 0 && divides(d, self.poly) && divides(d, rhs.poly) ==> #[trigger] divides(
                    d,
                    r.poly,
                ),
    {
        proof {
            lemma_gcd_divides(self.poly, rhs.poly);
            assert forall|d: u32|
                spec_gcd(self.poly, rhs.poly) != 0 && divides(d, self.poly) && divides(
                    d,
                    rhs.poly,
                ) implies #[trigger] divides(d, spec_gcd(self.poly, rhs.poly)) by {
                lemma_gcd_greatest(self.poly, rhs.poly, d);
            }
        }
        let mut a = *self;
        let mut b = rhs;
        while !b.is_zero()
            invariant
                spec_gcd(a.poly, b.poly) == spec_gcd(self.poly, rhs.poly),
            decreases b.poly,
        {
            proof {
                lemma_divmod_law(a.poly, b.poly);
                lemma_lower_degree_is_smaller(spec_rem(a.poly, b.poly), b.poly);
            }
            let r = a % b;
            a = b;
            b = r;
        }
        a
    }

    /// The least common multiple `self * rhs / gcd`; zero where both polynomials are
    /// zero. Where the product fits in 32 bits it is a multiple of both.
    pub fn lcm(&self, rhs: Self) -> (r: Self)
        ensures
            r.poly == spec_lcm(self.poly, rhs.poly),
            self.poly != 0 && rhs.poly != 0 && spec_degree(self.poly) + spec_degree(rhs.poly)
                <= 31 ==> divides(self.poly, r.poly) && divides(rhs.poly, r.poly),
    {
        proof {
            if self.poly != 0 && rhs.poly != 0 && spec_degree(self.poly) + spec_degree(
                rhs.poly,
            ) <= 31 {
                lemma_lcm_multiple(self.poly, rhs.poly);
            }
        }
        let gcd = self.gcd(rhs);
        if gcd.is_zero() {
            return PolyGF2::default();
        }
        *self * rhs / gcd
    }

    /// The value of the polynomial at the point `x & 1` of GF(2).
    pub fn eval(&self, x: u32) -> (r: u32)
        ensures
            r == spec_eval(self.poly, x),
    {
        let bit: u32 = x & 1;
        let mut poly: u32 = self.poly;
        let mut result: u32 = poly & 1;
        proof {
            lemma_xor(x, 0, 0);
            lemma_xor(self.poly & 1, 0, 0);
            lemma_shift(self.poly, 0);
        }
        poly >>= 1;
        while poly > 0
            invariant
                bit == 0 || bit == 1,
                bit == 0 ==> result == self.poly & 1,
                bit == 1 ==> result ^ spec_parity(poly) == spec_parity(self.poly),
            decreases poly,
        {
            proof {
                lemma_xor(poly, 0, 0);
                lemma_xor(result, poly & 1, spec_parity(poly >> 1));
                lemma_shift(poly, 0);
            }
            result ^= poly & bit;
            poly >>= 1;
        }
        proof {
            lemma_xor(result, 0, 0);
        }
        result
    }
}

impl std::ops::Div for PolyGF2 {
    type Output = PolyGF2;

    /// The quotient of the long division by a polynomial that is not zero.
    fn div(self, rhs: Self) -> (r: PolyGF2)
        ensures
            r.poly == spec_div(self.poly, rhs.poly),
    {
        self.divmod_nonzero(rhs).0
    }
}

impl vstd::std_specs::ops::DivSpecImpl for PolyGF2 {
    open spec fn obeys_div_spec() -> bool {
        true
    }

    open spec fn div_req(self, rhs: Self) -> bool {
        rhs.poly != 0
    }

    open spec fn div_spec(self, rhs: Self) -> PolyGF2 {
        PolyGF2 { poly: spec_div(self.poly, rhs.poly) }
    }
}

impl std::ops::DivAssign for PolyGF2 {
    fn div_assign(&mut self, rhs: Self)
        requires
            rhs.poly != 0,
        ensures
            final(self).poly == spec_div(old(self).poly, rhs.poly),
    {
        *self = *self / rhs;
    }
}

impl std::ops::Rem for PolyGF2 {
    type Output = PolyGF2;

    /// The remainder of the long division by a polynomial that is not zero.
    fn rem(self, rhs: Self) -> (r: PolyGF2)
        ensures
            r.poly == spec_rem(self.poly, rhs.poly),
            spec_degree(r.poly) < spec_degree(rhs.poly),
    {
        proof {
            lemma_divmod_law(self.poly, rhs.poly);
        }
        self.divmod_nonzero(rhs).1
    }
}

impl vstd::std_specs::ops::RemSpecImpl for PolyGF2 {
    open spec fn obeys_rem_spec() -> bool {
        true
    }

    open spec fn rem_req(self, rhs: Self) -> bool {
        rhs.poly != 0
    }

    open spec fn rem_spec(self, rhs: Self) -> PolyGF2 {
        PolyGF2 { poly: spec_rem(self.poly, rhs.poly) }
    }
}

impl std::ops::RemAssign for PolyGF2 {
    fn rem_assign(&mut self, rhs: Self)
        requires
            rhs.poly != 0,
        ensures
            final(self).poly == spec_rem(old(self).poly, rhs.poly),
    {
        *self = *self % rhs;
    }
}

} // verus!
