//! Polynomials over GF(2) tagged with a field size and a modulus that are chosen
//! when the value is made. The operations work on the polynomial and keep the tags
//! of the left operand.

use vstd::prelude::*;
use crate::poly_gf2::{low_bits, spec_div, spec_mul, spec_pow, spec_rem, PolyGF2};
use crate::poly_gf2_lemmas::{
    lemma_low_bits_step, lemma_mul_one, lemma_mul_zero, lemma_pow_binary_step, lemma_rem_monomial,
};

verus! {

/// `v` modulo `x^m`: the terms of `v` below `x^m`.
pub open spec fn spec_mod_monomial(v: u32, m: u32) -> u32 {
    low_bits(v, m)
}

/// `v` modulo `x^m`.
pub fn mod_monomial(v: PolyGF2, m: u32) -> (r: PolyGF2)
    ensures
        r.poly == spec_mod_monomial(v.poly, m),
{
    if m >= 32 {
        return v;
    }
    proof {
        crate::bits::lemma_shift(0, m);
        lemma_rem_monomial(v.poly, m);
    }
    v % PolyGF2::new(1u32 << m)
}

/// A polynomial over GF(2) with the size `m` and the modulus `irr` of a field.
#[derive(Eq, PartialEq, Structural, Hash, Clone, Copy, Default, Debug)]
pub struct GF2m {
    value: PolyGF2,
    m: u32,
    irr: PolyGF2,
}

impl GF2m {
    /// The value `value` modulo `x^m`, tagged with `m` and `irr`.
    pub fn new(value: PolyGF2, m: u32, irr: PolyGF2) -> (r: GF2m)
        ensures
            r.spec_value() == spec_mod_monomial(value.poly, m),
            r.spec_m() == m,
            r.spec_irr() == irr.poly,
    {
        GF2m { value: mod_monomial(value, m), m, irr }
    }

    /// The polynomial.
    pub closed spec fn spec_value(&self) -> u32 {
        self.value.poly
    }

    /// The size of the field that the value is tagged with.
    pub closed spec fn spec_m(&self) -> u32 {
        self.m
    }

    /// The modulus that the value is tagged with.
    pub closed spec fn spec_irr(&self) -> u32 {
        self.irr.poly
    }

    /// The same tags around another polynomial.
    pub open spec fn with_value(&self, v: u32) -> GF2m {
        GF2m::spec_new(v, self.spec_m(), self.spec_irr())
    }

    /// The value with the polynomial `v` and the tags `m` and `irr`.
    pub closed spec fn spec_new(v: u32, m: u32, irr: u32) -> GF2m {
        GF2m { value: PolyGF2 { poly: v }, m, irr: PolyGF2 { poly: irr } }
    }

    /// The polynomial.
    pub fn value(&self) -> (r: PolyGF2)
        ensures
            r.poly == self.spec_value(),
    {
        self.value
    }

    /// The size of the field that the value is tagged with.
    pub fn m(&self) -> (r: u32)
        ensures
            r == self.spec_m(),
    {
        self.m
    }

    /// The modulus that the value is tagged with.
    pub fn irr(&self) -> (r: PolyGF2)
        ensures
            r.poly == self.spec_irr(),
    {
        self.irr
    }

    /// A value is what its polynomial and its two tags are.
    pub proof fn lemma_with_value(&self, v: u32)
        ensures
            self.with_value(v).spec_value() == v,
            self.with_value(v).spec_m() == self.spec_m(),
            self.with_value(v).spec_irr() == self.spec_irr(),
            self.with_value(self.spec_value()) == *self,
    {
    }
}

impl std::ops::Add for GF2m {
    type Output = GF2m;

    /// The sum of the polynomials.
    fn add(self, rhs: Self) -> (r: GF2m)
        ensures
            r.spec_value() == self.spec_value() ^ rhs.spec_value(),
            r.spec_m() == self.spec_m(),
            r.spec_irr() == self.spec_irr(),
    {
        GF2m { value: self.value + rhs.value, m: self.m, irr: self.irr }
    }
}

impl vstd::std_specs::ops::AddSpecImpl for GF2m {
    open spec fn obeys_add_spec() -> bool {
        true
    }

    open spec fn add_req(self, rhs: Self) -> bool {
        true
    }

    open spec fn add_spec(self, rhs: Self) -> GF2m {
        self.with_value(self.spec_value() ^ rhs.spec_value())
    }
}

impl std::ops::AddAssign for GF2m {
    fn add_assign(&mut self, rhs: Self)
        ensures
            *final(self) == old(self).with_value(old(self).spec_value() ^ rhs.spec_value()),
    {
        *self = *self + rhs;
    }
}

impl std::ops::Sub for GF2m {
    type Output = GF2m;

    /// The difference of the polynomials, which is their sum.
    fn sub(self, rhs: Self) -> (r: GF2m)
        ensures
            r.spec_value() == self.spec_value() ^ rhs.spec_value(),
            r.spec_m() == self.spec_m(),
            r.spec_irr() == self.spec_irr(),
    {
        GF2m { value: self.value - rhs.value, m: self.m, irr: self.irr }
    }
}

impl vstd::std_specs::ops::SubSpecImpl for GF2m {
    open spec fn obeys_sub_spec() -> bool {
        true
    }

    open spec fn sub_req(self, rhs: Self) -> bool {
        true
    }

    open spec fn sub_spec(self, rhs: Self) -> GF2m {
        self.with_value(self.spec_value() ^ rhs.spec_value())
    }
}

impl std::ops::SubAssign for GF2m {
    fn sub_assign(&mut self, rhs: Self)
        ensures
            *final(self) == old(self).with_value(old(self).spec_value() ^ rhs.spec_value()),
    {
        *self = *self - rhs;
    }
}

impl std::ops::Mul for GF2m {
    type Output = GF2m;

    /// The product of the polynomials, not reduced.
    fn mul(self, rhs: Self) -> (r: GF2m)
        ensures
            r.spec_value() == spec_mul(self.spec_value(), rhs.spec_value()),
            r.spec_m() == self.spec_m(),
            r.spec_irr() == self.spec_irr(),
    {
        GF2m { value: self.value * rhs.value, m: self.m, irr: self.irr }
    }
}

impl vstd::std_specs::ops::MulSpecImpl for GF2m {
    open spec fn obeys_mul_spec() -> bool {
        true
    }

    open spec fn mul_req(self, rhs: Self) -> bool {
        true
    }

    open spec fn mul_spec(self, rhs: Self) -> GF2m {
        self.with_value(spec_mul(self.spec_value(), rhs.spec_value()))
    }
}

impl std::ops::MulAssign for GF2m {
    fn mul_assign(&mut self, rhs: Self)
        ensures
            *final(self) == old(self).with_value(spec_mul(old(self).spec_value(), rhs.spec_value())),
    {
        *self = *self * rhs;
    }
}

impl std::ops::Div for GF2m {
    type Output = GF2m;

    /// The quotient of the polynomials.
    fn div(self, rhs: Self) -> (r: GF2m)
        ensures
            r.spec_value() == spec_div(self.spec_value(), rhs.spec_value()),
            r.spec_m() == self.spec_m(),
            r.spec_irr() == self.spec_irr(),
    {
        GF2m { value: self.value / rhs.value, m: self.m, irr: self.irr }
    }
}

impl vstd::std_specs::ops::DivSpecImpl for GF2m {
    open spec fn obeys_div_spec() -> bool {
        true
    }

    open spec fn div_req(self, rhs: Self) -> bool {
        rhs.spec_value() != 0
    }

    open spec fn div_spec(self, rhs: Self) -> GF2m {
        self.with_value(spec_div(self.spec_value(), rhs.spec_value()))
    }
}

impl std::ops::DivAssign for GF2m {
    fn div_assign(&mut self, rhs: Self)
        requires
            rhs.spec_value() != 0,
        ensures
            *final(self) == old(self).with_value(spec_div(old(self).spec_value(), rhs.spec_value())),
    {
        *self = *self / rhs;
    }
}

impl std::ops::Rem for GF2m {
    type Output = GF2m;

    /// The remainder of the polynomials.
    fn rem(self, rhs: Self) -> (r: GF2m)
        ensures
            r.spec_value() == spec_rem(self.spec_value(), rhs.spec_value()),
            r.spec_m() == self.spec_m(),
            r.spec_irr() == self.spec_irr(),
    {
        GF2m { value: self.value % rhs.value, m: self.m, irr: self.irr }
    }
}

impl vstd::std_specs::ops::RemSpecImpl for GF2m {
    open spec fn obeys_rem_spec() -> bool {
        true
    }

    open spec fn rem_req(self, rhs: Self) -> bool {
        rhs.spec_value() != 0
    }

    open spec fn rem_spec(self, rhs: Self) -> GF2m {
        self.with_value(spec_rem(self.spec_value(), rhs.spec_value()))
    }
}

impl std::ops::RemAssign for GF2m {
    fn rem_assign(&mut self, rhs: Self)
        requires
            rhs.spec_value() != 0,
        ensures
            *final(self) == old(self).with_value(spec_rem(old(self).spec_value(), rhs.spec_value())),
    {
        *self = *self % rhs;
    }
}

impl GF2m {
    /// The power of the polynomial with exponent `exp`, by squaring and multiplying.
    /// With `m` zero every polynomial is zero modulo `x^m`, and so is the power.
    pub fn pow(self, exp: u32) -> (r: GF2m)
        ensures
            r == self.with_value(
                if self.spec_m() == 0 {
                    0
                } else {
                    spec_pow(self.spec_value(), exp as nat)
                },
            ),
    {
        let mut exp = exp;
        let ghost exp0 = exp;
        let mut result = GF2m::new(PolyGF2::new(1), self.m, self.irr);
        let mut base = self;
        let ghost start = result.value.poly;
        while exp > 0
            invariant
                result.m == self.m,
                result.irr == self.irr,
                start == spec_mod_monomial(1, self.m),
                spec_mul(result.value.poly, spec_pow(base.value.poly, exp as nat)) == spec_mul(
                    start,
                    spec_pow(self.value.poly, exp0 as nat),
                ),
            decreases exp,
        {
            proof {
                lemma_pow_binary_step(result.value.poly, base.value.poly, exp);
            }
            if exp & 1 == 1 {
                result = result * base;
            }
            base = base * base;
            exp >>= 1;
        }
        proof {
            lemma_mul_one(result.value.poly);
            if 1 <= self.m < 32 {
                lemma_low_bits_step(0, self.m);
            }
            lemma_low_bits_step(1, 0);
            lemma_mul_one(spec_pow(self.value.poly, exp0 as nat));
            lemma_mul_zero(spec_pow(self.value.poly, exp0 as nat));
        }
        result
    }
}

} // verus!
