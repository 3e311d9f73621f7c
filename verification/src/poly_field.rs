//! Polynomials with coefficients in GF(2^M).

use vstd::prelude::*;
use crate::gf2tm::{field_modulus, spec_fadd, GF2TM};
use crate::outside::{
    poly_it_div, poly_it_division, poly_it_trim, polynomial_add, polynomial_eval, polynomial_mul,
};
use crate::poly_field_spec::{
    all_wf, spec_coeff, spec_horner, spec_product, spec_sum, spec_trim, values,
};
use crate::poly_gf2::PolyGF2;

verus! {

/// The polynomial over GF(2) whose coefficient `i` is the lowest bit of `c[i]`,
/// truncated to 32 coefficients.
pub open spec fn spec_fold_bits(c: Seq<u32>) -> u32
    decreases c.len(),
{
    if c.len() == 0 {
        0
    } else {
        (spec_fold_bits(c.subrange(1, c.len() as int)) << 1) | (c[0] & 1)
    }
}

/// Trimming twice is trimming once, and a trimmed sequence is a prefix.
pub proof fn lemma_trim(c: Seq<u32>)
    ensures
        spec_trim(c).len() <= c.len(),
        spec_trim(c) == c.subrange(0, spec_trim(c).len() as int),
        spec_trim(spec_trim(c)) == spec_trim(c),
        spec_trim(c).len() > 0 ==> spec_trim(c).last() != 0,
    decreases c.len(),
{
    if c.len() > 0 && c.last() == 0 {
        lemma_trim(c.drop_last());
        let t = spec_trim(c.drop_last());
        assert(t == c.subrange(0, t.len() as int));
    } else {
        assert(c == c.subrange(0, c.len() as int));
    }
}

/// A polynomial over GF(2^M): its coefficients from the constant term up, the top
/// one not zero.
#[derive(Clone, Debug, PartialEq, Eq)]
pub struct PolyField<const M: u32> {
    coeffs: Vec<GF2TM<M>>,
}

impl<const M: u32> View for PolyField<M> {
    type V = Seq<u32>;

    /// The polynomials that stand for the coefficients.
    closed spec fn view(&self) -> Seq<u32> {
        values(self.coeffs@)
    }
}

impl<const M: u32> PolyField<M> {
    /// The coefficients as elements of the field.
    pub closed spec fn spec_coeffs(&self) -> Seq<GF2TM<M>> {
        self.coeffs@
    }

    /// Every coefficient is a valid element, and the top one is not zero.
    pub open spec fn wf(&self) -> bool {
        &&& all_wf(self.spec_coeffs())
        &&& self@ == values(self.spec_coeffs())
        &&& spec_trim(self@) == self@
    }

    /// The polynomial with the given coefficients, without the zeros at the top.
    pub fn new(coeffs: Vec<GF2TM<M>>) -> (r: Self)
        requires
            all_wf(coeffs@),
        ensures
            r.wf(),
            r@ == spec_trim(values(coeffs@)),
            r@.len() <= coeffs@.len(),
            r.spec_coeffs() == coeffs@.subrange(0, r@.len() as int),
    {
        proof {
            lemma_trim(values(coeffs@));
        }
        let ghost n = spec_trim(values(coeffs@)).len() as int;
        let trimmed = poly_it_trim(coeffs);
        proof {
            assert(values(trimmed@) == values(coeffs@).subrange(0, n));
        }
        PolyField { coeffs: trimmed }
    }

    /// The coefficients, from the constant term up.
    pub fn coeffs(&self) -> (r: &Vec<GF2TM<M>>)
        ensures
            r@ == self.spec_coeffs(),
    {
        &self.coeffs
    }

    /// The value of the polynomial at `x`.
    pub fn eval(&self, x: GF2TM<M>) -> (r: GF2TM<M>)
        requires
            self.wf(),
            x.wf(),
        ensures
            r.wf(),
            r.spec_value() == spec_horner(self@, x.spec_value(), field_modulus(M)),
    {
        polynomial_eval(&self.coeffs, x)
    }

    /// The sum of two polynomials.
    pub fn add(&self, rhs: &Self) -> (r: Self)
        requires
            self.wf(),
            rhs.wf(),
        ensures
            r.wf(),
            r@ == spec_sum(self@, rhs@, field_modulus(M)),
    {
        let sum = polynomial_add(&self.coeffs, &rhs.coeffs);
        proof {
            let a = spec_trim(self@);
            let b = spec_trim(rhs@);
            lemma_trim(
                Seq::new(
                    if a.len() >= b.len() {
                        a.len()
                    } else {
                        b.len()
                    },
                    |i: int| spec_fadd(spec_coeff(a, i), spec_coeff(b, i), field_modulus(M)),
                ),
            );
        }
        PolyField { coeffs: sum }
    }

    /// The product of two polynomials.
    pub fn mul(&self, rhs: &Self) -> (r: Self)
        requires
            self.wf(),
            rhs.wf(),
        ensures
            r.wf(),
            r@ == spec_product(self@, rhs@, field_modulus(M)),
    {
        let product = polynomial_mul(&self.coeffs, &rhs.coeffs);
        proof {
            lemma_product_is_trimmed(self@, rhs@, field_modulus(M));
        }
        PolyField { coeffs: product }
    }

    /// The quotient and the remainder of the division by `rhs`, as `poly_it` finds them.
    pub fn div_rem(&self, rhs: &Self) -> (r: (Self, Self))
        requires
            self.wf(),
            rhs.wf(),
        ensures
            r.0.wf(),
            r.1.wf(),
            r.0@ == spec_trim(poly_it_division(M, self@, rhs@).0),
            r.1@ == spec_trim(poly_it_division(M, self@, rhs@).1),
    {
        let (q, rest) = poly_it_div(&self.coeffs, &rhs.coeffs);
        (PolyField::new(q), PolyField::new(rest))
    }

    /// The polynomial over GF(2) made of the lowest bit of each coefficient.
    pub fn fold_to_gf2(&self) -> (r: PolyGF2)
        ensures
            r.poly == spec_fold_bits(self@),
    {
        let mut acc: u32 = 0;
        let mut i: usize = self.coeffs.len();
        proof {
            assert(self@.subrange(i as int, self@.len() as int).len() == 0);
        }
        while i > 0
            invariant
                i <= self.coeffs.len(),
                self@ == values(self.coeffs@),
                acc == spec_fold_bits(self@.subrange(i as int, self@.len() as int)),
            decreases i,
        {
            i -= 1;
            proof {
                let s = self@.subrange(i as int, self@.len() as int);
                assert(s.subrange(1, s.len() as int) == self@.subrange(
                    i as int + 1,
                    self@.len() as int,
                ));
            }
            acc = (acc << 1) | (self.coeffs[i].value().poly & 1);
        }
        proof {
            assert(self@.subrange(0, self@.len() as int) == self@);
        }
        PolyGF2::new(acc)
    }
}

impl<const M: u32> From<PolyField<M>> for PolyGF2 {
    /// The polynomial over GF(2) made of the lowest bit of each coefficient.
    fn from(poly: PolyField<M>) -> (r: Self) {
        poly.fold_to_gf2()
    }
}

impl<const M: u32> vstd::std_specs::convert::FromSpecImpl<PolyField<M>> for PolyGF2 {
    open spec fn obeys_from_spec() -> bool {
        true
    }

    open spec fn from_spec(poly: PolyField<M>) -> Self {
        PolyGF2 { poly: spec_fold_bits(poly@) }
    }
}

/// A product has no zero coefficient at the top.
pub proof fn lemma_product_is_trimmed(a: Seq<u32>, b: Seq<u32>, p: u32)
    ensures
        spec_trim(spec_product(a, b, p)) == spec_product(a, b, p),
{
    let ta = spec_trim(a);
    let tb = spec_trim(b);
    if ta.len() == 0 || tb.len() == 0 {
    } else {
        lemma_trim(
            Seq::new((ta.len() + tb.len() - 1) as nat, |i: int| crate::poly_field_spec::spec_product_coeff(ta, tb, i, p)),
        );
    }
}

} // verus!
