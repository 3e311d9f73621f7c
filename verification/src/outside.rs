//! The calls into the `polynomial` and `poly_it` crates. Their contracts are taken
//! on trust from the sources of those crates; nothing in this file is proved.
//!
//! Both crates compute with the arithmetic that `GF2TM` implements, so each call asks
//! that the elements handed over are valid: the operations of the field accept
//! nothing else.

use vstd::prelude::*;
use crate::gf2tm::{field_modulus, GF2TM};
use crate::poly_field_spec::{all_wf, spec_horner, spec_product, spec_sum, spec_trim, values};

verus! {

/// The quotient and the remainder that `poly_it` finds for the polynomials with
/// coefficients `num` and `den` over GF(2^m).
pub uninterp spec fn poly_it_division(m: u32, num: Seq<u32>, den: Seq<u32>) -> (Seq<u32>, Seq<u32>);

/// `polynomial::Polynomial::eval` on the polynomial that `polynomial::Polynomial::new`
/// makes of `coeffs`: `new` drops the zero coefficients at the top, and `eval` starts
/// from zero and, from the top coefficient down, multiplies by `x` and adds the
/// coefficient.
#[verifier::external_body]
pub(crate) fn polynomial_eval<const M: u32>(coeffs: &Vec<GF2TM<M>>, x: GF2TM<M>) -> (r: GF2TM<M>)
    requires
        all_wf(coeffs@),
        x.wf(),
    ensures
        r.wf(),
        r.spec_value() == spec_horner(spec_trim(values(coeffs@)), x.spec_value(), field_modulus(M)),
{
    polynomial::Polynomial::new(coeffs.clone()).eval(x)
}

/// The sum `+` of two `polynomial::Polynomial`s made by `new`: coefficient `i` is the
/// sum of the two coefficients `i`, with zero in place of one that does not exist, and
/// the zero coefficients at the top of the result are dropped.
#[verifier::external_body]
pub(crate) fn polynomial_add<const M: u32>(a: &Vec<GF2TM<M>>, b: &Vec<GF2TM<M>>) -> (r: Vec<
    GF2TM<M>,
>)
    requires
        all_wf(a@),
        all_wf(b@),
    ensures
        all_wf(r@),
        values(r@) == spec_sum(values(a@), values(b@), field_modulus(M)),
{
    let sum = polynomial::Polynomial::new(a.clone()) + polynomial::Polynomial::new(b.clone());
    sum.data().to_vec()
}

/// The product `*` of two `polynomial::Polynomial`s made by `new`: empty where either
/// has no coefficient left; else coefficient `i` is the sum, from zero on, of
/// `a[k] * b[i - k]` over the `k` for which both exist, and the zero coefficients at
/// the top of the result are dropped.
#[verifier::external_body]
pub(crate) fn polynomial_mul<const M: u32>(a: &Vec<GF2TM<M>>, b: &Vec<GF2TM<M>>) -> (r: Vec<
    GF2TM<M>,
>)
    requires
        all_wf(a@),
        all_wf(b@),
    ensures
        all_wf(r@),
        values(r@) == spec_product(values(a@), values(b@), field_modulus(M)),
{
    let product = polynomial::Polynomial::new(a.clone()) * polynomial::Polynomial::new(b.clone());
    product.data().to_vec()
}

/// `poly_it::Polynomial::new`, which drops the zero coefficients at the top and keeps
/// the others as they are.
#[verifier::external_body]
pub(crate) fn poly_it_trim<const M: u32>(coeffs: Vec<GF2TM<M>>) -> (r: Vec<GF2TM<M>>)
    ensures
        r@ == coeffs@.subrange(0, spec_trim(values(coeffs@)).len() as int),
{
    poly_it::Polynomial::new(coeffs).coeffs().to_vec()
}

/// `poly_it::Polynomial::eval` on the polynomial that `poly_it::Polynomial::new` makes
/// of `coeffs`: Horner's rule from the top coefficient down, starting from zero. It
/// adds the coefficient to the product where `polynomial` adds the product to the
/// coefficient; the sum of the field is the same for both.
#[verifier::external_body]
pub(crate) fn poly_it_eval<const M: u32>(coeffs: &Vec<GF2TM<M>>, x: GF2TM<M>) -> (r: GF2TM<M>)
    requires
        all_wf(coeffs@),
        x.wf(),
    ensures
        r.wf(),
        r.spec_value() == spec_horner(spec_trim(values(coeffs@)), x.spec_value(), field_modulus(M)),
{
    poly_it::Polynomial::new(coeffs.clone()).eval(x)
}

/// The division `/` of two `poly_it::Polynomial`s made by `new`. The contract names the
/// pair that comes back and says that its elements are elements of the field.
#[verifier::external_body]
pub(crate) fn poly_it_div<const M: u32>(num: &Vec<GF2TM<M>>, den: &Vec<GF2TM<M>>) -> (r: (
    Vec<GF2TM<M>>,
    Vec<GF2TM<M>>,
))
    requires
        all_wf(num@),
        all_wf(den@),
    ensures
        all_wf(r.0@),
        all_wf(r.1@),
        (values(r.0@), values(r.1@)) == poly_it_division(M, values(num@), values(den@)),
{
    let (q, rest) = poly_it::Polynomial::new(num.clone()) / poly_it::Polynomial::new(den.clone());
    (q.coeffs().to_vec(), rest.coeffs().to_vec())
}

} // verus!
