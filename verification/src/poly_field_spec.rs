//! What the operations on polynomials over GF(2^m) compute, over the sequences of
//! their coefficients. A coefficient is the `u32` that stands for the field element,
//! index 0 holds the constant term, and `p` is the modulus of the field.

use vstd::prelude::*;
use crate::gf2tm::{spec_fadd, spec_fmul, GF2TM};

verus! {

/// The polynomials that stand for the elements of `s`.
pub open spec fn values<const M: u32>(s: Seq<GF2TM<M>>) -> Seq<u32> {
    Seq::new(s.len(), |i: int| s[i].spec_value())
}

/// Every element of `s` is a valid element of GF(2^M).
pub open spec fn all_wf<const M: u32>(s: Seq<GF2TM<M>>) -> bool {
    forall|i: int| 0 <= i < s.len() ==> (#[trigger] s[i]).wf()
}

/// `c` without its zero coefficients at the top.
pub open spec fn spec_trim(c: Seq<u32>) -> Seq<u32>
    decreases c.len(),
{
    if c.len() > 0 && c.last() == 0 {
        spec_trim(c.drop_last())
    } else {
        c
    }
}

/// The value at `x` of the polynomial with coefficients `c`, by Horner's rule:
/// `c[0] + x * (c[1] + x * (c[2] + ...))`.
pub open spec fn spec_horner(c: Seq<u32>, x: u32, p: u32) -> u32
    decreases c.len(),
{
    if c.len() == 0 {
        0
    } else {
        spec_fadd(c[0], spec_fmul(spec_horner(c.subrange(1, c.len() as int), x, p), x, p), p)
    }
}

/// Coefficient `i` of `c`, and zero from the length of `c` on.
pub open spec fn spec_coeff(c: Seq<u32>, i: int) -> u32 {
    if i < c.len() {
        c[i]
    } else {
        0
    }
}

/// The sum of two polynomials whose top coefficients are not zero.
pub open spec fn spec_sum_trimmed(a: Seq<u32>, b: Seq<u32>, p: u32) -> Seq<u32> {
    spec_trim(
        Seq::new(
            if a.len() >= b.len() {
                a.len()
            } else {
                b.len()
            },
            |i: int| spec_fadd(spec_coeff(a, i), spec_coeff(b, i), p),
        ),
    )
}

/// The sum of the polynomials with coefficients `a` and `b`.
pub open spec fn spec_sum(a: Seq<u32>, b: Seq<u32>, p: u32) -> Seq<u32> {
    spec_sum_trimmed(spec_trim(a), spec_trim(b), p)
}

/// The sum of `a[k] * b[i - k]` over `lo <= k < hi`, added up from `lo` on.
pub open spec fn spec_conv_sum(a: Seq<u32>, b: Seq<u32>, i: int, lo: int, hi: int, p: u32) -> u32
    decreases hi - lo,
{
    if hi <= lo {
        0
    } else {
        spec_fadd(
            spec_conv_sum(a, b, i, lo, hi - 1, p),
            spec_fmul(a[hi - 1], b[i - (hi - 1)], p),
            p,
        )
    }
}

/// Coefficient `i` of the product of the polynomials `a` and `b`.
pub open spec fn spec_product_coeff(a: Seq<u32>, b: Seq<u32>, i: int, p: u32) -> u32 {
    let lo = if i + 1 > b.len() {
        i + 1 - b.len()
    } else {
        0
    };
    let hi = if i + 1 < a.len() {
        i + 1
    } else {
        a.len() as int
    };
    spec_conv_sum(a, b, i, lo, hi, p)
}

/// The product of two polynomials whose top coefficients are not zero.
pub open spec fn spec_product_trimmed(a: Seq<u32>, b: Seq<u32>, p: u32) -> Seq<u32> {
    if a.len() == 0 || b.len() == 0 {
        Seq::empty()
    } else {
        spec_trim(
            Seq::new((a.len() + b.len() - 1) as nat, |i: int| spec_product_coeff(a, b, i, p)),
        )
    }
}

/// The product of the polynomials with coefficients `a` and `b`.
pub open spec fn spec_product(a: Seq<u32>, b: Seq<u32>, p: u32) -> Seq<u32> {
    spec_product_trimmed(spec_trim(a), spec_trim(b), p)
}

} // verus!
