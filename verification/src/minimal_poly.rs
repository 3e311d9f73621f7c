//! The minimal polynomial over GF(2) of an element of GF(2^M).

use vstd::prelude::*;
use crate::gf2tm::{field_modulus, lemma_field_modulus, spec_fpow, GF2TM};
use crate::outside::polynomial_mul;
use crate::poly_field::{lemma_product_is_trimmed, spec_fold_bits, PolyField};
use crate::poly_field_spec::{all_wf, spec_product, values};
use crate::poly_gf2::PolyGF2;

verus! {

/// The conjugates `v^(2^i)`, `i < n`, of `v` modulo `p`, each once, in the order in
/// which they first appear.
pub open spec fn spec_conjugates(v: u32, p: u32, n: u32) -> Seq<u32>
    decreases n,
{
    if n == 0 {
        Seq::empty()
    } else {
        let before = spec_conjugates(v, p, (n - 1) as u32);
        let c = spec_fpow(v, (1u32 << ((n - 1) as u32)) as nat, p);
        if before.contains(c) {
            before
        } else {
            before.push(c)
        }
    }
}

/// The product of the linear factors `x + roots[i]`, `i < n`.
pub open spec fn spec_linear_product(roots: Seq<u32>, p: u32, n: nat) -> Seq<u32>
    decreases n,
{
    if n == 0 {
        seq![1u32]
    } else {
        spec_product(
            spec_linear_product(roots, p, (n - 1) as nat),
            seq![roots[n - 1], 1u32],
            p,
        )
    }
}

/// The minimal polynomial of `v` in GF(2^m): the product of `x + c` over the
/// conjugates `c` of `v`, each coefficient reduced to its lowest bit.
pub open spec fn spec_minimal_poly(v: u32, m: u32) -> u32 {
    let roots = spec_conjugates(v, field_modulus(m), m);
    spec_fold_bits(spec_linear_product(roots, field_modulus(m), roots.len()))
}

/// Whether `c` is among `items`.
fn contains<const M: u32>(items: &Vec<GF2TM<M>>, c: &GF2TM<M>) -> (r: bool)
    ensures
        r == values(items@).contains(c.spec_value()),
{
    let mut i: usize = 0;
    while i < items.len()
        invariant
            i <= items.len(),
            forall|j: int| 0 <= j < i ==> values(items@)[j] != c.spec_value(),
        decreases items.len() - i,
    {
        if items[i].value().poly == c.value().poly {
            assert(values(items@)[i as int] == c.spec_value());
            return true;
        }
        i += 1;
    }
    false
}

impl<const M: u32> GF2TM<M> {
    /// The conjugates `self^(2^i)`, `i < M`, each once.
    pub fn conjugates(&self) -> (r: Vec<GF2TM<M>>)
        requires
            self.wf(),
        ensures
            all_wf(r@),
            values(r@) == spec_conjugates(self.spec_value(), field_modulus(M), M),
    {
        proof {
            lemma_field_modulus(M);
        }
        let mut conjugates: Vec<GF2TM<M>> = Vec::new();
        let mut i: u32 = 0;
        proof {
            assert(values(conjugates@) == Seq::<u32>::empty());
        }
        while i < M
            invariant
                i <= M < 32,
                self.wf(),
                all_wf(conjugates@),
                values(conjugates@) == spec_conjugates(self.spec_value(), field_modulus(M), i),
            decreases M - i,
        {
            let new = self.pow(1u32 << i);
            proof {
                GF2TM::<M>::lemma_spec_elem(
                    spec_fpow(self.spec_value(), (1u32 << i) as nat, field_modulus(M)),
                );
            }
            if !contains(&conjugates, &new) {
                let ghost before = conjugates@;
                conjugates.push(new);
                proof {
                    assert(values(conjugates@) == values(before).push(new.spec_value()));
                }
            }
            i += 1;
        }
        conjugates
    }

    /// The minimal polynomial of the element over GF(2).
    pub fn minimal_poly(&self) -> (r: PolyGF2)
        requires
            self.wf(),
        ensures
            r.poly == spec_minimal_poly(self.spec_value(), M),
    {
        let conjugates = self.conjugates();
        let one = GF2TM::<M>::one();
        proof {
            GF2TM::<M>::lemma_spec_elem(1);
        }
        let mut acc: Vec<GF2TM<M>> = Vec::new();
        acc.push(one);
        proof {
            assert(values(acc@) == seq![1u32]);
        }
        let mut i: usize = 0;
        while i < conjugates.len()
            invariant
                i <= conjugates.len(),
                one.wf(),
                one.spec_value() == 1,
                all_wf(conjugates@),
                all_wf(acc@),
                values(acc@) == spec_linear_product(
                    values(conjugates@),
                    field_modulus(M),
                    i as nat,
                ),
            decreases conjugates.len() - i,
        {
            let mut factor: Vec<GF2TM<M>> = Vec::new();
            factor.push(conjugates[i]);
            factor.push(one);
            proof {
                assert(values(factor@) == seq![values(conjugates@)[i as int], 1u32]);
            }
            acc = polynomial_mul(&acc, &factor);
            i += 1;
        }
        proof {
            let roots = values(conjugates@);
            if i == 0 {
                assert(seq![1u32].last() == 1u32);
            } else {
                lemma_product_is_trimmed(
                    spec_linear_product(roots, field_modulus(M), (i - 1) as nat),
                    seq![roots[i - 1], 1u32],
                    field_modulus(M),
                );
            }
        }
        PolyField::new(acc).fold_to_gf2()
    }
}

} // verus!
