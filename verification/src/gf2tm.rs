//! The field GF(2^M): polynomials over GF(2) modulo the first irreducible
//! polynomial of degree `M`.

use vstd::prelude::*;
use crate::bits::lemma_shift;
use crate::fermat::lemma_small_fields_have_inverses;
use crate::field_laws::field_has_inverses;
use crate::gf2m::{mod_monomial, spec_mod_monomial};
use crate::irreducible_table::lemma_small_fields_exist;
use crate::poly_gf2::{
    is_first_irreducible, lemma_degree_bits, lemma_degree_range, lemma_lower_degree_is_smaller,
    no_divisor_below, spec_degree, spec_irreducible, spec_mul, spec_rem, PolyGF2,
};
use crate::poly_gf2_lemmas::{lemma_divmod_law, lemma_rem_monomial, lemma_rem_small};
use crate::small_fields::lemma_primitive_small;
use num_traits::Zero;
use std::ops::Neg;

verus! {

/// The product of `a` and `b` modulo `p`.
pub open spec fn spec_fmul(a: u32, b: u32, p: u32) -> u32 {
    spec_rem(spec_mul(a, b), p)
}

/// The sum of `a` and `b` modulo `p`.
pub open spec fn spec_fadd(a: u32, b: u32, p: u32) -> u32 {
    spec_rem(a ^ b, p)
}

/// `v` multiplied by itself `k` times modulo `p`, starting from one.
pub open spec fn spec_fpow(v: u32, k: nat, p: u32) -> u32
    decreases k,
{
    if k == 0 {
        1
    } else {
        spec_fmul(spec_fpow(v, (k - 1) as nat, p), v, p)
    }
}

/// The inverse of `v` modulo `p` by Fermat's little theorem: `v^(2^m - 2)`.
pub open spec fn spec_finv(v: u32, m: u32, p: u32) -> u32 {
    spec_fpow(v, ((1u32 << m) - 2) as nat, p)
}

/// The multiplicative order of `v` modulo `p` is `2^m - 1`: that power of `v` is one,
/// and no power before it is.
pub open spec fn spec_is_primitive(v: u32, m: u32, p: u32) -> bool {
    &&& forall|k: nat| 1 <= k < (1u32 << m) - 1 ==> #[trigger] spec_fpow(v, k, p) != 1
    &&& spec_fpow(v, ((1u32 << m) - 1) as nat, p) == 1
}

/// `v` is the first number from 1 up to `2^m` that is primitive modulo `p`.
pub open spec fn is_first_primitive(v: u32, m: u32, p: u32) -> bool {
    &&& 1 <= v < (1u32 << m)
    &&& spec_is_primitive(v, m, p)
    &&& forall|w: u32| 1 <= w < v ==> !#[trigger] spec_is_primitive(w, m, p)
}

/// The modulus of GF(2^m): the first irreducible polynomial of degree `m`.
pub open spec fn field_modulus(m: u32) -> u32 {
    spec_irreducible(m)
}

/// GF(2^m) can be built: `m` is at least one and the search for its modulus succeeds.
pub open spec fn field_exists(m: u32) -> bool {
    m >= 1 && field_modulus(m) != 0
}

/// The modulus of a field that exists has the degree of the field.
pub proof fn lemma_field_modulus(m: u32)
    requires
        field_exists(m),
    ensures
        1 <= m < 32,
        spec_degree(field_modulus(m)) == m,
        no_divisor_below(field_modulus(m), m),
        spec_degree(1u32) == 0,
        spec_degree(1u32 << m) == m,
        1u32 << m != 0,
        spec_mod_monomial(1, m) == 1,
{
    let p = field_modulus(m);
    assert(is_first_irreducible(p, m));
    lemma_degree_bits(p);
    lemma_degree_range(1u32, 0);
    lemma_shift(1, 0);
    lemma_shift(0, m);
    lemma_degree_range(1u32 << m, m);
    lemma_small_is_reduced(1, m);
}

/// A number below `2^m` is a polynomial of degree below `m`, and its own residue modulo `x^m`.
pub proof fn lemma_small_is_reduced(c: u32, m: u32)
    requires
        m < 32,
        c < (1u32 << m),
    ensures
        spec_degree(c) < m,
        spec_mod_monomial(c, m) == c,
{
    lemma_degree_bits(c);
    lemma_degree_range(1u32 << m, m);
    lemma_degree_range(c, m);
    if spec_degree(c) > m {
        lemma_lower_degree_is_smaller(1u32 << m, c);
    }
    lemma_rem_monomial(c, m);
    lemma_rem_small(c, 1u32 << m);
}

/// The first primitive element of GF(2^m), where the field exists and has one.
pub open spec fn spec_primitive_element(m: u32) -> Option<u32> {
    if field_exists(m) && exists|v: u32| is_first_primitive(v, m, field_modulus(m)) {
        Some(choose|v: u32| is_first_primitive(v, m, field_modulus(m)))
    } else {
        None
    }
}

/// There is one first primitive element at most.
pub proof fn lemma_first_primitive_unique(v: u32, m: u32)
    requires
        field_exists(m),
        is_first_primitive(v, m, field_modulus(m)),
    ensures
        spec_primitive_element(m) == Some(v),
{
    let c = choose|w: u32| is_first_primitive(w, m, field_modulus(m));
    assert(c == v);
}

/// An element of GF(2^M).
#[derive(Eq, Hash, Clone, Copy, Debug, PartialEq)]
pub struct GF2TM<const M: u32> {
    value: PolyGF2,
    irr: PolyGF2,
}

impl<const M: u32> GF2TM<M> {
    /// The polynomial that stands for the element.
    pub closed spec fn spec_value(&self) -> u32 {
        self.value.poly
    }

    /// The modulus that the element carries.
    pub closed spec fn spec_irr(&self) -> u32 {
        self.irr.poly
    }

    /// The element is reduced and carries the modulus of a field that exists.
    pub open spec fn wf(&self) -> bool {
        &&& field_exists(M)
        &&& self.spec_irr() == field_modulus(M)
        &&& spec_degree(self.spec_value()) < M
    }

    /// The value with polynomial `v` and the modulus of GF(2^M).
    pub closed spec fn spec_elem(v: u32) -> GF2TM<M> {
        GF2TM { value: PolyGF2 { poly: v }, irr: PolyGF2 { poly: field_modulus(M) } }
    }

    /// An element is what its polynomial and its modulus are.
    pub proof fn lemma_spec_elem(v: u32)
        ensures
            Self::spec_elem(v).spec_value() == v,
            Self::spec_elem(v).spec_irr() == field_modulus(M),
    {
    }

    /// Two values with the same polynomial and the same modulus are the same value.
    pub proof fn lemma_extensional(a: Self, b: Self)
        requires
            a.spec_value() == b.spec_value(),
            a.spec_irr() == b.spec_irr(),
        ensures
            a == b,
    {
    }

    /// The residue of `value` modulo `x^M`, as an element of GF(2^M).
    pub fn new(value: PolyGF2) -> (r: GF2TM<M>)
        ensures
            r == Self::spec_elem(spec_mod_monomial(value.poly, M)),
            r.spec_value() == spec_mod_monomial(value.poly, M),
            r.spec_irr() == field_modulus(M),
            field_exists(M) ==> r.wf(),
            1 <= M <= 8 ==> r.wf(),
    {
        proof {
            if 1 <= M <= 8 {
                lemma_small_fields_exist(M);
            }
            if field_exists(M) {
                lemma_field_modulus(M);
                lemma_divmod_law(value.poly, 1u32 << M);
                lemma_rem_monomial(value.poly, M);
            }
        }
        GF2TM { value: mod_monomial(value, M), irr: PolyGF2::irreducible(M) }
    }

    /// The element one.
    pub fn one() -> (r: GF2TM<M>)
        ensures
            r == Self::spec_elem(1),
            r.spec_value() == 1,
            r.spec_irr() == field_modulus(M),
            field_exists(M) ==> r.wf(),
            1 <= M <= 8 ==> r.wf(),
    {
        proof {
            if 1 <= M <= 8 {
                lemma_small_fields_exist(M);
            }
            if field_exists(M) {
                lemma_field_modulus(M);
            }
        }
        GF2TM { value: PolyGF2::new(1), irr: PolyGF2::irreducible(M) }
    }

    /// The polynomial that stands for the element.
    pub fn value(&self) -> (r: PolyGF2)
        ensures
            r.poly == self.spec_value(),
    {
        self.value
    }

    /// Whether the element carries a modulus and is reduced by it: whether the
    /// operations of the field accept it.
    pub fn is_valid(&self) -> (r: bool)
        ensures
            r == (M >= 1 && self.spec_irr() != 0 && self.spec_irr() == field_modulus(M)
                && spec_degree(self.spec_value()) < M),
            r == self.wf(),
    {
        if M < 1 || self.irr.is_zero() {
            return false;
        }
        let p = PolyGF2::irreducible(M);
        if !(self.irr.poly == p.poly) {
            return false;
        }
        proof {
            lemma_degree_bits(self.value.poly);
        }
        self.value.is_zero() || self.value.degree() < M as usize
    }
}

impl<const M: u32> GF2TM<M> {
    /// The residue of `v` modulo the modulus of `self`.
    fn reduced(&self, v: PolyGF2) -> (r: GF2TM<M>)
        requires
            self.wf(),
        ensures
            r.wf(),
            r == Self::spec_elem(spec_rem(v.poly, field_modulus(M))),
            r.spec_value() == spec_rem(v.poly, field_modulus(M)),
    {
        proof {
            lemma_field_modulus(M);
            lemma_divmod_law(v.poly, self.irr.poly);
        }
        GF2TM { value: v % self.irr, irr: self.irr }
    }

    /// The power with exponent `exp`, by repeated multiplication.
    pub fn pow(&self, exp: u32) -> (r: GF2TM<M>)
        requires
            self.wf(),
        ensures
            r.wf(),
            r == Self::spec_elem(spec_fpow(self.spec_value(), exp as nat, field_modulus(M))),
            r.spec_value() == spec_fpow(self.spec_value(), exp as nat, field_modulus(M)),
    {
        proof {
            lemma_field_modulus(M);
        }
        let mut result = GF2TM::new(PolyGF2::new(1u32));
        let mut i: u32 = 0;
        while i < exp
            invariant
                i <= exp,
                self.wf(),
                result.wf(),
                result == Self::spec_elem(spec_fpow(self.spec_value(), i as nat, field_modulus(M))),
            decreases exp - i,
        {
            result = result * *self;
            i += 1;
        }
        result
    }

    /// The inverse by Fermat's little theorem, `self^(2^M - 2)`; zero for zero. In a
    /// field in which every element but zero has an inverse, as the fields up to
    /// GF(2^8) are known to be, the product with an element that is not zero is one.
    pub fn inv(&self) -> (r: Self)
        requires
            self.wf(),
        ensures
            r.wf(),
            r == Self::spec_elem(spec_finv(self.spec_value(), M, field_modulus(M))),
            r.spec_value() == spec_finv(self.spec_value(), M, field_modulus(M)),
            self.spec_value() != 0 && (field_has_inverses(M) || 1 <= M <= 8) ==> spec_fmul(
                self.spec_value(),
                r.spec_value(),
                field_modulus(M),
            ) == 1,
    {
        proof {
            lemma_field_modulus(M);
            lemma_shift(0, M);
            if 1 <= M <= 8 {
                lemma_small_fields_have_inverses(M);
            }
        }
        self.pow((1u32 << M) - 2)
    }
}

impl<const M: u32> GF2TM<M> {
    /// Whether the powers of the element run through all elements but zero: whether
    /// its order is `2^M - 1`.
    pub fn is_primitive(&self) -> (r: bool)
        requires
            self.wf(),
        ensures
            r == spec_is_primitive(self.spec_value(), M, field_modulus(M)),
    {
        proof {
            lemma_field_modulus(M);
            lemma_shift(0, M);
        }
        let order: u32 = (1u32 << M) - 1;
        let mut powers = PolyGF2::new(1);
        let mut j: u32 = 1;
        while j < order
            invariant
                self.wf(),
                1 <= j <= order,
                order == (1u32 << M) - 1,
                powers.poly == spec_fpow(self.spec_value(), (j - 1) as nat, field_modulus(M)),
                forall|k: nat|
                    1 <= k < j ==> #[trigger] spec_fpow(self.spec_value(), k, field_modulus(M))
                        != 1,
            decreases order - j,
        {
            powers = (powers * self.value) % self.irr;
            if powers.poly == 1 {
                assert(spec_fpow(self.spec_value(), j as nat, field_modulus(M)) == 1);
                return false;
            }
            j += 1;
        }
        powers = (powers * self.value) % self.irr;
        powers.poly == 1
    }

    /// The first element, counting from one, that is primitive; `None` where the field
    /// cannot be built or the search finds no such element. In GF(4), GF(8) and GF(16)
    /// it is `x`.
    pub fn primitive_element() -> (r: Option<GF2TM<M>>)
        ensures
            match r {
                Some(a) => a.wf() && Some(a.spec_value()) == spec_primitive_element(M),
                None => spec_primitive_element(M) is None,
            },
            2 <= M <= 4 ==> r is Some && r->Some_0.spec_value() == 2,
    {
        proof {
            if 2 <= M <= 4 {
                lemma_primitive_small(M);
            }
        }
        if M < 1 || M >= 32 || PolyGF2::irreducible(M).is_zero() {
            proof {
                if M >= 32 {
                    lemma_degree_bits(field_modulus(M));
                }
            }
            return None;
        }
        let bound: u32 = 1u32 << M;
        let mut candidate: u32 = 1;
        while candidate < bound
            invariant
                field_exists(M),
                M < 32,
                bound == 1u32 << M,
                1 <= candidate,
                2 <= M <= 4 ==> spec_primitive_element(M) == Some(2u32),
                forall|w: u32|
                    1 <= w < candidate ==> !#[trigger] spec_is_primitive(w, M, field_modulus(M)),
            decreases bound - candidate,
        {
            proof {
                lemma_small_is_reduced(candidate, M);
            }
            let alpha = GF2TM::<M>::new(PolyGF2::new(candidate));
            if alpha.is_primitive() {
                proof {
                    lemma_first_primitive_unique(candidate, M);
                }
                return Some(alpha);
            }
            candidate += 1;
        }
        None
    }
}

impl<const M: u32> std::ops::Neg for GF2TM<M> {
    type Output = GF2TM<M>;

    /// Every element is its own negative.
    fn neg(self) -> (r: GF2TM<M>)
        ensures
            r == self,
    {
        GF2TM { value: self.value.neg(), irr: self.irr }
    }
}

impl<const M: u32> vstd::std_specs::ops::NegSpecImpl for GF2TM<M> {
    open spec fn obeys_neg_spec() -> bool {
        true
    }

    open spec fn neg_req(self) -> bool {
        true
    }

    open spec fn neg_spec(self) -> GF2TM<M> {
        self
    }
}

impl<const M: u32> Default for GF2TM<M> {
    fn default() -> (r: GF2TM<M>)
        ensures
            r == Self::spec_elem(0),
            r.spec_value() == 0,
            r.spec_irr() == field_modulus(M),
            field_exists(M) ==> r.wf(),
            1 <= M <= 8 ==> r.wf(),
    {
        proof {
            if 1 <= M <= 8 {
                lemma_small_fields_exist(M);
            }
        }
        proof {
            lemma_degree_bits(0);
        }
        GF2TM { value: PolyGF2::default(), irr: PolyGF2::irreducible(M) }
    }
}

impl<const M: u32> From<u32> for GF2TM<M> {
    /// The element that the low `M` bits of `poly` stand for.
    fn from(poly: u32) -> (r: Self)
        ensures
            r.spec_value() == spec_mod_monomial(poly, M),
            r.spec_irr() == field_modulus(M),
            field_exists(M) ==> r.wf(),
            1 <= M <= 8 ==> r.wf(),
    {
        proof {
            if 1 <= M <= 8 {
                lemma_small_fields_exist(M);
            }
        }
        GF2TM::new(PolyGF2::new(poly))
    }
}

impl<const M: u32> vstd::std_specs::convert::FromSpecImpl<u32> for GF2TM<M> {
    open spec fn obeys_from_spec() -> bool {
        true
    }

    open spec fn from_spec(poly: u32) -> Self {
        Self::spec_elem(spec_mod_monomial(poly, M))
    }
}

impl<const M: u32> From<u8> for GF2TM<M> {
    fn from(poly: u8) -> (r: Self)
        ensures
            r.spec_value() == spec_mod_monomial(poly as u32, M),
            r.spec_irr() == field_modulus(M),
            field_exists(M) ==> r.wf(),
            1 <= M <= 8 ==> r.wf(),
    {
        proof {
            if 1 <= M <= 8 {
                lemma_small_fields_exist(M);
            }
        }
        GF2TM::new(PolyGF2::new(poly as u32))
    }
}

impl<const M: u32> vstd::std_specs::convert::FromSpecImpl<u8> for GF2TM<M> {
    open spec fn obeys_from_spec() -> bool {
        true
    }

    open spec fn from_spec(poly: u8) -> Self {
        Self::spec_elem(spec_mod_monomial(poly as u32, M))
    }
}

impl<const M: u32> num_traits::Zero for GF2TM<M> {
    fn zero() -> (r: Self)
        ensures
            r == Self::spec_elem(0),
            r.spec_value() == 0,
            r.spec_irr() == field_modulus(M),
            field_exists(M) ==> r.wf(),
            1 <= M <= 8 ==> r.wf(),
    {
        proof {
            if 1 <= M <= 8 {
                lemma_small_fields_exist(M);
            }
        }
        proof {
            lemma_degree_bits(0);
        }
        GF2TM { value: PolyGF2::default(), irr: PolyGF2::irreducible(M) }
    }

    fn is_zero(&self) -> (r: bool)
        ensures
            r == (self.spec_value() == 0),
    {
        self.value.is_zero()
    }
}

impl<const M: u32> num_traits::One for GF2TM<M> {
    fn one() -> (r: Self)
        ensures
            r == Self::spec_elem(1),
            r.spec_value() == 1,
            r.spec_irr() == field_modulus(M),
            field_exists(M) ==> r.wf(),
            1 <= M <= 8 ==> r.wf(),
    {
        proof {
            if 1 <= M <= 8 {
                lemma_small_fields_exist(M);
            }
            if field_exists(M) {
                lemma_field_modulus(M);
            }
        }
        GF2TM { value: PolyGF2::new(1), irr: PolyGF2::irreducible(M) }
    }

    fn is_one(&self) -> (r: bool)
        ensures
            r == (self.spec_value() == 1),
    {
        self.value.poly == 1
    }
}

impl<const M: u32> std::ops::Add for GF2TM<M> {
    type Output = GF2TM<M>;

    /// The sum in the field: the XOR of the polynomials, reduced.
    fn add(self, rhs: Self) -> (r: GF2TM<M>)
        ensures
            r.wf(),
            r.spec_value() == spec_fadd(self.spec_value(), rhs.spec_value(), field_modulus(M)),
    {
        self.reduced(self.value + rhs.value)
    }
}

impl<const M: u32> vstd::std_specs::ops::AddSpecImpl for GF2TM<M> {
    open spec fn obeys_add_spec() -> bool {
        true
    }

    open spec fn add_req(self, rhs: Self) -> bool {
        self.wf() && rhs.wf()
    }

    open spec fn add_spec(self, rhs: Self) -> GF2TM<M> {
        GF2TM::<M>::spec_elem(spec_fadd(self.spec_value(), rhs.spec_value(), field_modulus(M)))
    }
}

impl<const M: u32> std::ops::AddAssign for GF2TM<M> {
    fn add_assign(&mut self, rhs: Self)
        requires
            old(self).wf() && rhs.wf(),
        ensures
            final(self).wf(),
            *final(self) == GF2TM::<M>::spec_elem(spec_fadd(old(self).spec_value(), rhs.spec_value(), field_modulus(M))),
    {
        *self = *self + rhs;
    }
}

impl<const M: u32> std::ops::Sub for GF2TM<M> {
    type Output = GF2TM<M>;

    /// The difference in the field, which is the sum.
    fn sub(self, rhs: Self) -> (r: GF2TM<M>)
        ensures
            r.wf(),
            r.spec_value() == spec_fadd(self.spec_value(), rhs.spec_value(), field_modulus(M)),
    {
        self.reduced(self.value - rhs.value)
    }
}

impl<const M: u32> vstd::std_specs::ops::SubSpecImpl for GF2TM<M> {
    open spec fn obeys_sub_spec() -> bool {
        true
    }

    open spec fn sub_req(self, rhs: Self) -> bool {
        self.wf() && rhs.wf()
    }

    open spec fn sub_spec(self, rhs: Self) -> GF2TM<M> {
        GF2TM::<M>::spec_elem(spec_fadd(self.spec_value(), rhs.spec_value(), field_modulus(M)))
    }
}

impl<const M: u32> std::ops::SubAssign for GF2TM<M> {
    fn sub_assign(&mut self, rhs: Self)
        requires
            old(self).wf() && rhs.wf(),
        ensures
            final(self).wf(),
            *final(self) == GF2TM::<M>::spec_elem(spec_fadd(old(self).spec_value(), rhs.spec_value(), field_modulus(M))),
    {
        *self = *self - rhs;
    }
}

impl<const M: u32> std::ops::Mul for GF2TM<M> {
    type Output = GF2TM<M>;

    /// The product in the field: the product of the polynomials, reduced.
    fn mul(self, rhs: Self) -> (r: GF2TM<M>)
        ensures
            r.wf(),
            r.spec_value() == spec_fmul(self.spec_value(), rhs.spec_value(), field_modulus(M)),
    {
        self.reduced(self.value * rhs.value)
    }
}

impl<const M: u32> vstd::std_specs::ops::MulSpecImpl for GF2TM<M> {
    open spec fn obeys_mul_spec() -> bool {
        true
    }

    open spec fn mul_req(self, rhs: Self) -> bool {
        self.wf() && rhs.wf()
    }

    open spec fn mul_spec(self, rhs: Self) -> GF2TM<M> {
        GF2TM::<M>::spec_elem(spec_fmul(self.spec_value(), rhs.spec_value(), field_modulus(M)))
    }
}

impl<const M: u32> std::ops::MulAssign for GF2TM<M> {
    fn mul_assign(&mut self, rhs: Self)
        requires
            old(self).wf() && rhs.wf(),
        ensures
            final(self).wf(),
            *final(self) == GF2TM::<M>::spec_elem(spec_fmul(old(self).spec_value(), rhs.spec_value(), field_modulus(M))),
    {
        *self = *self * rhs;
    }
}

impl<const M: u32> std::ops::Div for GF2TM<M> {
    type Output = GF2TM<M>;

    /// The quotient in the field: the product with the inverse of `rhs`. The inverse
    /// of zero is zero, and so is every quotient by zero.
    fn div(self, rhs: Self) -> (r: GF2TM<M>)
        ensures
            r.wf(),
            r.spec_value() == spec_fmul(
                self.spec_value(),
                spec_finv(rhs.spec_value(), M, field_modulus(M)),
                field_modulus(M),
            ),
    {
        self.reduced(self.value * rhs.inv().value)
    }
}

impl<const M: u32> vstd::std_specs::ops::DivSpecImpl for GF2TM<M> {
    open spec fn obeys_div_spec() -> bool {
        true
    }

    open spec fn div_req(self, rhs: Self) -> bool {
        self.wf() && rhs.wf()
    }

    open spec fn div_spec(self, rhs: Self) -> GF2TM<M> {
        GF2TM::<M>::spec_elem(spec_fmul(
            self.spec_value(),
            spec_finv(rhs.spec_value(), M, field_modulus(M)),
            field_modulus(M),
        ))
    }
}

impl<const M: u32> std::ops::DivAssign for GF2TM<M> {
    fn div_assign(&mut self, rhs: Self)
        requires
            old(self).wf() && rhs.wf(),
        ensures
            final(self).wf(),
            *final(self) == GF2TM::<M>::spec_elem(spec_fmul(
            old(self).spec_value(),
            spec_finv(rhs.spec_value(), M, field_modulus(M)),
            field_modulus(M),
        )),
    {
        *self = *self / rhs;
    }
}

impl<const M: u32> std::ops::Rem for GF2TM<M> {
    type Output = GF2TM<M>;

    /// The remainder of the polynomials, reduced.
    fn rem(self, rhs: Self) -> (r: GF2TM<M>)
        ensures
            r.wf(),
            r.spec_value() == spec_rem(spec_rem(self.spec_value(), rhs.spec_value()), field_modulus(M)),
    {
        self.reduced(self.value % rhs.value)
    }
}

impl<const M: u32> vstd::std_specs::ops::RemSpecImpl for GF2TM<M> {
    open spec fn obeys_rem_spec() -> bool {
        true
    }

    open spec fn rem_req(self, rhs: Self) -> bool {
        self.wf() && rhs.wf() && rhs.spec_value() != 0
    }

    open spec fn rem_spec(self, rhs: Self) -> GF2TM<M> {
        GF2TM::<M>::spec_elem(spec_rem(spec_rem(self.spec_value(), rhs.spec_value()), field_modulus(M)))
    }
}

impl<const M: u32> std::ops::RemAssign for GF2TM<M> {
    fn rem_assign(&mut self, rhs: Self)
        requires
            old(self).wf() && rhs.wf() && rhs.spec_value() != 0,
        ensures
            final(self).wf(),
            *final(self) == GF2TM::<M>::spec_elem(spec_rem(spec_rem(old(self).spec_value(), rhs.spec_value()), field_modulus(M))),
    {
        *self = *self % rhs;
    }
}

} // verus!
