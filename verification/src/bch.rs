//! Binary BCH codes of length `2^M - 1`: systematic encoding, and decoding by
//! syndromes, Peterson's linear systems and a Chien search.

use vstd::prelude::*;
use crate::bits::{lemma_leading_one, lemma_shift, lemma_xor};
use crate::error::CodeError;
use crate::evaluation::{lemma_eval_mul, lemma_horner_is_eval, spec_bits, spec_eval_at};
use crate::field_laws::{lemma_fmul_reduced, lemma_fpow_reduced};
use crate::gcd_laws::{divides, lemma_divides};
use crate::gf2tm::{
    field_exists, field_modulus, lemma_field_modulus, spec_fpow, spec_primitive_element, GF2TM,
};
use crate::matrix::{spec_augment, spec_find_pivot, spec_solve, Matrix};
use crate::minimal_poly::spec_minimal_poly;
use crate::poly_field::PolyField;
use crate::poly_field_spec::{all_wf, spec_horner, spec_trim, values};
use crate::poly_gf2::{
    lemma_degree_bits, lemma_degree_shift, spec_degree, spec_div, spec_lcm, spec_mul, spec_rem,
    PolyGF2,
};
use crate::poly_gf2_lemmas::{
    lemma_divmod_law, lemma_mul_commutative, lemma_mul_monomial, lemma_rem_linear, lemma_rem_small,
};
use num_traits::Zero;
use std::ops::Neg;

verus! {

/// The least common multiple of the minimal polynomials of `alpha^1 .. alpha^i` in
/// GF(2^m).
pub open spec fn spec_generator(alpha: u32, m: u32, i: nat) -> u32
    decreases i,
{
    if i <= 1 {
        spec_minimal_poly(spec_fpow(alpha, 1, field_modulus(m)), m)
    } else {
        spec_lcm(
            spec_generator(alpha, m, (i - 1) as nat),
            spec_minimal_poly(spec_fpow(alpha, i, field_modulus(m)), m),
        )
    }
}

/// The code word of the message `msg` in the code of length `n` with generator `g`:
/// the message moved to the top of the word, over the remainder that makes the word
/// a multiple of `g`.
pub open spec fn spec_encode(msg: u32, n: nat, g: u32) -> u32 {
    let padded = spec_mul(msg, 1u32 << ((n - spec_degree(msg) - 1) as u32));
    padded ^ spec_rem(padded, g)
}

/// The syndromes `rcv(alpha^1) .. rcv(alpha^(d-1))` of the received word.
pub open spec fn spec_syndromes(rcv: u32, n: nat, alpha: u32, d: nat, p: u32) -> Seq<u32> {
    Seq::new(
        (d - 1) as nat,
        |i: int| spec_horner(spec_trim(spec_bits(rcv, n)), spec_fpow(alpha, (i + 1) as nat, p), p),
    )
}

/// The matrix of Peterson's system for `v` errors: entry `(i, j)` is `s[i + j]`.
pub open spec fn spec_syndrome_matrix(s: Seq<u32>, v: nat) -> Seq<Seq<u32>> {
    Seq::new(v, |i: int| Seq::new(v, |j: int| s[i + j]))
}

/// The right-hand side of Peterson's system for `v` errors: entry `i` is `-s[v + i]`,
/// which is `s[v + i]`.
pub open spec fn spec_syndrome_rhs(s: Seq<u32>, v: nat) -> Seq<u32> {
    Seq::new(v, |i: int| s[v + i])
}

/// The error locator: the solution of the largest of Peterson's systems for `v`
/// errors down to one that is not singular, with the coefficient one on top; `None`
/// where all are singular.
pub open spec fn spec_error_locator(s: Seq<u32>, v: nat, m: u32, p: u32) -> Option<Seq<u32>>
    decreases v,
{
    if v == 0 {
        None
    } else {
        match spec_solve(spec_syndrome_matrix(s, v), spec_syndrome_rhs(s, v), m, p) {
            Some(x) => Some(x.push(1u32)),
            None => spec_error_locator(s, (v - 1) as nat, m, p),
        }
    }
}

/// The positions `i < n` at which the locator vanishes at `alpha^i`, in rising order.
pub open spec fn spec_error_positions(locator: Seq<u32>, alpha: u32, p: u32, n: nat) -> Seq<usize>
    decreases n,
{
    if n == 0 {
        Seq::empty()
    } else {
        let before = spec_error_positions(locator, alpha, p, (n - 1) as nat);
        if spec_horner(locator, spec_fpow(alpha, (n - 1) as nat, p), p) == 0 {
            before.push((n - 1) as usize)
        } else {
            before
        }
    }
}

/// The word with a one at each of the first `k` positions of `positions`.
pub open spec fn spec_error_pattern(positions: Seq<usize>, k: nat) -> u32
    decreases k,
{
    if k == 0 {
        0
    } else {
        spec_error_pattern(positions, (k - 1) as nat) ^ (1u32 << (positions[k - 1] as u32))
    }
}

/// The error pattern that the decoder finds for the syndromes `s`.
pub open spec fn spec_errors(s: Seq<u32>, alpha: u32, n: nat, m: u32, p: u32) -> u32 {
    match spec_error_locator(s, s.len() / 2, m, p) {
        Some(locator) => {
            let positions = spec_error_positions(locator, alpha, p, n);
            spec_error_pattern(positions, positions.len())
        },
        None => 0,
    }
}

/// The message that the decoder reads from `rcv`: the word without the errors that
/// it finds, without the `deg(g)` parity bits.
pub open spec fn spec_decode(rcv: u32, n: nat, alpha: u32, d: nat, g: u32, m: u32) -> u32 {
    let s = spec_syndromes(rcv, n, alpha, d, field_modulus(m));
    (rcv ^ spec_errors(s, alpha, n, m, field_modulus(m))) >> (spec_degree(g) as u32)
}

/// A code word has the length of the code, holds the message in its top bits, and is
/// a multiple of the generator polynomial.
pub proof fn lemma_encode(msg: u32, n: nat, g: u32)
    requires
        msg != 0,
        g != 0,
        spec_degree(msg) + spec_degree(g) < n <= 31,
    ensures
        spec_degree(spec_encode(msg, n, g)) == n - 1,
        spec_encode(msg, n, g) >> ((n - spec_degree(msg) - 1) as u32) == msg,
        spec_rem(spec_encode(msg, n, g), g) == 0,
{
    lemma_degree_bits(msg);
    lemma_degree_bits(g);
    let dm = spec_degree(msg) as u32;
    let shift = (n - spec_degree(msg) - 1) as u32;
    let padded = spec_mul(msg, 1u32 << shift);
    let rest = spec_rem(padded, g);
    lemma_mul_monomial(msg, shift);
    lemma_mul_commutative(msg, 1u32 << shift);
    lemma_divmod_law(padded, g);
    lemma_leading_one(msg, rest, dm, shift);
    lemma_degree_shift(padded, (n - 1) as u32);
    // the remainder lies below the message
    lemma_degree_bits(rest);
    lemma_degree_shift(rest, shift);
    lemma_degree_shift(rest, (n - 1) as u32);
    lemma_leading_one(rest, padded, (n - 1) as u32, (n - 1) as u32);
    lemma_xor(padded, rest, 0);
    lemma_degree_shift(padded ^ rest, (n - 1) as u32);
    // and the word is a multiple of the generator
    lemma_rem_linear(padded, rest, g);
    lemma_rem_small(rest, g);
    lemma_xor(rest, 0, 0);
}

/// The elimination finds no pivot in a first column of zeros.
proof fn lemma_no_pivot(a: Seq<Seq<u32>>, from: int)
    requires
        0 <= from <= a.len(),
        forall|i: int| 0 <= i < a.len() ==> (#[trigger] a[i])[0] == 0,
    ensures
        spec_find_pivot(a, 0, from) == a.len(),
    decreases a.len() - from,
{
    if from < a.len() {
        lemma_no_pivot(a, from + 1);
    }
}

/// Where all syndromes are zero, every one of Peterson's systems is singular: the
/// decoder finds no error locator.
pub proof fn lemma_no_locator(s: Seq<u32>, v: nat, m: u32, p: u32)
    requires
        2 * v <= s.len(),
        forall|i: int| 0 <= i < s.len() ==> s[i] == 0,
    ensures
        spec_error_locator(s, v, m, p) is None,
    decreases v,
{
    if v > 0 {
        let a = spec_syndrome_matrix(s, v);
        let aug = spec_augment(a, spec_syndrome_rhs(s, v));
        assert forall|i: int| 0 <= i < aug.len() implies (#[trigger] aug[i])[0] == 0 by {
            assert(a[i][0] == s[i + 0]);
        }
        lemma_no_pivot(aug, 0);
        lemma_no_locator(s, (v - 1) as nat, m, p);
    }
}

/// The largest `m` whose code words, of `2^m - 1` bits, fit in a `u32`.
pub const MAX_FIELD_BITS: u32 = 5;

/// The code that corrects `t` errors over GF(2^m) can be built: the field has at
/// most 32 elements and a primitive element, `t` is at least one, and the generator
/// polynomial is no longer than a code word.
pub open spec fn spec_code_exists(m: u32, t: nat) -> bool {
    &&& 1 <= t <= 0x7fff_ffff
    &&& m <= MAX_FIELD_BITS
    &&& spec_primitive_element(m) is Some
    &&& spec_generator(spec_primitive_element(m)->Some_0, m, 2 * t) != 0
    &&& spec_degree(spec_generator(spec_primitive_element(m)->Some_0, m, 2 * t)) <= (1u32 << m) - 1
}

/// A binary BCH code over GF(2^M).
#[derive(Debug, Clone, Copy)]
pub struct BCH<const M: u32> {
    primitive_element: GF2TM<M>,
    distance: usize,
    code_length: usize,
    message_length: usize,
    generator_poly: PolyGF2,
}

impl<const M: u32> BCH<M> {
    /// The primitive element whose powers are the roots of the generator polynomial.
    pub closed spec fn spec_alpha(&self) -> u32 {
        self.primitive_element.spec_value()
    }

    /// The design distance `2 t + 1`.
    pub closed spec fn spec_distance(&self) -> nat {
        self.distance as nat
    }

    /// The number of bits of a code word, `2^M - 1`.
    pub closed spec fn spec_code_length(&self) -> nat {
        self.code_length as nat
    }

    /// The number of bits of a message.
    pub closed spec fn spec_message_length(&self) -> nat {
        self.message_length as nat
    }

    /// The generator polynomial.
    pub closed spec fn spec_generator_poly(&self) -> u32 {
        self.generator_poly.poly
    }

    /// The code is the one that `from_max_errors` builds for its distance.
    pub closed spec fn wf(&self) -> bool {
        &&& self.primitive_element.wf()
        &&& self.distance % 2 == 1
        &&& spec_code_exists(M, (self.distance / 2) as nat)
        &&& Some(self.spec_alpha()) == spec_primitive_element(M)
        &&& self.code_length == (1u32 << M) - 1
        &&& self.generator_poly.poly == spec_generator(
            self.spec_alpha(),
            M,
            (self.distance - 1) as nat,
        )
        &&& self.message_length == self.code_length - spec_degree(self.generator_poly.poly)
    }

    /// What holds of a code that is well formed.
    pub proof fn lemma_wf(&self)
        requires
            self.wf(),
        ensures
            field_exists(M),
            M <= MAX_FIELD_BITS,
            self.spec_distance() >= 3,
            self.spec_distance() % 2 == 1,
            spec_code_exists(M, self.spec_distance() / 2),
            Some(self.spec_alpha()) == spec_primitive_element(M),
            1 <= self.spec_code_length() <= 31,
            self.spec_code_length() == (1u32 << M) - 1,
            self.spec_generator_poly() == spec_generator(
                self.spec_alpha(),
                M,
                (self.spec_distance() - 1) as nat,
            ),
            self.spec_generator_poly() != 0,
            0 <= spec_degree(self.spec_generator_poly()) <= self.spec_code_length(),
            self.spec_message_length() == self.spec_code_length() - spec_degree(
                self.spec_generator_poly(),
            ),
    {
        lemma_field_modulus(M);
        lemma_shift(0, M);
        lemma_degree_bits(self.generator_poly.poly);
    }

    /// The code with design distance `distance`, which corrects `(distance - 1) / 2`
    /// errors; `None` where there is no such code.
    pub fn from_distance(distance: usize) -> (r: Option<Self>)
        ensures
            r is Some <==> distance >= 1 && spec_code_exists(M, ((distance - 1) / 2) as nat),
            r is Some ==> r->Some_0.wf() && r->Some_0.spec_distance() == 2 * ((distance - 1) / 2)
                + 1,
    {
        if distance == 0 {
            return None;
        }
        Self::from_max_errors((distance - 1) / 2)
    }

    /// The code that corrects `max_errors` errors; `None` where there is no such code.
    pub fn from_max_errors(max_errors: usize) -> (r: Option<Self>)
        ensures
            r is Some <==> spec_code_exists(M, max_errors as nat),
            r is Some ==> r->Some_0.wf() && r->Some_0.spec_distance() == 2 * max_errors + 1,
    {
        if max_errors == 0 || max_errors > 0x7fff_ffff || M > MAX_FIELD_BITS {
            return None;
        }
        let distance: usize = 2 * max_errors + 1;
        let primitive_element = match GF2TM::<M>::primitive_element() {
            Some(a) => a,
            None => {
                return None;
            },
        };
        proof {
            lemma_shift(0, M);
        }
        let code_length: usize = ((1u32 << M) - 1) as usize;
        let mut generator_poly = primitive_element.pow(1).minimal_poly();
        let mut i: usize = 2;
        while i < distance
            invariant
                2 <= i <= distance,
                distance == 2 * max_errors + 1,
                max_errors <= 0x7fff_ffff,
                primitive_element.wf(),
                generator_poly.poly == spec_generator(
                    primitive_element.spec_value(),
                    M,
                    (i - 1) as nat,
                ),
            decreases distance - i,
        {
            let e = primitive_element.pow(i as u32).minimal_poly();
            generator_poly = generator_poly.lcm(e);
            i += 1;
        }
        if generator_poly.is_zero() || generator_poly.degree() > code_length {
            return None;
        }
        let message_length = code_length - generator_poly.degree();
        Some(BCH { primitive_element, distance, code_length, message_length, generator_poly })
    }

    /// The design distance.
    pub fn distance(&self) -> (r: usize)
        ensures
            r == self.spec_distance(),
    {
        self.distance
    }

    /// The number of bits of a code word.
    pub fn code_length(&self) -> (r: usize)
        ensures
            r == self.spec_code_length(),
    {
        self.code_length
    }

    /// The number of bits of a message.
    pub fn message_length(&self) -> (r: usize)
        ensures
            r == self.spec_message_length(),
    {
        self.message_length
    }

    /// The generator polynomial.
    pub fn generator_poly(&self) -> (r: PolyGF2)
        ensures
            r.poly == self.spec_generator_poly(),
    {
        self.generator_poly
    }

    /// The primitive element of the code.
    pub fn primitive_element(&self) -> (r: GF2TM<M>)
        ensures
            r.spec_value() == self.spec_alpha(),
    {
        self.primitive_element
    }
}

impl<const M: u32> BCH<M> {
    /// The syndromes of the word `rcv` in this code.
    pub open spec fn spec_syndromes_of(&self, rcv: u32) -> Seq<u32> {
        spec_syndromes(
            rcv,
            self.spec_code_length(),
            self.spec_alpha(),
            self.spec_distance(),
            field_modulus(M),
        )
    }

    /// What `decode` makes of the word `rcv` of the right length.
    pub open spec fn spec_decoded(&self, rcv: u32) -> u32 {
        spec_decode(
            rcv,
            self.spec_code_length(),
            self.spec_alpha(),
            self.spec_distance(),
            self.spec_generator_poly(),
            M,
        )
    }

    /// What `encode` makes of the message `msg` that it accepts.
    pub open spec fn spec_encoded(&self, msg: u32) -> u32 {
        spec_encode(msg, self.spec_code_length(), self.spec_generator_poly())
    }

    /// A word whose syndromes are all zero is decoded to its top bits: the decoder
    /// changes nothing and drops the parity bits.
    pub proof fn law_decode_without_syndromes(&self, rcv: u32)
        requires
            self.wf(),
            forall|i: int|
                0 <= i < self.spec_syndromes_of(rcv).len() ==> self.spec_syndromes_of(rcv)[i] == 0,
        ensures
            self.spec_decoded(rcv) == rcv >> (spec_degree(self.spec_generator_poly()) as u32),
    {
        self.lemma_wf();
        let s = self.spec_syndromes_of(rcv);
        lemma_no_locator(s, s.len() / 2, M, field_modulus(M));
        lemma_xor(rcv, 0, 0);
    }

    /// The generator polynomial vanishes at the powers `alpha^1 .. alpha^(d-1)` of the
    /// primitive element: its syndromes are zero.
    pub open spec fn spec_is_sound(&self) -> bool {
        &&& spec_degree(self.spec_generator_poly()) < self.spec_code_length()
        &&& forall|i: int|
            0 <= i < self.spec_syndromes_of(self.spec_generator_poly()).len()
                ==> #[trigger] self.spec_syndromes_of(self.spec_generator_poly())[i] == 0
    }

    /// A multiple of a generator polynomial that vanishes at the powers of the
    /// primitive element has no syndrome other than zero.
    pub proof fn law_code_words_have_no_syndromes(&self, word: u32)
        requires
            self.wf(),
            self.spec_is_sound(),
            spec_degree(word) < self.spec_code_length(),
            spec_rem(word, self.spec_generator_poly()) == 0,
        ensures
            forall|i: int|
                0 <= i < self.spec_syndromes_of(word).len() ==> #[trigger] self.spec_syndromes_of(
                    word,
                )[i] == 0,
    {
        self.lemma_wf();
        lemma_field_modulus(M);
        let p = field_modulus(M);
        let g = self.spec_generator_poly();
        let n = self.spec_code_length();
        lemma_degree_bits(word);
        lemma_degree_bits(g);
        lemma_degree_shift(word, n as u32);
        lemma_degree_shift(g, n as u32);
        lemma_divides(g, word);
        let q = spec_div(word, g);
        assert forall|i: int| 0 <= i < self.spec_syndromes_of(word).len() implies #[trigger] self.spec_syndromes_of(
            word,
        )[i] == 0 by {
            let beta = spec_fpow(self.spec_alpha(), (i + 1) as nat, p);
            lemma_fpow_reduced(self.spec_alpha(), (i + 1) as nat, p);
            lemma_horner_is_eval(word, n, beta, M);
            lemma_horner_is_eval(g, n, beta, M);
            assert(self.spec_syndromes_of(g)[i] == 0);
            lemma_eval_mul(q, g, beta, M);
            lemma_fmul_reduced(spec_eval_at(q, beta, p), 0, M);
        }
    }

    /// Decoding undoes encoding: the code word of a message of full length, in a code
    /// whose generator polynomial vanishes at the powers of the primitive element, is
    /// decoded to the message.
    pub proof fn law_round_trip(&self, msg: u32)
        requires
            self.wf(),
            self.spec_is_sound(),
            msg != 0,
            spec_degree(msg) + 1 == self.spec_message_length(),
        ensures
            spec_degree(self.spec_encoded(msg)) + 1 == self.spec_code_length(),
            self.spec_decoded(self.spec_encoded(msg)) == msg,
    {
        self.lemma_wf();
        lemma_encode(msg, self.spec_code_length(), self.spec_generator_poly());
        self.law_code_words_have_no_syndromes(self.spec_encoded(msg));
        self.law_decode_without_syndromes(self.spec_encoded(msg));
    }

    /// Whether the generator polynomial vanishes at the powers `alpha^1 .. alpha^(d-1)`
    /// of the primitive element, as the generator of a BCH code does.
    pub fn is_sound(&self) -> (r: bool)
        requires
            self.wf(),
        ensures
            r == self.spec_is_sound(),
    {
        proof {
            self.lemma_wf();
            lemma_degree_bits(self.spec_generator_poly());
        }
        if self.generator_poly.degree() >= self.code_length {
            return false;
        }
        let syndromes = self.syndromes(self.generator_poly);
        let mut i: usize = 0;
        while i < syndromes.len()
            invariant
                i <= syndromes.len(),
                values(syndromes@) == self.spec_syndromes_of(self.spec_generator_poly()),
                forall|j: int| 0 <= j < i ==> #[trigger] values(syndromes@)[j] == 0,
            decreases syndromes.len() - i,
        {
            if !syndromes[i].is_zero() {
                assert(values(syndromes@)[i as int] != 0);
                return false;
            }
            i += 1;
        }
        true
    }

    /// The code word of `message`: the message in its top bits, parity bits below.
    /// A message is as long as the place of its leading one says, and must not be
    /// longer than the code allows; the zero polynomial has no length and is refused.
    pub fn encode(&self, message: PolyGF2) -> (r: Result<PolyGF2, CodeError>)
        requires
            self.wf(),
        ensures
            r is Err <==> message.poly == 0 || spec_degree(message.poly) + 1
                > self.spec_message_length(),
            r is Err ==> r == Err::<PolyGF2, CodeError>(CodeError::MessageTooLong),
            r is Ok ==> r->Ok_0.poly == spec_encode(
                message.poly,
                self.spec_code_length(),
                self.spec_generator_poly(),
            ),
            r is Ok ==> spec_degree(r->Ok_0.poly) == self.spec_code_length() - 1,
            r is Ok ==> r->Ok_0.poly >> ((self.spec_code_length() - spec_degree(message.poly)
                - 1) as u32) == message.poly,
            r is Ok ==> spec_rem(r->Ok_0.poly, self.spec_generator_poly()) == 0,
    {
        proof {
            self.lemma_wf();
            lemma_degree_bits(message.poly);
        }
        let message_length = message.degree() + 1;
        if message_length > self.message_length {
            return Err(CodeError::MessageTooLong);
        }
        proof {
            lemma_encode(message.poly, self.spec_code_length(), self.spec_generator_poly());
        }
        let padded = message * PolyGF2::new(1u32 << ((self.code_length - message_length) as u32));
        let remainder = padded % self.generator_poly;
        Ok(padded - remainder)
    }

    /// The syndromes of the received word.
    fn syndromes(&self, received: PolyGF2) -> (r: Vec<GF2TM<M>>)
        requires
            self.wf(),
        ensures
            all_wf(r@),
            values(r@) == spec_syndromes(
                received.poly,
                self.spec_code_length(),
                self.spec_alpha(),
                self.spec_distance(),
                field_modulus(M),
            ),
    {
        proof {
            self.lemma_wf();
            lemma_field_modulus(M);
        }
        let mut received_poly_gf2: u32 = received.poly;
        let mut coefficients: Vec<GF2TM<M>> = Vec::new();
        let mut i: usize = 0;
        proof {
            lemma_shift(received.poly, 0);
        }
        while i < self.code_length
            invariant
                i <= self.code_length <= 31,
                field_exists(M),
                1 <= M < 32,
                received_poly_gf2 == received.poly >> (i as u32),
                coefficients.len() == i,
                all_wf(coefficients@),
                forall|c: int|
                    0 <= c < i ==> (#[trigger] coefficients[c]).spec_value() == (received.poly >> (
                    c as u32)) & 1,
            decreases self.code_length - i,
        {
            let bit: u32 = received_poly_gf2 & 1;
            proof {
                lemma_shift(received.poly, i as u32);
                lemma_shift(0, M);
                crate::gf2tm::lemma_small_is_reduced(bit, M);
            }
            coefficients.push(GF2TM::<M>::from(bit));
            received_poly_gf2 >>= 1;
            i += 1;
        }
        assert(values(coefficients@) =~= spec_bits(received.poly, self.spec_code_length()));
        let received_poly_gf2m = PolyField::new(coefficients);
        let mut syndromes: Vec<GF2TM<M>> = Vec::new();
        let mut i: usize = 1;
        while i < self.distance
            invariant
                1 <= i <= self.distance,
                self.wf(),
                self.distance <= u32::MAX,
                received_poly_gf2m.wf(),
                received_poly_gf2m@ == spec_trim(
                    spec_bits(received.poly, self.spec_code_length()),
                ),
                syndromes.len() == i - 1,
                all_wf(syndromes@),
                forall|c: int|
                    0 <= c < i - 1 ==> (#[trigger] syndromes[c]).spec_value() == spec_horner(
                        received_poly_gf2m@,
                        spec_fpow(self.spec_alpha(), (c + 1) as nat, field_modulus(M)),
                        field_modulus(M),
                    ),
            decreases self.distance - i,
        {
            syndromes.push(received_poly_gf2m.eval(self.primitive_element.pow(i as u32)));
            i += 1;
        }
        assert(values(syndromes@) =~= spec_syndromes(
            received.poly,
            self.spec_code_length(),
            self.spec_alpha(),
            self.spec_distance(),
            field_modulus(M),
        ));
        syndromes
    }

    /// The message in the received word, after the correction of the errors that the
    /// syndromes point to. A word of another length than the code's is refused.
    pub fn decode(&self, received: PolyGF2) -> (r: Result<PolyGF2, CodeError>)
        requires
            self.wf(),
        ensures
            r is Err <==> spec_degree(received.poly) + 1 != self.spec_code_length(),
            r is Err ==> r == Err::<PolyGF2, CodeError>(CodeError::WrongLength),
            r is Ok ==> r->Ok_0.poly == spec_decode(
                received.poly,
                self.spec_code_length(),
                self.spec_alpha(),
                self.spec_distance(),
                self.spec_generator_poly(),
                M,
            ),
    {
        proof {
            self.lemma_wf();
            lemma_degree_bits(received.poly);
        }
        let received_length = received.degree() + 1;
        if received_length != self.code_length {
            return Err(CodeError::WrongLength);
        }
        let syndromes = self.syndromes(received);
        let error: u32 = match self.error_locator(syndromes) {
            Some(error_locator) => {
                let error_positions = self.chien_search(error_locator);
                let mut error_values: u32 = 0;
                let mut k: usize = 0;
                while k < error_positions.len()
                    invariant
                        k <= error_positions.len(),
                        forall|i: int|
                            0 <= i < error_positions.len() ==> (#[trigger] error_positions[i])
                                < 32,
                        error_values == spec_error_pattern(error_positions@, k as nat),
                    decreases error_positions.len() - k,
                {
                    error_values = error_values ^ (1u32 << (error_positions[k] as u32));
                    k += 1;
                }
                error_values
            },
            None => 0,
        };
        let corrected: u32 = received.poly ^ error;
        Ok(PolyGF2::new(corrected >> (self.generator_poly.degree() as u32)))
    }

    /// The error locator for the given syndromes: Peterson's system for as many
    /// errors as the code corrects, then for one less, down to one, until one is not
    /// singular.
    fn error_locator(&self, syndromes: Vec<GF2TM<M>>) -> (r: Option<PolyField<M>>)
        requires
            self.wf(),
            all_wf(syndromes@),
        ensures
            match spec_error_locator(
                values(syndromes@),
                (syndromes.len() / 2) as nat,
                M,
                field_modulus(M),
            ) {
                Some(locator) => r is Some && r->Some_0.wf() && r->Some_0@ == locator,
                None => r is None,
            },
    {
        proof {
            self.lemma_wf();
            lemma_field_modulus(M);
        }
        let t: usize = syndromes.len() / 2;
        let ghost s = values(syndromes@);
        let mut v: usize = t;
        while v >= 1
            invariant
                v <= t,
                t == syndromes.len() / 2,
                s == values(syndromes@),
                all_wf(syndromes@),
                field_exists(M),
                spec_error_locator(s, v as nat, M, field_modulus(M)) == spec_error_locator(
                    s,
                    t as nat,
                    M,
                    field_modulus(M),
                ),
            decreases v,
        {
            let mut matrix = Matrix::<M>::zero(v, v);
            let mut i: usize = 0;
            while i < v
                invariant
                    i <= v <= t,
                    t == syndromes.len() / 2,
                    s == values(syndromes@),
                    all_wf(syndromes@),
                    matrix.wf(),
                    matrix.spec_cols() == v,
                    matrix@.len() == v,
                    forall|a: int| 0 <= a < v ==> (#[trigger] matrix@[a]).len() == v,
                    forall|a: int, b: int|
                        0 <= a < v && 0 <= b < v ==> (#[trigger] matrix@[a][b]) == (if a < i {
                            s[a + b]
                        } else {
                            0u32
                        }),
                decreases v - i,
            {
                let mut j: usize = 0;
                while j < v
                    invariant
                        i < v <= t,
                        j <= v,
                        t == syndromes.len() / 2,
                        s == values(syndromes@),
                        all_wf(syndromes@),
                        matrix.wf(),
                        matrix.spec_cols() == v,
                        matrix@.len() == v,
                        forall|a: int| 0 <= a < v ==> (#[trigger] matrix@[a]).len() == v,
                        forall|a: int, b: int|
                            0 <= a < v && 0 <= b < v ==> (#[trigger] matrix@[a][b]) == (if a < i
                                || (a == i && b < j) {
                                s[a + b]
                            } else {
                                0u32
                            }),
                    decreases v - j,
                {
                    matrix.set(i, j, syndromes[i + j]);
                    j += 1;
                }
                i += 1;
            }
            assert(matrix@ =~~= spec_syndrome_matrix(s, v as nat));
            let mut right_part: Vec<GF2TM<M>> = Vec::new();
            let mut i: usize = 0;
            while i < v
                invariant
                    i <= v <= t,
                    t == syndromes.len() / 2,
                    all_wf(syndromes@),
                    s == values(syndromes@),
                    right_part.len() == i,
                    all_wf(right_part@),
                    forall|c: int|
                        0 <= c < i ==> (#[trigger] right_part[c]).spec_value() == s[v + c],
                decreases v - i,
            {
                right_part.push(syndromes[v + i].neg());
                i += 1;
            }
            assert(values(right_part@) =~= spec_syndrome_rhs(s, v as nat));
            match matrix.solve(right_part) {
                Ok(solution) => {
                    let mut solution = solution;
                    let ghost x = values(solution@);
                    solution.push(GF2TM::<M>::one());
                    proof {
                        assert(values(solution@) =~= x.push(1u32));
                        assert(spec_trim(x.push(1u32)) == x.push(1u32));
                    }
                    return Some(PolyField::new(solution));
                },
                Err(_) => {},
            }
            v -= 1;
        }
        None
    }

    /// The positions below the code length at which the locator vanishes.
    fn chien_search(&self, error_locator: PolyField<M>) -> (r: Vec<usize>)
        requires
            self.wf(),
            error_locator.wf(),
        ensures
            r@ == spec_error_positions(
                error_locator@,
                self.spec_alpha(),
                field_modulus(M),
                self.spec_code_length(),
            ),
            forall|i: int| 0 <= i < r.len() ==> (#[trigger] r[i]) < self.spec_code_length(),
    {
        proof {
            self.lemma_wf();
        }
        let mut positions: Vec<usize> = Vec::new();
        let mut i: usize = 0;
        while i < self.code_length
            invariant
                i <= self.code_length <= 31,
                self.wf(),
                error_locator.wf(),
                positions@ == spec_error_positions(
                    error_locator@,
                    self.spec_alpha(),
                    field_modulus(M),
                    i as nat,
                ),
                forall|c: int| 0 <= c < positions.len() ==> (#[trigger] positions[c]) < i,
            decreases self.code_length - i,
        {
            if error_locator.eval(self.primitive_element.pow(i as u32)).is_zero() {
                positions.push(i);
            }
            i += 1;
        }
        positions
    }
}

} // verus!
