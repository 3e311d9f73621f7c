//! The concatenation of an outer Reed-Solomon code over GF(2^M) with an inner BCH
//! code over GF(2^N): each symbol of the outer code word is a message of the inner
//! code.

use vstd::prelude::*;
use crate::bch::{spec_decode, spec_encode, BCH};
use crate::error::CodeError;
use crate::gf2m::spec_mod_monomial;
use crate::gf2tm::{field_exists, GF2TM};
use crate::poly_field::PolyField;
use crate::poly_field_spec::{all_wf, spec_trim, values};
use crate::poly_gf2::{spec_degree, PolyGF2};
use crate::reed_solomon::{spec_rs_decode_result, spec_rs_encode, ReedSolomon};

verus! {

/// The inner message for the symbol `symbol`: the symbol with bit `n` set on top of
/// it, so that every inner message has the same length.
pub open spec fn spec_inner_message(symbol: u32, n: u32) -> u32 {
    symbol ^ (1u32 << n)
}

/// The inner code with messages of `k` bits can carry the message `msg`.
pub open spec fn spec_fits(msg: u32, k: nat) -> bool {
    msg != 0 && spec_degree(msg) + 1 <= k
}

/// The inner code word is `len` bits long.
pub open spec fn spec_has_length(word: u32, len: nat) -> bool {
    spec_degree(word) + 1 == len
}

/// A concatenated code: an outer Reed-Solomon code over GF(2^M) and an inner BCH
/// code over GF(2^N).
pub struct ConcatenatedCode<const M: u32, const N: u32> {
    pub outer_code: ReedSolomon<M>,
    pub inner_code: BCH<N>,
}

impl<const M: u32, const N: u32> ConcatenatedCode<M, N> {
    /// The symbols of the outer code word of `message`.
    pub open spec fn spec_outer_word(&self, message: Seq<u32>) -> Seq<u32> {
        spec_trim(spec_rs_encode(message, message.len() + self.outer_code.distance as nat, M))
    }

    /// The symbols that the inner decoder reads from the words `words`.
    pub open spec fn spec_inner_decoded(&self, words: Seq<PolyGF2>) -> Seq<u32> {
        Seq::new(
            words.len(),
            |i: int|
                spec_mod_monomial(
                    spec_decode(
                        words[i].poly,
                        self.inner_code.spec_code_length(),
                        self.inner_code.spec_alpha(),
                        self.inner_code.spec_distance(),
                        self.inner_code.spec_generator_poly(),
                        N,
                    ),
                    M,
                ),
        )
    }

    /// The inner code words of the symbols of the outer code word of `message`. Fails
    /// where a symbol, with bit `N` set on top of it, is too long for the inner code.
    pub fn encode(&self, message: PolyField<M>) -> (r: Result<Vec<PolyGF2>, CodeError>)
        requires
            field_exists(M),
            self.inner_code.wf(),
            message.wf(),
            message@.len() + self.outer_code.distance <= u32::MAX,
        ensures
            r is Ok <==> forall|i: int|
                0 <= i < self.spec_outer_word(message@).len() ==> spec_fits(
                    spec_inner_message(#[trigger] self.spec_outer_word(message@)[i], N),
                    self.inner_code.spec_message_length(),
                ),
            r is Err ==> r == Err::<Vec<PolyGF2>, CodeError>(CodeError::MessageTooLong),
            r is Ok ==> r->Ok_0@.len() == self.spec_outer_word(message@).len() && forall|i: int|
                0 <= i < r->Ok_0@.len() ==> (#[trigger] r->Ok_0@[i]).poly == spec_encode(
                    spec_inner_message(self.spec_outer_word(message@)[i], N),
                    self.inner_code.spec_code_length(),
                    self.inner_code.spec_generator_poly(),
                ),
    {
        proof {
            self.inner_code.lemma_wf();
        }
        let mut encoded: Vec<PolyGF2> = Vec::new();
        let outer_encoded = self.outer_code.encode(message);
        let ghost word = self.spec_outer_word(message@);
        let mut i: usize = 0;
        while i < outer_encoded.coeffs().len()
            invariant
                i <= outer_encoded.spec_coeffs().len(),
                N <= 5,
                self.inner_code.wf(),
                outer_encoded.wf(),
                outer_encoded@ == word,
                word == self.spec_outer_word(message@),
                word.len() == outer_encoded.spec_coeffs().len(),
                encoded.len() == i,
                forall|c: int|
                    0 <= c < i ==> spec_fits(
                        spec_inner_message(#[trigger] word[c], N),
                        self.inner_code.spec_message_length(),
                    ),
                forall|c: int|
                    0 <= c < i ==> (#[trigger] encoded[c]).poly == spec_encode(
                        spec_inner_message(word[c], N),
                        self.inner_code.spec_code_length(),
                        self.inner_code.spec_generator_poly(),
                    ),
            decreases outer_encoded.spec_coeffs().len() - i,
        {
            let letter = outer_encoded.coeffs()[i];
            assert(letter.spec_value() == word[i as int]);
            match self.inner_code.encode(letter.value() + PolyGF2 { poly: 1u32 << N }) {
                Ok(codeword) => {
                    encoded.push(codeword);
                },
                Err(_) => {
                    assert(!spec_fits(
                        spec_inner_message(self.spec_outer_word(message@)[i as int], N),
                        self.inner_code.spec_message_length(),
                    ));
                    return Err(CodeError::MessageTooLong);
                },
            }
            i += 1;
        }
        Ok(encoded)
    }

    /// The message in the received words: the inner decoder reads a symbol from each
    /// word, and the outer decoder reads the message from the symbols. Fails where a
    /// word has another length than the inner code's, and where the outer decoder fails.
    pub fn decode(&self, encoded_message: Vec<PolyGF2>) -> (r: Result<PolyField<M>, CodeError>)
        requires
            field_exists(M),
            self.inner_code.wf(),
            self.outer_code.distance >= 1,
            encoded_message.len() < u32::MAX,
        ensures
            (exists|i: int|
                0 <= i < encoded_message.len() && !spec_has_length(
                    (#[trigger] encoded_message[i]).poly,
                    self.inner_code.spec_code_length(),
                )) ==> r == Err::<PolyField<M>, CodeError>(CodeError::WrongLength),
            (forall|i: int|
                0 <= i < encoded_message.len() ==> spec_has_length(
                    (#[trigger] encoded_message[i]).poly,
                    self.inner_code.spec_code_length(),
                )) ==> (match spec_rs_decode_result(
                spec_trim(self.spec_inner_decoded(encoded_message@)),
                ((self.outer_code.distance - 1) / 2) as nat,
                M,
            ) {
                Ok(message) => r is Ok && r->Ok_0.wf() && r->Ok_0@ == message,
                Err(e) => r == Err::<PolyField<M>, CodeError>(e),
            }),
    {
        let mut inner_decoded: Vec<GF2TM<M>> = Vec::new();
        let mut i: usize = 0;
        while i < encoded_message.len()
            invariant
                i <= encoded_message.len(),
                field_exists(M),
                self.inner_code.wf(),
                inner_decoded.len() == i,
                all_wf(inner_decoded@),
                forall|c: int|
                    0 <= c < i ==> spec_has_length(
                        (#[trigger] encoded_message[c]).poly,
                        self.inner_code.spec_code_length(),
                    ),
                forall|c: int|
                    0 <= c < i ==> (#[trigger] inner_decoded[c]).spec_value()
                        == self.spec_inner_decoded(encoded_message@)[c],
            decreases encoded_message.len() - i,
        {
            match self.inner_code.decode(encoded_message[i]) {
                Ok(symbol) => {
                    inner_decoded.push(GF2TM::<M>::new(symbol));
                },
                Err(_) => {
                    return Err(CodeError::WrongLength);
                },
            }
            i += 1;
        }
        proof {
            assert(values(inner_decoded@) =~= self.spec_inner_decoded(encoded_message@));
            crate::poly_field::lemma_trim(values(inner_decoded@));
        }
        let poly = PolyField::new(inner_decoded);
        self.outer_code.decode(poly)
    }
}

} // verus!
