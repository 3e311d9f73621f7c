//! Reed-Solomon codes over GF(2^M): encoding by evaluation at the points
//! `0, 1, 2, ..`, and decoding by one linear system for the error locator and the
//! message together.

use vstd::prelude::*;
use crate::error::CodeError;
use crate::gf2m::spec_mod_monomial;
use crate::gf2tm::{field_exists, field_modulus, spec_fmul, spec_fpow, GF2TM};
use crate::matrix::{
    lemma_flatten_len, lemma_from_flat_flatten, spec_determinant, spec_flatten, spec_solve, Matrix,
};
use crate::outside::{poly_it_division, poly_it_eval};
use crate::poly_field::{lemma_trim, PolyField};
use crate::poly_field_spec::{all_wf, spec_horner, spec_trim, values};
use crate::poly_gf2::PolyGF2;
use num_traits::Zero;
use std::ops::Neg;

verus! {

/// The evaluation point with number `i`: the element that the low `m` bits of `i`
/// stand for.
pub open spec fn spec_point(i: int, m: u32) -> u32 {
    spec_mod_monomial(i as u32, m)
}

/// The values of the message polynomial at the first `len` evaluation points.
pub open spec fn spec_rs_encode(message: Seq<u32>, len: nat, m: u32) -> Seq<u32> {
    Seq::new(
        len,
        |i: int| spec_horner(message, spec_point(i, m), field_modulus(m)),
    )
}

/// Row `i` of the matrix of the system for `e` errors: `y[i] * x_i^c` in the first
/// `e` columns, then `-x_i^c`, which is `x_i^c`, for `c` from zero on.
pub open spec fn spec_rs_row(y: Seq<u32>, i: int, e: nat, m: u32) -> Seq<u32> {
    let p = field_modulus(m);
    Seq::new(
        y.len(),
        |c: int|
            if c < e {
                spec_fmul(y[i], spec_fpow(spec_point(i, m), c as nat, p), p)
            } else {
                spec_fpow(spec_point(i, m), (c - e) as nat, p)
            },
    )
}

/// The matrix of the system for `e` errors in the received values `y`.
pub open spec fn spec_rs_matrix(y: Seq<u32>, e: nat, m: u32) -> Seq<Seq<u32>> {
    Seq::new(y.len(), |i: int| spec_rs_row(y, i, e, m))
}

/// The right-hand side of the system for `e` errors: `-(x_i^e * y[i])`, which is
/// `x_i^e * y[i]`.
pub open spec fn spec_rs_rhs(y: Seq<u32>, e: nat, m: u32) -> Seq<u32> {
    let p = field_modulus(m);
    Seq::new(y.len(), |i: int| spec_fmul(spec_fpow(spec_point(i, m), e, p), y[i], p))
}

/// The message that the solution `z` of the system for `e` errors stands for: the
/// quotient of the polynomial in its upper part by the error locator in its lower
/// part, which has the coefficient one on top.
pub open spec fn spec_rs_message(z: Seq<u32>, e: nat, m: u32) -> Seq<u32> {
    let locator = z.subrange(0, e as int).push(1u32);
    let product = spec_trim(z.subrange(e as int, z.len() as int));
    spec_trim(poly_it_division(m, product, locator).0)
}

/// The message that the decoder reads from the received values `y`, trying `e`
/// errors, then one less, down to none, until the determinant of the system is not
/// zero; `None` where every determinant is zero, or the system chosen has no solution.
pub open spec fn spec_rs_decode(y: Seq<u32>, e: nat, m: u32) -> Option<Seq<u32>>
    decreases e,
{
    let a = spec_rs_matrix(y, e, m);
    if spec_determinant(a, m, field_modulus(m)) == 0 {
        if e == 0 {
            None
        } else {
            spec_rs_decode(y, (e - 1) as nat, m)
        }
    } else {
        match spec_solve(a, spec_rs_rhs(y, e, m), m, field_modulus(m)) {
            Some(z) => Some(spec_rs_message(z, e, m)),
            None => None,
        }
    }
}

/// What the decoder for `t` errors makes of the received values `y`: a word with
/// fewer values than `t` is refused as too short, and a word for which no system can
/// be solved as singular.
pub open spec fn spec_rs_decode_result(y: Seq<u32>, t: nat, m: u32) -> Result<Seq<u32>, CodeError> {
    if t > y.len() {
        Err(CodeError::WrongLength)
    } else {
        match spec_rs_decode(y, t, m) {
            Some(message) => Ok(message),
            None => Err(CodeError::Singular),
        }
    }
}

/// A Reed-Solomon code over GF(2^M) with the given design distance.
pub struct ReedSolomon<const M: u32> {
    pub distance: usize,
}

impl<const M: u32> ReedSolomon<M> {
    /// The values of the message polynomial at as many points as the message has
    /// coefficients, and `distance` more. Zero values at the end are not kept.
    pub fn encode(&self, message: PolyField<M>) -> (r: PolyField<M>)
        requires
            field_exists(M),
            message.wf(),
            message@.len() + self.distance <= u32::MAX,
        ensures
            r.wf(),
            r@ == spec_trim(spec_rs_encode(message@, message@.len() + self.distance as nat, M)),
    {
        let mut encoded: Vec<GF2TM<M>> = Vec::new();
        let len: usize = message.coeffs().len() + self.distance;
        let mut i: usize = 0;
        proof {
            lemma_trim(message@);
        }
        while i < len
            invariant
                i <= len <= u32::MAX,
                field_exists(M),
                message.wf(),
                encoded.len() == i,
                all_wf(encoded@),
                forall|c: int|
                    0 <= c < i ==> (#[trigger] encoded[c]).spec_value() == spec_horner(
                        message@,
                        spec_point(c, M),
                        field_modulus(M),
                    ),
            decreases len - i,
        {
            encoded.push(poly_it_eval(message.coeffs(), GF2TM::<M>::new(PolyGF2 { poly: i as u32 })));
            i += 1;
        }
        assert(values(encoded@) =~= spec_rs_encode(message@, len as nat, M));
        PolyField::new(encoded)
    }

    /// The message in the received values, after the correction of the errors that
    /// the linear system finds. Fails where the word has fewer values than the code
    /// corrects errors, and where no system from `max_num_of_errors` errors down to
    /// none can be solved.
    pub fn decode(&self, encoded_message: PolyField<M>) -> (r: Result<PolyField<M>, CodeError>)
        requires
            field_exists(M),
            encoded_message.wf(),
            self.distance >= 1,
            encoded_message@.len() < u32::MAX,
        ensures
            match spec_rs_decode_result(encoded_message@, ((self.distance - 1) / 2) as nat, M) {
                Ok(message) => r is Ok && r->Ok_0.wf() && r->Ok_0@ == message,
                Err(e) => r == Err::<PolyField<M>, CodeError>(e),
            },
    {
        let n: usize = encoded_message.coeffs().len();
        let ghost y = encoded_message@;
        let mut e: usize = self.max_num_of_errors();
        if e > n {
            return Err(CodeError::WrongLength);
        }
        loop
            invariant
                field_exists(M),
                encoded_message.wf(),
                y == encoded_message@,
                n == y.len(),
                e <= n < u32::MAX,
                (self.distance - 1) / 2 <= n,
                self.distance >= 1,
                spec_rs_decode(y, e as nat, M) == spec_rs_decode(
                    y,
                    ((self.distance - 1) / 2) as nat,
                    M,
                ),
            decreases e,
        {
            let (lhs, rhs) = self.create_linear_system_with_err_num(e, &encoded_message);
            let a: Matrix<M> = Matrix::new(lhs, n, n);
            proof {
                assert forall|i: int| 0 <= i < n implies (#[trigger] spec_rs_matrix(
                    y,
                    e as nat,
                    M,
                )[i]).len() == n by {}
                lemma_from_flat_flatten(spec_rs_matrix(y, e as nat, M), n as nat);
            }
            if a.determinant().is_zero() {
                if e == 0 {
                    return Err(CodeError::Singular);
                }
                e -= 1;
                continue ;
            }
            let result = match a.solve(rhs) {
                Ok(z) => z,
                Err(_) => {
                    return Err(CodeError::Singular);
                },
            };
            let mut e_vec: Vec<GF2TM<M>> = Vec::new();
            let mut i: usize = 0;
            while i < e
                invariant
                    i <= e <= n,
                    result.len() == n,
                    all_wf(result@),
                    e_vec.len() == i,
                    all_wf(e_vec@),
                    forall|c: int| 0 <= c < i ==> (#[trigger] e_vec[c]) == result[c],
                decreases e - i,
            {
                e_vec.push(result[i]);
                i += 1;
            }
            e_vec.push(GF2TM::<M>::new(PolyGF2 { poly: 1 }));
            let mut q_vec: Vec<GF2TM<M>> = Vec::new();
            let mut i: usize = e;
            while i < n
                invariant
                    e <= i <= n,
                    result.len() == n,
                    all_wf(result@),
                    q_vec.len() == i - e,
                    all_wf(q_vec@),
                    forall|c: int| 0 <= c < i - e ==> (#[trigger] q_vec[c]) == result[e + c],
                decreases n - i,
            {
                q_vec.push(result[i]);
                i += 1;
            }
            proof {
                let z = values(result@);
                crate::gf2tm::lemma_field_modulus(M);
                assert(values(e_vec@) =~= z.subrange(0, e as int).push(1u32));
                assert(values(q_vec@) =~= z.subrange(e as int, n as int));
                assert(spec_trim(values(e_vec@)) == values(e_vec@));
            }
            let e_poly = PolyField::new(e_vec);
            let q_poly = PolyField::new(q_vec);
            let decoded = q_poly.div_rem(&e_poly);
            return Ok(decoded.0);
        }
    }

    /// The number of errors that the code corrects: `(distance - 1) / 2`.
    pub fn max_num_of_errors(&self) -> (r: usize)
        requires
            self.distance >= 1,
        ensures
            r == (self.distance - 1) / 2,
    {
        (self.distance - 1) / 2
    }

    /// The linear system for `errors_num` errors: its matrix, row after row, and its
    /// right-hand side.
    fn create_linear_system_with_err_num(
        &self,
        errors_num: usize,
        encoded_message: &PolyField<M>,
    ) -> (r: (Vec<GF2TM<M>>, Vec<GF2TM<M>>))
        requires
            field_exists(M),
            encoded_message.wf(),
            errors_num <= encoded_message@.len() < u32::MAX,
        ensures
            all_wf(r.0@),
            all_wf(r.1@),
            r.0.len() == encoded_message@.len() * encoded_message@.len(),
            r.1.len() == encoded_message@.len(),
            values(r.0@) == spec_flatten(spec_rs_matrix(encoded_message@, errors_num as nat, M)),
            values(r.1@) == spec_rs_rhs(encoded_message@, errors_num as nat, M),
    {
        let n: usize = encoded_message.coeffs().len();
        let ghost y = encoded_message@;
        let ghost g = spec_rs_matrix(y, errors_num as nat, M);
        let mut lhs: Vec<GF2TM<M>> = Vec::new();
        let mut rhs: Vec<GF2TM<M>> = Vec::new();
        let mut i: usize = 0;
        proof {
            assert(g.subrange(0, 0) =~= Seq::<Seq<u32>>::empty());
            assert(values(lhs@) =~= spec_flatten(g.subrange(0, 0)));
        }
        while i < n
            invariant
                i <= n,
                field_exists(M),
                encoded_message.wf(),
                y == encoded_message@,
                n == y.len(),
                errors_num <= n < u32::MAX,
                g == spec_rs_matrix(y, errors_num as nat, M),
                all_wf(lhs@),
                all_wf(rhs@),
                rhs.len() == i,
                values(lhs@) == spec_flatten(g.subrange(0, i as int)),
                forall|c: int|
                    0 <= c < i ==> (#[trigger] rhs[c]).spec_value() == spec_rs_rhs(
                        y,
                        errors_num as nat,
                        M,
                    )[c],
            decreases n - i,
        {
            let point = GF2TM::<M>::new(PolyGF2 { poly: i as u32 });
            assert(encoded_message.spec_coeffs()[i as int].wf());
            let value = encoded_message.coeffs()[i];
            assert(value.spec_value() == y[i as int]);
            let ghost row = spec_rs_row(y, i as int, errors_num as nat, M);
            let ghost before = values(lhs@);
            let mut j: usize = 0;
            assert(values(lhs@) =~= before + row.subrange(0, 0));
            while j < errors_num
                invariant
                    j <= errors_num <= n < u32::MAX,
                    i < n,
                    n == y.len(),
                    point.wf(),
                    point.spec_value() == spec_point(i as int, M),
                    value.wf(),
                    value.spec_value() == y[i as int],
                    row == spec_rs_row(y, i as int, errors_num as nat, M),
                    all_wf(lhs@),
                    values(lhs@) == before + row.subrange(0, j as int),
                decreases errors_num - j,
            {
                let ghost old_lhs = values(lhs@);
                lhs.push(value * point.pow(j as u32));
                proof {
                    assert(values(lhs@) =~= old_lhs.push(row[j as int]));
                    assert(old_lhs.push(row[j as int]) =~= before + row.subrange(0, j as int + 1));
                }
                j += 1;
            }
            rhs.push((point.pow(errors_num as u32) * value).neg());
            let mut j: usize = 0;
            while j < n - errors_num
                invariant
                    j <= n - errors_num,
                    errors_num <= n < u32::MAX,
                    i < n,
                    n == y.len(),
                    point.wf(),
                    point.spec_value() == spec_point(i as int, M),
                    row == spec_rs_row(y, i as int, errors_num as nat, M),
                    all_wf(lhs@),
                    values(lhs@) == before + row.subrange(0, errors_num + j),
                decreases n - errors_num - j,
            {
                let ghost old_lhs = values(lhs@);
                lhs.push(point.pow(j as u32).neg());
                proof {
                    assert(values(lhs@) =~= old_lhs.push(row[errors_num + j]));
                    assert(old_lhs.push(row[errors_num + j]) =~= before + row.subrange(
                        0,
                        errors_num + j + 1,
                    ));
                }
                j += 1;
            }
            proof {
                assert(row.subrange(0, n as int) =~= row);
                let next = g.subrange(0, i as int + 1);
                assert(next.drop_last() =~= g.subrange(0, i as int));
                assert(next.last() == row);
            }
            i += 1;
        }
        proof {
            assert(g.subrange(0, n as int) =~= g);
            assert forall|a: int| 0 <= a < g.len() implies (#[trigger] g[a]).len() == n by {}
            lemma_flatten_len(g, n as nat);
            assert(values(rhs@) =~= spec_rs_rhs(y, errors_num as nat, M));
        }
        (lhs, rhs)
    }
}

} // verus!
