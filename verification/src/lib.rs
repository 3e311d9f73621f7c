//! Algebraic block codes over binary extension fields.
//!
//! The crate has three layers. The lowest is the arithmetic of polynomials over GF(2),
//! packed into a `u32` ([`PolyGF2`]), and of the fields GF(2^M) built on it
//! ([`GF2TM`]), with polynomials ([`PolyField`]) and matrices ([`Matrix`]) over such
//! a field. On it stand the binary BCH codes ([`BCH`]) and the Reed-Solomon codes
//! ([`ReedSolomon`]), and on those their concatenation ([`ConcatenatedCode`]).
//!
//! Every function states what it returns over the spec functions of its module. The
//! modules whose names end in `laws` or `lemmas`, and `evaluation`, `fermat`,
//! `irreducible_table` and `small_fields`, hold what is proved of those spec
//! functions: the ring laws of GF(2)[x], the division with remainder, the field laws
//! of GF(2^M), the first irreducible polynomials, the inverse in the fields up to
//! GF(2^8), the correctness of the elimination, and the round trip of the BCH codes.
//! The module `outside` holds the calls into the `polynomial` and `poly_it` crates,
//! whose contracts are not proved.

pub mod bch;
pub mod bits;
pub mod concatenated_code;
pub mod error;
pub mod evaluation;
pub mod fermat;
pub mod field_laws;
pub mod gcd_laws;
pub mod gf2m;
pub mod gf2tm;
pub mod gf2tm_order;
pub mod irreducible_table;
pub mod matrix;
pub mod matrix_laws;
pub mod minimal_poly;
pub mod outside;
pub mod poly_field;
pub mod poly_field_spec;
pub mod poly_gf2;
pub mod poly_gf2_lemmas;
pub mod reed_solomon;
pub mod small_fields;

pub use crate::bch::BCH;
pub use crate::concatenated_code::ConcatenatedCode;
pub use crate::error::CodeError;
pub use crate::gf2m::GF2m;
pub use crate::gf2tm::GF2TM;
pub use crate::matrix::Matrix;
pub use crate::poly_field::PolyField;
pub use crate::poly_gf2::PolyGF2;
pub use crate::reed_solomon::ReedSolomon;
