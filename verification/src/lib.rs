//! Deformed Reed–Solomon codes: twisted, folded, interleaved, punctured,
//! Möbius-transformed, and extended (Roth–Lempel) generalized Reed–Solomon,
//! with a scalar prime-field reference implementation.
pub mod gf256_arith;
pub mod tower_field;
mod bytes;
mod field;
mod primes;
mod binary_field;

pub use binary_field::Gf256;
pub use tower_field::Gf65536;

pub use field::{Field, FieldAxioms, PrimeField};
mod polynomial;
mod division;
mod interpolation;
mod linear;
pub use linear::nonzero_null_vector;
pub use polynomial::{Polynomial, PolynomialError, binomial_in_field};
mod reference;
pub use reference::{enumerate_polynomials, hamming_distance};
mod grs;
pub use grs::{
    check_reference_message_count, checked_constraint_count, checked_product,
    interpolation_monomials, monomial_hasse_value, validate_field_enumeration,
    BivariateMonomial, BivariatePolynomial, BivariateTerm, DecodedCandidate, GrsCode, GrsError,
    GuruswamiSudanParameters,
};
mod test_oracle;
pub use test_oracle::{OracleCandidate, OracleError, decode_by_enumeration};
mod error;
mod validate;
mod domain;
mod eval;
mod twist;
mod outcome;
pub use error::{DomainError, Error};
pub use domain::EvaluationDomain;
pub use twist::Twist;
pub use outcome::UniqueDecode;
mod mobius;
pub use mobius::{MobiusGrsCode, MobiusMap};
mod code;
pub use code::TgrsCode;
mod decode;
pub use decode::TgrsDecoder;
mod puncture;
pub use puncture::{blocks_aligned, PuncturedGrsCode, PuncturedGrsDecoder};
mod extend;
pub use extend::{ExtendedGrsCode, ExtendedGrsDecoder};
mod roth_lempel;
pub use roth_lempel::{RothLempelCode, RothLempelDecoder};
mod folded;
pub use folded::FoldedRsCode;
mod interleaved;
pub use interleaved::InterleavedRsCode;
mod mobius_decode;
pub use mobius_decode::MobiusGrsDecoder;
mod sorting;
mod descriptor;
pub use descriptor::{
    derive_capability, BaseCode, BaseGeometry, CanonicalDescriptor, DecoderCapability, ExtendCoord,
    TransformOp, TransformWord, DESCRIPTOR_VERSION,
};
pub use bytes::push_usize;
pub mod laws;
pub mod polynomial_laws;
pub mod compression;
pub mod distance;
pub mod lossless;
pub mod mobius_laws;
