//! A Pinocchio-style pairing-based zkSNARK over the BN254 curve.
//!
//! A circuit description is compiled into a quadratic arithmetic program
//! (QAP); a one-time trusted setup derives a structured reference string;
//! a prover combines the proving key with a secret witness into a
//! constant-size proof; a verifier checks the proof with a fixed battery
//! of bilinear-pairing equations.

use vstd::prelude::*;

pub mod field;
pub mod poly;
pub mod circuit;
pub mod qap;
pub mod group;
pub mod codec;
pub mod setup;
pub mod prover;
pub mod verification;

pub use field::Scalar;
pub use poly::Polynomial;
pub use circuit::{parse_circuit, shield_brack_parser, Gate, GateOp, ParseError};
pub use qap::{
    compute_op_points, compute_op_polynomial, compute_vanishing_polynomial,
    lagrange_interpolation_polynomial, FieldError, Qap, WireType,
};
pub use group::{G1Elem, G2Elem, GroupElem, GtElem};
pub use codec::{decode_key, encode_key, generate_proof_string, parse_proof, CodecError, Proof};
pub use setup::{trusted_setup, get_s_k, SetupKeys};
pub use prover::{
    build_proof, check_witness, compute_encrypted_beta_polynomial_evaluation,
    compute_encrypted_polynomial_evaluation, compute_encrypted_polynomial_evaluation_g2,
    compute_final_polynomial, prove, witness_weights, ProverError, WitnessError,
};
pub use verification::{verify, verify_proof, vk_parts, VerifKey};

verus! {

/// The order of the BN254 scalar field: every coefficient, witness value
/// and trapdoor scalar is a residue modulo this prime.
pub open spec fn fr_order() -> int {
    0x30644E72E131A029B85045B68181585D2833E84879B9709143E1F593F0000001int
}

} // verus!
