//! Schnorr proof of knowledge of a discrete logarithm on secp256k1.
//!
//! A prover convinces a verifier that it knows the secret scalar `x` of a
//! public point `X = x·G`, in three messages: a commitment, a challenge and a
//! response.  Scalars travel as big-endian bytes and points as compressed
//! encodings; the group arithmetic itself is done by `generic_ec`.
mod group;
pub mod laws;
pub mod model;
pub mod schnorr_pok;
