//! A verified implementation of the GKR interactive proof protocol for
//! layered arithmetic circuits, made non-interactive with a Fiat-Shamir
//! transcript.
//!
//! A prover evaluates a circuit of two-input `Add`/`Mul` gates layer by
//! layer and produces a [`protocol::GKRProof`]; a verifier replays the
//! layer-by-layer reduction, checking one sum-check sub-proof per layer
//! transition, and accepts only proofs whose every round is consistent
//! with the transcript-bound randomness.

pub mod circuit;
pub mod errors;
pub mod field;
pub mod mle;
pub mod protocol;
pub mod sumcheck;
pub mod transcript;
