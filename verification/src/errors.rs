//! The ways a prove or verify run can fail.

use vstd::prelude::*;

verus! {

/// Everything that can go wrong while producing or checking a proof.
#[derive(Clone, Copy, Debug, PartialEq, Eq, Structural)]
pub enum GkrError {
    /// The circuit and the supplied evaluation (or proof) disagree in shape.
    InputMismatch,
    /// A point handed to a multilinear-extension evaluation has the wrong
    /// number of coordinates.
    EvaluationArity,
    /// A sum-check sub-proof failed its round-consistency checks.
    SumCheckRejected,
    /// The value reconstructed from a layer's claimed evaluations disagrees
    /// with the sum-check engine's final value for that layer.
    LayerMismatch,
    /// The last layer's claimed evaluations disagree with the values the
    /// circuit input dictates.
    FinalInputMismatch,
}

} // verus!
