//! Lowering the constraint graph to backend forms (R1CS, PLONKish).
use vstd::prelude::*;

use crate::graph::ConstraintGraph;

verus! {

/// A form the constraint graph can be lowered to.
#[derive(Clone, Copy, Debug, PartialEq, Eq, Structural)]
pub enum LoweringTarget {
    /// Rank-1 constraint systems (arkworks/groth16-style backends).
    R1cs,
    /// PLONKish arithmetization (halo2-style backends).
    Plonkish,
}

/// An error produced while lowering the graph.
#[derive(Clone, Copy, Debug, PartialEq, Eq, Structural)]
pub enum LoweringError {
    /// Lowering for this target is not implemented yet.
    NotYetImplemented,
}

impl LoweringError {
    /// The error's message.
    pub fn message(&self) -> (r: &'static str)
        ensures r@ == "lowering not yet implemented"@,
    {
        match self {
            LoweringError::NotYetImplemented => "lowering not yet implemented",
        }
    }
}

/// Lowers a graph to the given target form. No target has a lowering yet,
/// so every request is refused with [`LoweringError::NotYetImplemented`].
pub fn lower(graph: &ConstraintGraph, target: LoweringTarget) -> (r: Result<(), LoweringError>)
    ensures r == Err::<(), LoweringError>(LoweringError::NotYetImplemented),
{
    match target {
        LoweringTarget::R1cs | LoweringTarget::Plonkish => Err(LoweringError::NotYetImplemented),
    }
}

} // verus!
