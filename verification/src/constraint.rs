//! Arithmetic constraints between wires of the constraint graph.
use vstd::prelude::*;

use crate::graph::Wire;

verus! {

/// A single arithmetic constraint between wires of a constraint graph.
#[derive(Clone, Copy, Debug, PartialEq, Eq, Structural)]
pub enum Constraint {
    /// `a == b`.
    Equal(Wire, Wire),
}

} // verus!
