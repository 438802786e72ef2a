//! Arithmetic gates of the constraint graph.
use vstd::prelude::*;

use crate::graph::Wire;

verus! {

/// A single arithmetic gate connecting input wires to an output wire.
#[derive(Clone, Copy, Debug, PartialEq, Eq, Structural)]
pub enum Gate {
    /// `out = lhs + rhs`.
    Add {
        /// Left-hand input wire.
        lhs: Wire,
        /// Right-hand input wire.
        rhs: Wire,
        /// Output wire.
        out: Wire,
    },
    /// `out = lhs - rhs`.
    Sub {
        /// Left-hand input wire.
        lhs: Wire,
        /// Right-hand input wire.
        rhs: Wire,
        /// Output wire.
        out: Wire,
    },
    /// `out = lhs * rhs`.
    Mul {
        /// Left-hand input wire.
        lhs: Wire,
        /// Right-hand input wire.
        rhs: Wire,
        /// Output wire.
        out: Wire,
    },
}

} // verus!
