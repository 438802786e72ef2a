//! The backend-agnostic constraint graph: wires classified as public,
//! secret or internal, gates over them, and constraints between them.
use vstd::prelude::*;

use crate::constraint::Constraint;
use crate::gate::Gate;

verus! {

/// The kind of a wire: a public input, a secret witness, or an internal
/// or output value.
#[derive(Clone, Copy, Debug, PartialEq, Eq, Structural)]
pub enum WireKind {
    /// A public input, visible to prover and verifier.
    Public,
    /// A secret witness value, known only to the prover.
    Secret,
    /// An internal or output wire computed from other wires.
    Internal,
}

/// A handle to a wire (value slot) in a [`ConstraintGraph`].
#[derive(Clone, Copy, Debug, PartialEq, Eq, Hash, Structural)]
pub struct Wire(pub usize);

/// An index into a [`ConstraintGraph`]'s constraint list.
#[derive(Clone, Copy, Debug, PartialEq, Eq, Hash, Structural)]
pub struct ConstraintIndex(pub usize);

/// A graph of wires, gates and constraints.
#[derive(Clone, Debug, Default)]
pub struct ConstraintGraph {
    wires: Vec<WireKind>,
    gates: Vec<Gate>,
    constraints: Vec<Constraint>,
}

impl ConstraintGraph {
    /// The kinds of the allocated wires, by wire index.
    pub closed spec fn wire_kinds(&self) -> Seq<WireKind> {
        self.wires@
    }

    /// Its gates, in the order they were added.
    pub closed spec fn gate_list(&self) -> Seq<Gate> {
        self.gates@
    }

    /// The constraints, in the order they were added.
    pub closed spec fn constraint_list(&self) -> Seq<Constraint> {
        self.constraints@
    }

    /// An empty graph.
    pub fn new() -> (r: Self)
        ensures
            r.wire_kinds().len() == 0,
            r.gate_list().len() == 0,
            r.constraint_list().len() == 0,
    {
        ConstraintGraph { wires: Vec::new(), gates: Vec::new(), constraints: Vec::new() }
    }

    /// Allocates a new wire of the given kind and returns its handle.
    pub fn alloc_wire(&mut self, kind: WireKind) -> (w: Wire)
        ensures
            w.0 == old(self).wire_kinds().len(),
            final(self).wire_kinds() == old(self).wire_kinds().push(kind),
            final(self).gate_list() == old(self).gate_list(),
            final(self).constraint_list() == old(self).constraint_list(),
    {
        self.wires.push(kind);
        Wire(self.wires.len() - 1)
    }

    /// Appends a gate.
    pub fn push_gate(&mut self, gate: Gate)
        ensures
            final(self).gate_list() == old(self).gate_list().push(gate),
            final(self).wire_kinds() == old(self).wire_kinds(),
            final(self).constraint_list() == old(self).constraint_list(),
    {
        self.gates.push(gate);
    }

    /// Appends a constraint and returns its index.
    pub fn push_constraint(&mut self, constraint: Constraint) -> (i: ConstraintIndex)
        ensures
            i.0 == old(self).constraint_list().len(),
            final(self).constraint_list() == old(self).constraint_list().push(constraint),
            final(self).wire_kinds() == old(self).wire_kinds(),
            final(self).gate_list() == old(self).gate_list(),
    {
        self.constraints.push(constraint);
        ConstraintIndex(self.constraints.len() - 1)
    }

    /// The kind of an allocated wire.
    pub fn wire_kind(&self, wire: Wire) -> (k: WireKind)
        requires wire.0 < self.wire_kinds().len(),
        ensures k == self.wire_kinds()[wire.0 as int],
    {
        self.wires[wire.0]
    }

    /// All gates, in the order they were added.
    pub fn gates(&self) -> (r: &[Gate])
        ensures r@ == self.gate_list(),
    {
        self.gates.as_slice()
    }

    /// All constraints, in the order they were added.
    pub fn constraints(&self) -> (r: &[Constraint])
        ensures r@ == self.constraint_list(),
    {
        self.constraints.as_slice()
    }
}

/// A wire keeps the kind it was allocated with, whatever is allocated or
/// added after it: a graph `after` reached from the graph in which `w` was
/// allocated with kind `kind` by allocating further wires reports `kind`
/// for `w`.
pub proof fn law_wire_keeps_its_kind(at_alloc: ConstraintGraph, after: ConstraintGraph, w: Wire, kind: WireKind)
    requires
        w.0 < at_alloc.wire_kinds().len(),
        at_alloc.wire_kinds()[w.0 as int] == kind,
        at_alloc.wire_kinds().len() <= after.wire_kinds().len(),
        after.wire_kinds().take(at_alloc.wire_kinds().len() as int) == at_alloc.wire_kinds(),
    ensures
        w.0 < after.wire_kinds().len(),
        after.wire_kinds()[w.0 as int] == kind,
{
    assert(after.wire_kinds().take(at_alloc.wire_kinds().len() as int)[w.0 as int] == after.wire_kinds()[w.0 as int]);
}

} // verus!
