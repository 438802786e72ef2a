use tpt_axiom::constraint::Constraint;
use tpt_axiom::gate::Gate;
use tpt_axiom::graph::{ConstraintGraph, ConstraintIndex, Wire, WireKind};
use tpt_axiom::lowering::{lower, LoweringError, LoweringTarget};

#[test]
fn wires_and_gates_round_trip() {
    let mut graph = ConstraintGraph::new();
    let a = graph.alloc_wire(WireKind::Public);
    let b = graph.alloc_wire(WireKind::Secret);
    let out = graph.alloc_wire(WireKind::Internal);
    graph.push_gate(Gate::Add { lhs: a, rhs: b, out });
    graph.push_constraint(Constraint::Equal(out, out));

    assert_eq!(graph.wire_kind(a), WireKind::Public);
    assert_eq!(graph.wire_kind(b), WireKind::Secret);
    assert_eq!(graph.gates().len(), 1);
    assert_eq!(graph.constraints().len(), 1);
}

#[test]
fn handles_count_up_from_zero() {
    let mut graph = ConstraintGraph::new();
    assert_eq!(graph.alloc_wire(WireKind::Internal), Wire(0));
    assert_eq!(graph.alloc_wire(WireKind::Secret), Wire(1));
    let c0 = graph.push_constraint(Constraint::Equal(Wire(0), Wire(1)));
    let c1 = graph.push_constraint(Constraint::Equal(Wire(1), Wire(0)));
    assert_eq!((c0, c1), (ConstraintIndex(0), ConstraintIndex(1)));
    graph.push_gate(Gate::Mul { lhs: Wire(0), rhs: Wire(1), out: Wire(0) });
    graph.push_gate(Gate::Sub { lhs: Wire(1), rhs: Wire(0), out: Wire(1) });
    assert_eq!(graph.gates()[1], Gate::Sub { lhs: Wire(1), rhs: Wire(0), out: Wire(1) });
    assert_eq!(graph.constraints()[1], Constraint::Equal(Wire(1), Wire(0)));
    assert_eq!(graph.wire_kind(Wire(0)), WireKind::Internal);
}

#[test]
fn lowering_is_not_yet_available_for_any_target() {
    let graph = ConstraintGraph::new();
    assert_eq!(lower(&graph, LoweringTarget::R1cs), Err(LoweringError::NotYetImplemented));
    assert_eq!(lower(&graph, LoweringTarget::Plonkish), Err(LoweringError::NotYetImplemented));
    assert_eq!(LoweringError::NotYetImplemented.message(), "lowering not yet implemented");
}
