use tpt_axiom::circuit::{ConstraintSystem, ConstraintSystemBuilder, Expr, ExprId, Scalar};
use tpt_axiom::r1cs::{evaluate_linear, lower_r1cs, EvaluationError, R1csAssertion, R1CS};

fn balance_transfer_ir() -> (ConstraintSystem, ExprId) {
    let mut b = ConstraintSystemBuilder::new("transfer");
    let sender = b.public_input("sender_balance");
    let receiver = b.public_input("receiver_balance");
    let amount = b.secret_input("amount");
    let surplus = b.sub(sender, amount);
    b.constrain_non_negative(surplus);
    let new_receiver = b.add(receiver, amount);
    let expected = b.add(receiver, amount);
    b.constrain_eq(new_receiver, expected);
    (b.build(), amount)
}

/// Bottom-up filler: give every expression slot the value implied by its
/// children, given assigned public/secret inputs.
fn satisfy(ir: &ConstraintSystem, witness: &mut [Scalar], r1cs: &R1CS) {
    for (id, e) in ir.exprs.iter().enumerate() {
        let Some(slot) = r1cs.expr_slots[id] else { continue };
        let value = match *e {
            Expr::Const(c) => c,
            Expr::Var(v) => {
                let is_public = ir
                    .public_inputs
                    .iter()
                    .any(|&p| matches!(ir.exprs[p], Expr::Var(pv) if pv == v));
                let is_secret = ir
                    .secret_inputs
                    .iter()
                    .any(|&s| matches!(ir.exprs[s], Expr::Var(sv) if sv == v));
                if is_public {
                    let idx = ir
                        .public_inputs
                        .iter()
                        .position(|&p| matches!(ir.exprs[p], Expr::Var(pv) if pv == v))
                        .unwrap();
                    witness[r1cs.public_slots[idx]]
                } else if is_secret {
                    let idx = ir
                        .secret_inputs
                        .iter()
                        .position(|&s| matches!(ir.exprs[s], Expr::Var(sv) if sv == v))
                        .unwrap();
                    witness[r1cs.secret_slots[idx]]
                } else {
                    unreachable!("unclassified variable")
                }
            }
            Expr::Add(l, r) => witness[r1cs.expr_slots[l].unwrap()] + witness[r1cs.expr_slots[r].unwrap()],
            Expr::Sub(l, r) => witness[r1cs.expr_slots[l].unwrap()] - witness[r1cs.expr_slots[r].unwrap()],
            Expr::Mul(l, r) => witness[r1cs.expr_slots[l].unwrap()] * witness[r1cs.expr_slots[r].unwrap()],
            Expr::Neg(n) => -witness[r1cs.expr_slots[n].unwrap()],
        };
        witness[slot] = value;
    }
}

#[test]
fn lowers_and_satisfies() {
    let (ir, amount_expr) = balance_transfer_ir();
    let r1cs = lower_r1cs(&ir);
    assert_eq!(r1cs.public_slots.len(), 2);
    assert_eq!(r1cs.secret_slots.len(), 1);
    assert_ne!(r1cs.gates.len(), 0);

    let mut witness = vec![0; r1cs.num_variables];
    witness[0] = 1;
    witness[r1cs.public_slots[0]] = 50;
    witness[r1cs.public_slots[1]] = 20;
    witness[r1cs.expr_slots[amount_expr].unwrap()] = 30;
    satisfy(&ir, &mut witness, &r1cs);
    r1cs.evaluate(&witness).unwrap();
}

#[test]
fn lowers_and_rejects_wrong_assignment() {
    let (ir, amount_expr) = balance_transfer_ir();
    let r1cs = lower_r1cs(&ir);
    let mut witness = vec![0; r1cs.num_variables];
    witness[0] = 1;
    witness[r1cs.public_slots[0]] = 50;
    witness[r1cs.public_slots[1]] = 20;
    witness[r1cs.expr_slots[amount_expr].unwrap()] = 100; // violates surplus >= 0
    satisfy(&ir, &mut witness, &r1cs);
    assert!(r1cs.evaluate(&witness).is_err());
}

#[test]
fn constant_is_pinned() {
    let mut b = ConstraintSystemBuilder::new("const");
    let x = b.public_input("x");
    let c = b.constant(7);
    let s = b.add(x, c);
    let ir = b.build();
    let r1cs = lower_r1cs(&ir);

    let mut witness = vec![0; r1cs.num_variables];
    witness[0] = 1;
    witness[r1cs.public_slots[0]] = 5;
    satisfy(&ir, &mut witness, &r1cs); // const node pinned by its gate
    r1cs.evaluate(&witness).unwrap();
    assert_eq!(witness[r1cs.expr_slots[s].unwrap()], 12);
}

#[test]
fn variable_names_carry_over() {
    let (ir, _) = balance_transfer_ir();
    let r1cs = lower_r1cs(&ir);
    let has = |needle: &str| r1cs.names.iter().any(|n| n.as_deref() == Some(needle));
    assert!(has("sender_balance"));
    assert!(has("receiver_balance"));
    assert!(has("amount"));
}

#[test]
fn evaluation_reports_the_violated_assertion() {
    let (ir, amount_expr) = balance_transfer_ir();
    let r1cs = lower_r1cs(&ir);
    assert_eq!(r1cs.assertions.len(), 1);
    let R1csAssertion::NonNegative(slot) = r1cs.assertions[0];
    let mut witness = vec![0; r1cs.num_variables];
    witness[0] = 1;
    witness[r1cs.public_slots[0]] = 10;
    witness[r1cs.public_slots[1]] = 0;
    witness[r1cs.expr_slots[amount_expr].unwrap()] = 13;
    satisfy(&ir, &mut witness, &r1cs);
    assert_eq!(r1cs.evaluate(&witness), Err(EvaluationError::NonNegativeFailed { slot, value: -3 }));
}

#[test]
fn evaluation_reports_the_first_failed_gate() {
    let (ir, amount_expr) = balance_transfer_ir();
    let r1cs = lower_r1cs(&ir);
    let mut witness = vec![0; r1cs.num_variables];
    witness[0] = 1;
    witness[r1cs.public_slots[0]] = 50;
    witness[r1cs.public_slots[1]] = 20;
    witness[r1cs.expr_slots[amount_expr].unwrap()] = 30;
    satisfy(&ir, &mut witness, &r1cs);
    // Break the surplus slot: its defining gate is the first to fail.
    let surplus = r1cs.expr_slots[3].unwrap();
    witness[surplus] += 1;
    match r1cs.evaluate(&witness) {
        Err(EvaluationError::GateFailed { lhs, rhs, out, .. }) => assert_ne!(lhs * rhs, out),
        other => panic!("expected a failed gate, got {other:?}"),
    }
}

#[test]
fn linear_combinations_evaluate_as_dot_products() {
    let witness: Vec<Scalar> = vec![1, 4, -2, 7];
    assert_eq!(evaluate_linear(&vec![], &witness), 0);
    assert_eq!(evaluate_linear(&vec![(0, 5)], &witness), 5);
    assert_eq!(evaluate_linear(&vec![(1, 2), (2, 3), (3, -1)], &witness), 8 - 6 - 7);
    assert_eq!(evaluate_linear(&vec![(1, 1), (1, 1)], &witness), 8);
}

fn strictly_increasing_below(lin: &[(usize, Scalar)], n: usize) -> bool {
    lin.windows(2).all(|w| w[0].0 < w[1].0) && lin.iter().all(|&(i, _)| i < n)
}

#[test]
fn gate_indices_are_strictly_increasing_and_in_range() {
    let (ir, _) = balance_transfer_ir();
    let r1cs = lower_r1cs(&ir);
    assert!(!r1cs.gates.is_empty());
    for gate in &r1cs.gates {
        assert!(strictly_increasing_below(&gate.a, r1cs.num_variables));
        assert!(strictly_increasing_below(&gate.b, r1cs.num_variables));
        assert!(strictly_increasing_below(&gate.c, r1cs.num_variables));
    }
}

#[test]
fn like_indices_merge_and_cancel() {
    // `x == x` lowers to `x - x = 0`, whose normalized left side is empty;
    // `y = x + x` lowers to `y - 2x = 0`.
    let mut b = ConstraintSystemBuilder::new("merge");
    let x = b.public_input("x");
    b.constrain_eq(x, x);
    let y = b.add(x, x);
    let r1cs = lower_r1cs(&b.build());
    assert!(r1cs.gates.last().unwrap().a.is_empty());
    let add_gate = r1cs.gates.iter().find(|g| g.a.len() == 2).expect("the sum's gate");
    assert_eq!(add_gate.a, vec![(x + 1, -2), (y + 1, 1)]);
}
