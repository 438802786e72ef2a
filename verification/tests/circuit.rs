use tpt_axiom::circuit::{Constraint, ConstraintSystemBuilder, Expr, Visibility};

#[test]
fn build_balance_transfer_ir() {
    let mut b = ConstraintSystemBuilder::new("prove_balance_transfer");
    let sender = b.public_input("sender_balance");
    let receiver = b.public_input("receiver_balance");
    let amount = b.secret_input("amount");
    // assert!(sender_balance >= amount)  =>  sender - amount >= 0
    let surplus = b.sub(sender, amount);
    b.constrain_non_negative(surplus);
    // let new_receiver_balance = receiver + amount
    let new_receiver = b.add(receiver, amount);
    // assert_eq!(new_receiver_balance, receiver + amount)
    let rhs = b.add(receiver, amount);
    b.constrain_eq(new_receiver, rhs);

    let ir = b.build();
    assert_eq!(ir.name, "prove_balance_transfer");
    assert_eq!(ir.num_public(), 2);
    assert_eq!(ir.num_secret(), 1);
    assert_eq!(ir.constraints.len(), 2);
    assert_eq!(ir.constraints[0], Constraint::NonNegative(surplus));
    assert_eq!(ir.constraints[1], Constraint::Equal(new_receiver, rhs));
    assert_eq!(ir.variable_id("amount"), Some(amount));
}

#[test]
fn describe_renders() {
    let mut b = ConstraintSystemBuilder::new("f");
    let x = b.public_input("x");
    b.constrain_zero(x);
    let text = b.build().describe();
    assert!(text.contains("circuit f"));
    assert!(text.contains("public input x"));
}

#[test]
fn describe_renders_every_part() {
    let mut b = ConstraintSystemBuilder::new("g");
    let x = b.public_input("x");
    let y = b.secret_input("y");
    let d = b.sub(x, y);
    b.constrain_non_negative(d);
    b.constrain_eq(x, y);
    b.constrain_zero(d);
    let text = b.build().describe();
    assert_eq!(
        text,
        "circuit g {\n  public input x\n  secret input y\n  constraints\n    NonNegative(2)\n    Equal(0, 1)\n    Zero(2)\n}"
    );
}

#[test]
fn builder_records_each_expression_in_order() {
    let mut b = ConstraintSystemBuilder::new("exprs");
    let x = b.public_input("x");
    let c = b.constant(-3);
    let s = b.add(x, c);
    let p = b.mul(s, s);
    let n = b.neg(p);
    let o = b.output("return");
    b.constrain_eq(o, n);
    let ir = b.build();
    assert_eq!((x, c, s, p, n, o), (0, 1, 2, 3, 4, 5));
    assert_eq!(
        ir.exprs,
        vec![Expr::Var(0), Expr::Const(-3), Expr::Add(0, 1), Expr::Mul(2, 2), Expr::Neg(3), Expr::Var(1)]
    );
    assert_eq!(ir.public_inputs, vec![0, 5]);
    assert!(ir.secret_inputs.is_empty());
    assert_eq!(ir.variables[1].name, "return");
    assert_eq!(ir.variables[1].visibility, Visibility::Public);
}

#[test]
fn variable_id_finds_the_first_match_only() {
    let mut b = ConstraintSystemBuilder::new("ids");
    let a = b.secret_input("a");
    let _ = b.constant(1);
    let a2 = b.public_input("a");
    let ir = b.build();
    assert_eq!(ir.variable_id("a"), Some(a));
    assert_ne!(ir.variable_id("a"), Some(a2));
    assert_eq!(ir.variable_id("missing"), None);
}
