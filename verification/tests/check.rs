use tpt_axiom::check::{check_comparison, evaluate, normalize_all, Comparison};
use tpt_axiom::circuit::{Constraint, ConstraintSystemBuilder};

#[test]
fn correct_ge_lowering_passes() {
    // `assert!(sender_balance >= amount)` lowers to `NonNegative(sender - amount)`.
    let mut b = ConstraintSystemBuilder::new("transfer");
    let sender = b.public_input("sender_balance");
    let amount = b.secret_input("amount");
    let surplus = b.sub(sender, amount);
    b.constrain_non_negative(surplus);
    let cs = b.build();

    let table = normalize_all(&cs);
    let result = check_comparison(&table, &cs.constraints[0], Comparison::Ge, sender, amount);
    assert!(result.is_ok(), "correct lowering should verify: {result:?}");
}

#[test]
fn off_by_one_lowering_is_caught() {
    // Encodes `sender - amount - 1 >= 0` (i.e. `>`) where `>=` is claimed.
    let mut b = ConstraintSystemBuilder::new("transfer_buggy");
    let sender = b.public_input("sender_balance");
    let amount = b.secret_input("amount");
    let diff = b.sub(sender, amount);
    let one = b.constant(1);
    let off_by_one = b.sub(diff, one);
    b.constrain_non_negative(off_by_one);
    let cs = b.build();

    let table = normalize_all(&cs);
    let result = check_comparison(&table, &cs.constraints[0], Comparison::Ge, sender, amount);
    let mismatch = result.expect_err("off-by-one lowering must be rejected");
    let message = mismatch.to_string();
    assert!(
        message.contains("expected") && message.contains("found"),
        "diagnostic should be readable: {message}"
    );
}

#[test]
fn swapped_operands_are_caught() {
    // Constrains `amount - sender >= 0` (backwards) where `sender >= amount` is claimed.
    let mut b = ConstraintSystemBuilder::new("transfer_swapped");
    let sender = b.public_input("sender_balance");
    let amount = b.secret_input("amount");
    let backwards = b.sub(amount, sender);
    b.constrain_non_negative(backwards);
    let cs = b.build();

    let table = normalize_all(&cs);
    let result = check_comparison(&table, &cs.constraints[0], Comparison::Ge, sender, amount);
    assert!(result.is_err(), "swapped operands must be rejected");
    assert!(matches!(cs.constraints[0], Constraint::NonNegative(_)));
}

#[test]
fn each_comparison_accepts_its_own_lowering() {
    let mut b = ConstraintSystemBuilder::new("all");
    let x = b.public_input("x");
    let y = b.secret_input("y");
    let d = b.sub(x, y);
    b.constrain_non_negative(d); // x >= y
    let e = b.sub(y, x);
    b.constrain_non_negative(e); // x <= y
    let one = b.constant(1);
    let g = b.sub(d, one);
    b.constrain_non_negative(g); // x > y
    let l = b.sub(e, one);
    b.constrain_non_negative(l); // x < y
    b.constrain_eq(x, y); // x == y
    b.constrain_zero(d); // x == y
    let cs = b.build();
    let table = normalize_all(&cs);
    let kinds = [Comparison::Ge, Comparison::Le, Comparison::Gt, Comparison::Lt, Comparison::Eq, Comparison::Eq];
    for (k, kind) in kinds.iter().enumerate() {
        assert!(check_comparison(&table, &cs.constraints[k], *kind, x, y).is_ok(), "constraint {k}");
    }
    // Only the polynomial is compared, not the constraint's kind.
    assert!(check_comparison(&table, &cs.constraints[0], Comparison::Eq, x, y).is_ok());
    // `x > y` is not what `x >= y` encodes.
    assert!(check_comparison(&table, &cs.constraints[0], Comparison::Gt, x, y).is_err());
}

#[test]
fn evaluate_computes_every_expression() {
    let mut b = ConstraintSystemBuilder::new("eval");
    let x = b.public_input("x");
    let y = b.secret_input("y");
    let s = b.add(x, y);
    let p = b.mul(s, x);
    let c = b.constant(-4);
    let n = b.neg(c);
    let d = b.sub(p, n);
    let cs = b.build();
    let table = evaluate(&cs, &[("x", 3), ("y", 5)]);
    assert_eq!(table, vec![3, 5, 8, 24, -4, 4, 20]);
    assert_eq!(table[d], 20);
    // A variable missing from the inputs evaluates to zero.
    let partial = evaluate(&cs, &[("y", 5)]);
    assert_eq!(partial[p], 0);
}

#[test]
fn a_rejected_constraint_differs_from_the_comparison_somewhere() {
    // `amount - sender >= 0` is rejected for `sender >= amount`; at
    // sender = 3, amount = 1 the two polynomials take different values.
    let mut b = ConstraintSystemBuilder::new("transfer_swapped");
    let sender = b.public_input("sender_balance");
    let amount = b.secret_input("amount");
    let backwards = b.sub(amount, sender);
    b.constrain_non_negative(backwards);
    let cs = b.build();
    let table = normalize_all(&cs);
    assert!(check_comparison(&table, &cs.constraints[0], Comparison::Ge, sender, amount).is_err());
    let values = evaluate(&cs, &[("sender_balance", 3), ("amount", 1)]);
    assert_ne!(values[backwards], values[sender] - values[amount]);
}
