use tpt_axiom::check::{check_comparison, evaluate, normalize_all, Comparison};
use tpt_axiom::circuit::{Constraint, ConstraintSystem, Expr};
use tpt_axiom::r1cs::lower_r1cs;
use tpt_axiom::lower::{lower_function, pascal_case, LowerError, LowerErrorKind, Lowered, TypeContext};
use tpt_axiom::lower_ast::{
    SourceAttr, SourceBinOp, SourceExpr, SourceFn, SourceInit, SourceLit, SourceMacro, SourceParam, SourcePat,
    SourceStmt, SourceType, SourceUnOp, UnsupportedExpr,
};

// Positions are arbitrary handles; each helper takes the one it should carry.

fn ident(name: &str, span: usize) -> SourcePat {
    SourcePat::Ident { name: name.to_string(), by_ref: false, subpat: false, mutability: None, name_span: span, span }
}

fn int_type(name: &str) -> SourceType {
    SourceType::Path { qself: false, last: Some(name.to_string()), span: 900 }
}

fn param(attr: Option<&str>, name: &str, ty: &str) -> SourceParam {
    let attrs = match attr {
        Some(a) => vec![SourceAttr { name: Some(a.to_string()), span: 800 }],
        None => vec![],
    };
    SourceParam::Typed { attrs, pat: ident(name, 700), ty: int_type(ty) }
}

fn path(name: &str) -> SourceExpr {
    SourceExpr::Path { name: name.to_string(), simple: true, span: 100 }
}

fn lit(v: i64) -> SourceExpr {
    SourceExpr::Lit { lit: SourceLit::Int(Some(v)), span: 101 }
}

fn bin(op: SourceBinOp, l: SourceExpr, r: SourceExpr) -> SourceExpr {
    SourceExpr::Binary { op, left: Box::new(l), right: Box::new(r), span: 102 }
}

fn mac(name: &str, one: Option<SourceExpr>, two: Option<(SourceExpr, SourceExpr)>) -> SourceMacro {
    SourceMacro {
        name: Some(name.to_string()),
        name_span: 103,
        span: 104,
        one: one.map(Box::new),
        two: two.map(|(a, b)| (Box::new(a), Box::new(b))),
    }
}

fn assert_stmt(e: SourceExpr) -> SourceStmt {
    SourceStmt::Macro { mac: mac("assert", Some(e), None) }
}

fn assert_eq_stmt(a: SourceExpr, b: SourceExpr) -> SourceStmt {
    SourceStmt::Macro { mac: mac("assert_eq", None, Some((a, b))) }
}

fn let_stmt(name: &str, e: SourceExpr) -> SourceStmt {
    SourceStmt::Local { attrs: vec![], pat: ident(name, 105), init: Some(SourceInit { expr: e, diverge: false }), span: 106 }
}

fn return_stmt(e: SourceExpr) -> SourceStmt {
    SourceStmt::Expr { expr: SourceExpr::Return { expr: Some(Box::new(e)), span: 107 }, semi: true }
}

fn function(name: &str, inputs: Vec<SourceParam>, output: Option<&str>, stmts: Vec<SourceStmt>) -> SourceFn {
    SourceFn {
        name: name.to_string(),
        name_span: 1,
        asyncness: None,
        unsafety: None,
        abi: None,
        constness: None,
        generics: None,
        variadic: None,
        output: output.map(int_type),
        inputs,
        stmts,
    }
}

/// `fn prove_balance_transfer(#[public] sender_balance: u64, #[public]
/// receiver_balance: u64, #[secret] amount: u64)`, as the attribute front end
/// hands it over.
fn prove_balance_transfer_source() -> SourceFn {
    function(
        "prove_balance_transfer",
        vec![
            param(Some("public"), "sender_balance", "u64"),
            param(Some("public"), "receiver_balance", "u64"),
            param(Some("secret"), "amount", "u64"),
        ],
        None,
        vec![
            assert_stmt(bin(SourceBinOp::Ge, path("sender_balance"), path("amount"))),
            let_stmt("new_receiver_balance", bin(SourceBinOp::Add, path("receiver_balance"), path("amount"))),
            assert_eq_stmt(path("new_receiver_balance"), bin(SourceBinOp::Add, path("receiver_balance"), path("amount"))),
        ],
    )
}

fn weighted_sum_source() -> SourceFn {
    function(
        "weighted_sum",
        vec![param(None, "a", "u64"), param(None, "b", "u64"), param(Some("secret"), "k", "u64")],
        Some("u64"),
        vec![
            let_stmt("scaled", bin(SourceBinOp::Mul, path("a"), path("k"))),
            let_stmt("total", bin(SourceBinOp::Add, path("scaled"), path("b"))),
            return_stmt(path("total")),
        ],
    )
}

fn bounds_check_source() -> SourceFn {
    function(
        "bounds_check",
        vec![param(Some("secret"), "x", "i64"), param(Some("public"), "lo", "i64"), param(Some("public"), "hi", "i64")],
        None,
        vec![
            assert_stmt(bin(SourceBinOp::Ge, path("x"), path("lo"))),
            assert_stmt(bin(SourceBinOp::Le, path("x"), path("hi"))),
            assert_stmt(bin(SourceBinOp::Lt, path("x"), bin(SourceBinOp::Add, path("hi"), lit(1)))),
        ],
    )
}

// The Rust functions themselves, which the circuits must agree with.
fn prove_balance_transfer(sender_balance: u64, receiver_balance: u64, amount: u64) {
    assert!(sender_balance >= amount);
    let new_receiver_balance = receiver_balance + amount;
    assert_eq!(new_receiver_balance, receiver_balance + amount);
}

fn weighted_sum(a: u64, b: u64, k: u64) -> u64 {
    let scaled = a * k;
    let total = scaled + b;
    return total;
}

fn bounds_check(x: i64, lo: i64, hi: i64) {
    assert!(x >= lo);
    assert!(x <= hi);
    assert!(x < hi + 1);
}

fn lowered(f: &SourceFn, backend: &str) -> Lowered {
    lower_function(f, backend).expect("the function lowers")
}

fn error_of(f: &SourceFn) -> LowerError {
    match lower_function(f, "halo2") {
        Ok(_) => panic!("expected lowering to fail"),
        Err(e) => e,
    }
}

fn all_constraints_hold(ir: &ConstraintSystem, table: &[i64]) -> bool {
    ir.constraints.iter().all(|c| match *c {
        Constraint::NonNegative(e) => table[e] >= 0,
        Constraint::Zero(e) => table[e] == 0,
        Constraint::Equal(l, r) => table[l] == table[r],
    })
}

#[test]
fn balance_transfer_lowers_to_ir() {
    let circuit = lowered(&prove_balance_transfer_source(), "halo2");
    assert_eq!(circuit.name, "prove_balance_transfer");
    assert_eq!(circuit.backend, "halo2");
    assert_eq!(circuit.struct_name, "ProveBalanceTransfer");

    let ir = circuit.system;
    assert_eq!(ir.name, "prove_balance_transfer");
    assert_eq!(ir.num_public(), 2);
    assert_eq!(ir.num_secret(), 1);
    assert_eq!(ir.constraints.len(), 2);
    assert!(matches!(ir.constraints[0], Constraint::NonNegative(_)));
    assert!(matches!(ir.constraints[1], Constraint::Equal(_, _)));
    assert!(ir.variable_id("sender_balance").is_some());
    assert!(ir.variable_id("amount").is_some());
}

#[test]
fn return_becomes_public_output() {
    let circuit = lowered(&weighted_sum_source(), "arkworks");
    assert_eq!(circuit.backend, "arkworks");
    let ir = circuit.system;
    // a, b, and the returned output are public; k is secret.
    assert_eq!(ir.num_public(), 3);
    assert_eq!(ir.num_secret(), 1);
    assert_eq!(ir.constraints.len(), 1);
    assert!(matches!(ir.constraints[0], Constraint::Equal(_, _)));
}

#[test]
fn comparison_operators_lower() {
    let ir = lowered(&bounds_check_source(), "sp1").system;
    assert_eq!(ir.num_public(), 2);
    assert_eq!(ir.num_secret(), 1);
    // x >= lo, x <= hi, x < hi+1 each become one non-negativity constraint.
    assert_eq!(ir.constraints.len(), 3);
    assert!(ir.constraints.iter().all(|c| matches!(c, Constraint::NonNegative(_))));
}

#[test]
fn original_functions_still_run_as_plain_rust() {
    prove_balance_transfer(50, 20, 30);
    assert_eq!(weighted_sum(2, 3, 4), 11);
    bounds_check(5, 0, 10);
}

#[test]
fn public_and_secret_classification() {
    let ir = lowered(&prove_balance_transfer_source(), "halo2").system;
    let names = |ids: &[usize]| -> Vec<String> {
        ids.iter()
            .filter_map(|&id| match &ir.exprs[id] {
                Expr::Var(v) => ir.variables.get(*v).map(|info| info.name.clone()),
                _ => None,
            })
            .collect()
    };
    assert_eq!(names(&ir.public_inputs), vec!["sender_balance", "receiver_balance"]);
    assert_eq!(names(&ir.secret_inputs), vec!["amount"]);
}

#[test]
fn weighted_sum_output_matches_the_function() {
    let ir = lowered(&weighted_sum_source(), "arkworks").system;
    let out_id = ir.variable_id("return").expect("return output declared");
    let value_id = ir
        .constraints
        .iter()
        .find_map(|c| match *c {
            Constraint::Equal(l, r) if l == out_id => Some(r),
            Constraint::Equal(l, r) if r == out_id => Some(l),
            _ => None,
        })
        .expect("output equality constraint");
    for (a, b, k) in [(0u64, 0u64, 0u64), (2, 3, 4), (999, 1, 17), (13, 500, 250)] {
        let table = evaluate(&ir, &[("a", a as i64), ("b", b as i64), ("k", k as i64)]);
        assert_eq!(table[value_id], weighted_sum(a, b, k) as i64);
    }
}

#[test]
fn bounds_check_constraints_hold_exactly_when_the_asserts_do() {
    let ir = lowered(&bounds_check_source(), "sp1").system;
    for x in [-3i64, 0, 4, 5, 9, 10, 11] {
        for (lo, hi) in [(0i64, 10i64), (5, 5), (6, 2)] {
            let rust_ok = x >= lo && x <= hi && x < hi + 1;
            let table = evaluate(&ir, &[("x", x), ("lo", lo), ("hi", hi)]);
            assert_eq!(all_constraints_hold(&ir, &table), rust_ok, "x={x} lo={lo} hi={hi}");
        }
    }
}

#[test]
fn strict_and_equal_comparisons_lower() {
    let f = function(
        "cmp",
        vec![param(None, "p", "i32"), param(Some("secret"), "q", "i32")],
        None,
        vec![
            assert_stmt(bin(SourceBinOp::Gt, path("p"), path("q"))),
            assert_stmt(bin(SourceBinOp::Eq, bin(SourceBinOp::Sub, path("p"), path("q")), lit(1))),
        ],
    );
    let ir = lowered(&f, "halo2").system;
    for (p, q) in [(3i64, 2i64), (3, 3), (4, 2), (2, 3)] {
        let table = evaluate(&ir, &[("p", p), ("q", q)]);
        assert_eq!(all_constraints_hold(&ir, &table), p > q && p - q == 1);
    }
}

#[test]
fn tail_expression_and_negation_lower() {
    let f = function(
        "negated",
        vec![param(None, "v", "i64")],
        Some("i64"),
        vec![SourceStmt::Expr {
            expr: SourceExpr::Paren {
                expr: Box::new(SourceExpr::Unary { op: SourceUnOp::Neg, expr: Box::new(path("v")), span: 5 }),
                span: 6,
            },
            semi: false,
        }],
    );
    let ir = lowered(&f, "halo2").system;
    assert_eq!(ir.variables.len(), 2);
    assert_eq!(ir.variables[1].name, "return");
    let table = evaluate(&ir, &[("v", 7), ("return", -7)]);
    assert!(all_constraints_hold(&ir, &table));
    let wrong = evaluate(&ir, &[("v", 7), ("return", 7)]);
    assert!(!all_constraints_hold(&ir, &wrong));
}

#[test]
fn signature_errors_come_first() {
    let mut f = weighted_sum_source();
    f.asyncness = Some(11);
    f.unsafety = Some(12);
    assert_eq!(error_of(&f), LowerError { kind: LowerErrorKind::Async, span: 11 });
    f.asyncness = None;
    assert_eq!(error_of(&f), LowerError { kind: LowerErrorKind::Unsafe, span: 12 });
    f.unsafety = None;
    f.abi = Some(13);
    assert_eq!(error_of(&f).kind, LowerErrorKind::Extern);
    f.abi = None;
    f.constness = Some(14);
    assert_eq!(error_of(&f).kind, LowerErrorKind::ConstFn);
    f.constness = None;
    f.generics = Some(15);
    assert_eq!(error_of(&f).kind, LowerErrorKind::Generic);
    f.generics = None;
    f.variadic = Some(16);
    assert_eq!(error_of(&f).kind, LowerErrorKind::Variadic);
    f.variadic = None;
    f.output = Some(SourceType::Path { qself: false, last: Some("String".to_string()), span: 17 });
    let e = error_of(&f);
    assert_eq!(e.span, 17);
    assert_eq!(
        e.message(),
        "return type: `String` is not an integer primitive; #[zk_provable] supports only integer primitives (no heap types, trait objects, or generics)"
    );
}

#[test]
fn parameter_errors_are_reported_in_order() {
    let mut f = weighted_sum_source();
    f.inputs.push(SourceParam::Receiver { span: 21 });
    assert_eq!(error_of(&f), LowerError { kind: LowerErrorKind::Receiver, span: 21 });

    let mut f = weighted_sum_source();
    f.inputs[1] = SourceParam::Typed {
        attrs: vec![SourceAttr { name: Some("inline".to_string()), span: 22 }],
        pat: ident("b", 23),
        ty: int_type("u64"),
    };
    assert_eq!(error_of(&f), LowerError { kind: LowerErrorKind::UnsupportedParamAttr, span: 22 });

    let mut f = weighted_sum_source();
    f.inputs[0] = SourceParam::Typed { attrs: vec![], pat: SourcePat::Other { span: 24 }, ty: int_type("u64") };
    assert_eq!(error_of(&f), LowerError { kind: LowerErrorKind::UnsupportedPattern, span: 24 });

    let mut f = weighted_sum_source();
    f.inputs[2] = SourceParam::Typed { attrs: vec![], pat: ident("k", 25), ty: SourceType::Other { span: 26 } };
    let e = error_of(&f);
    assert_eq!(e, LowerError { kind: LowerErrorKind::UnsupportedType { context: TypeContext::Parameter }, span: 26 });
    assert_eq!(
        e.message(),
        "parameter type: unsupported type; #[zk_provable] supports only integer primitives (no heap types, trait objects, or generics)"
    );
}

#[test]
fn the_last_visibility_attribute_decides() {
    let mut f = weighted_sum_source();
    f.inputs[0] = SourceParam::Typed {
        attrs: vec![SourceAttr { name: Some("secret".to_string()), span: 1 }, SourceAttr { name: Some("public".to_string()), span: 2 }],
        pat: ident("a", 3),
        ty: int_type("u64"),
    };
    f.inputs[1] = SourceParam::Typed {
        attrs: vec![SourceAttr { name: Some("public".to_string()), span: 1 }, SourceAttr { name: Some("secret".to_string()), span: 2 }],
        pat: ident("b", 3),
        ty: int_type("u64"),
    };
    let ir = lowered(&f, "halo2").system;
    assert_eq!(ir.num_public(), 2);
    assert_eq!(ir.num_secret(), 2);
}

#[test]
fn statement_errors_name_what_is_refused() {
    // A name that is not bound.
    let mut f = bounds_check_source();
    f.stmts.push(assert_stmt(bin(SourceBinOp::Ge, path("y"), lit(0))));
    let e = error_of(&f);
    assert_eq!(e.kind, LowerErrorKind::Unresolved { name: "y".to_string() });
    assert_eq!(e.message(), "cannot resolve `y` in #[zk_provable]: only parameters and earlier `let` bindings are visible");

    // Shadowing a parameter.
    let mut f = bounds_check_source();
    f.stmts.push(let_stmt("x", lit(1)));
    assert_eq!(error_of(&f).kind, LowerErrorKind::BoundTwice { name: "x".to_string() });

    // `!=` and an unknown macro.
    let mut f = bounds_check_source();
    f.stmts.push(assert_stmt(bin(SourceBinOp::Ne, path("x"), path("lo"))));
    assert_eq!(error_of(&f), LowerError { kind: LowerErrorKind::NotEqual, span: 102 });
    let mut f = bounds_check_source();
    f.stmts.push(SourceStmt::Macro { mac: mac("println", None, None) });
    let e = error_of(&f);
    assert_eq!(e, LowerError { kind: LowerErrorKind::UnsupportedMacro { name: "println".to_string() }, span: 103 });
    assert_eq!(
        e.message(),
        "macro `println!` is not supported in #[zk_provable] functions (only `assert!` and `assert_eq!` are recognized)"
    );

    // Division, a call, control flow and a nested item.
    let mut f = bounds_check_source();
    f.stmts.push(let_stmt("q", bin(SourceBinOp::Div, path("x"), lit(2))));
    assert_eq!(error_of(&f).kind, LowerErrorKind::DivisionOrRemainder);
    let mut f = bounds_check_source();
    f.stmts.push(let_stmt("s", SourceExpr::Unsupported { kind: UnsupportedExpr::Call, span: 31 }));
    assert_eq!(error_of(&f), LowerError { kind: LowerErrorKind::Call, span: 31 });
    let mut f = bounds_check_source();
    f.stmts.push(SourceStmt::Expr { expr: SourceExpr::Unsupported { kind: UnsupportedExpr::Loop, span: 32 }, semi: false });
    assert_eq!(error_of(&f), LowerError { kind: LowerErrorKind::ControlFlow, span: 32 });
    let mut f = bounds_check_source();
    f.stmts.insert(0, SourceStmt::Item { span: 33 });
    assert_eq!(error_of(&f), LowerError { kind: LowerErrorKind::NestedItem, span: 33 });
}

#[test]
fn return_rules_are_enforced() {
    // A function with a return type must return a value.
    let mut f = weighted_sum_source();
    f.stmts.pop();
    assert_eq!(error_of(&f), LowerError { kind: LowerErrorKind::MissingOutput, span: 1 });
    // ... and only once.
    let mut f = weighted_sum_source();
    f.stmts.push(return_stmt(path("a")));
    assert_eq!(error_of(&f), LowerError { kind: LowerErrorKind::ReturnTwice, span: 100 });
    // A function without one cannot return a value.
    let mut f = bounds_check_source();
    f.stmts.push(return_stmt(path("x")));
    assert_eq!(error_of(&f), LowerError { kind: LowerErrorKind::ReturnWithoutType, span: 107 });
    // A bare `return;` is fine there.
    let mut f = bounds_check_source();
    f.stmts.push(SourceStmt::Expr { expr: SourceExpr::Return { expr: None, span: 40 }, semi: true });
    assert!(lower_function(&f, "halo2").is_ok());
}

#[test]
fn let_forms_outside_the_fragment_are_refused() {
    let mut f = bounds_check_source();
    f.stmts.push(SourceStmt::Local { attrs: vec![41], pat: ident("z", 42), init: Some(SourceInit { expr: lit(0), diverge: false }), span: 43 });
    assert_eq!(error_of(&f), LowerError { kind: LowerErrorKind::LetAttributes, span: 41 });
    let mut f = bounds_check_source();
    f.stmts.push(SourceStmt::Local { attrs: vec![], pat: ident("z", 42), init: None, span: 43 });
    assert_eq!(error_of(&f), LowerError { kind: LowerErrorKind::UninitializedLet, span: 43 });
    let mut f = bounds_check_source();
    f.stmts.push(SourceStmt::Local {
        attrs: vec![],
        pat: SourcePat::Ident { name: "z".to_string(), by_ref: false, subpat: false, mutability: Some(44), name_span: 42, span: 42 },
        init: Some(SourceInit { expr: lit(0), diverge: false }),
        span: 43,
    });
    assert_eq!(error_of(&f), LowerError { kind: LowerErrorKind::MutBinding, span: 44 });
    let mut f = bounds_check_source();
    f.stmts.push(SourceStmt::Local { attrs: vec![], pat: ident("z", 42), init: Some(SourceInit { expr: lit(0), diverge: true }), span: 43 });
    assert_eq!(error_of(&f), LowerError { kind: LowerErrorKind::LetElse, span: 101 });
}

#[test]
fn circuit_names_are_pascal_case() {
    assert_eq!(pascal_case("prove_balance_transfer"), "ProveBalanceTransfer");
    assert_eq!(pascal_case("weighted_sum"), "WeightedSum");
    assert_eq!(pascal_case("__x__y"), "XY");
    assert_eq!(pascal_case("already"), "Already");
    assert_eq!(pascal_case("_"), "ZkCircuit");
    assert_eq!(pascal_case(""), "ZkCircuit");
}

#[test]
fn lowered_r1cs_accepts_honest_witnesses_exactly_when_the_function_holds() {
    let ir = lowered(&weighted_sum_source(), "arkworks").system;
    let r1cs = lower_r1cs(&ir);
    for (a, b, k) in [(2i64, 3i64, 4i64), (0, 9, 1), (31, 7, 5)] {
        let expected = weighted_sum(a as u64, b as u64, k as u64) as i64;
        for claimed in [expected, expected + 1] {
            let table = evaluate(&ir, &[("a", a), ("b", b), ("k", k), ("return", claimed)]);
            let mut witness = vec![1];
            witness.extend(table.iter().copied());
            assert_eq!(r1cs.evaluate(&witness).is_ok(), claimed == expected);
        }
    }
    let ir = lowered(&bounds_check_source(), "sp1").system;
    let r1cs = lower_r1cs(&ir);
    for (x, lo, hi) in [(5i64, 0i64, 10i64), (-1, 0, 10), (11, 0, 10), (10, 10, 10)] {
        let table = evaluate(&ir, &[("x", x), ("lo", lo), ("hi", hi)]);
        let mut witness = vec![1];
        witness.extend(table.iter().copied());
        assert_eq!(r1cs.evaluate(&witness).is_ok(), x >= lo && x <= hi);
    }
}

fn with_stmt(st: SourceStmt) -> LowerError {
    let mut f = bounds_check_source();
    f.stmts.push(st);
    error_of(&f)
}

fn let_of(e: SourceExpr) -> SourceStmt {
    let_stmt("fresh", e)
}

fn unsupported(kind: UnsupportedExpr) -> SourceExpr {
    SourceExpr::Unsupported { kind, span: 60 }
}

#[test]
fn every_expression_form_outside_the_fragment_is_named() {
    let cases = [
        (UnsupportedExpr::MethodCall, LowerErrorKind::MethodCall),
        (UnsupportedExpr::Field, LowerErrorKind::Field),
        (UnsupportedExpr::Index, LowerErrorKind::Index),
        (UnsupportedExpr::Closure, LowerErrorKind::Closure),
        (UnsupportedExpr::Assign, LowerErrorKind::Assign),
        (UnsupportedExpr::Reference, LowerErrorKind::Reference),
        (UnsupportedExpr::Cast, LowerErrorKind::Cast),
        (UnsupportedExpr::Conditional, LowerErrorKind::Conditional),
        (UnsupportedExpr::Loop, LowerErrorKind::Loop),
        (UnsupportedExpr::Other, LowerErrorKind::UnsupportedExpression),
    ];
    for (form, kind) in cases {
        assert_eq!(with_stmt(let_of(unsupported(form))), LowerError { kind, span: 60 });
    }
    let qualified = SourceExpr::Path { name: "MAX".to_string(), simple: false, span: 61 };
    assert_eq!(with_stmt(let_of(qualified)), LowerError { kind: LowerErrorKind::NonSimplePath, span: 61 });
    let big = SourceExpr::Lit { lit: SourceLit::Int(None), span: 62 };
    assert_eq!(with_stmt(let_of(big)), LowerError { kind: LowerErrorKind::LiteralOverflow, span: 62 });
    let text = SourceExpr::Lit { lit: SourceLit::Other, span: 63 };
    assert_eq!(with_stmt(let_of(text)), LowerError { kind: LowerErrorKind::NonIntegerLiteral, span: 63 });
    let not = SourceExpr::Unary { op: SourceUnOp::Other, expr: Box::new(path("x")), span: 64 };
    assert_eq!(with_stmt(let_of(not)), LowerError { kind: LowerErrorKind::UnsupportedUnary, span: 64 });
    let shift = SourceExpr::Binary { op: SourceBinOp::Other, left: Box::new(path("x")), right: Box::new(lit(1)), span: 65 };
    assert_eq!(with_stmt(let_of(shift)), LowerError { kind: LowerErrorKind::UnsupportedBinary, span: 65 });
    let rem = SourceExpr::Binary { op: SourceBinOp::Rem, left: Box::new(path("x")), right: Box::new(lit(2)), span: 66 };
    assert_eq!(with_stmt(let_of(rem)), LowerError { kind: LowerErrorKind::DivisionOrRemainder, span: 66 });
    let ret = SourceExpr::Return { expr: None, span: 67 };
    assert_eq!(with_stmt(let_of(ret)), LowerError { kind: LowerErrorKind::ReturnSubExpression, span: 67 });
    let inner = SourceExpr::Macro { mac: mac("vec", None, None) };
    assert_eq!(with_stmt(let_of(inner)), LowerError { kind: LowerErrorKind::UnsupportedExpression, span: 104 });
    // The left operand's error comes before the right one's.
    let both = bin(SourceBinOp::Add, path("nope"), unsupported(UnsupportedExpr::Call));
    assert_eq!(with_stmt(let_of(both)).kind, LowerErrorKind::Unresolved { name: "nope".to_string() });
}

#[test]
fn macro_forms_outside_the_fragment_are_named() {
    let nameless = SourceMacro { name: None, name_span: 70, span: 71, one: None, two: None };
    assert_eq!(with_stmt(SourceStmt::Macro { mac: nameless }), LowerError { kind: LowerErrorKind::EmptyMacroPath, span: 71 });
    assert_eq!(
        with_stmt(SourceStmt::Macro { mac: mac("assert", None, None) }),
        LowerError { kind: LowerErrorKind::AssertArgs, span: 104 }
    );
    assert_eq!(with_stmt(assert_stmt(path("x"))), LowerError { kind: LowerErrorKind::AssertNotComparison, span: 100 });
    assert_eq!(
        with_stmt(SourceStmt::Macro { mac: mac("assert_eq", Some(path("x")), None) }),
        LowerError { kind: LowerErrorKind::AssertEqArgs, span: 104 }
    );
    assert_eq!(
        with_stmt(assert_stmt(bin(SourceBinOp::Add, path("x"), path("lo")))),
        LowerError { kind: LowerErrorKind::UnsupportedComparison, span: 102 }
    );
    let e = with_stmt(assert_stmt(bin(SourceBinOp::Mul, path("x"), path("lo"))));
    assert_eq!(e.message(), "the comparison in `assert!` must be one of `>`, `>=`, `<`, `<=` or `==`");
}

#[test]
fn statement_forms_outside_the_fragment_are_named() {
    // A non-final expression statement.
    let mut f = bounds_check_source();
    f.stmts.insert(0, SourceStmt::Expr { expr: path("x"), semi: true });
    assert_eq!(error_of(&f), LowerError { kind: LowerErrorKind::ExpressionStatement, span: 100 });
    // A tail expression where nothing is returned.
    assert_eq!(
        with_stmt(SourceStmt::Expr { expr: path("x"), semi: false }),
        LowerError { kind: LowerErrorKind::TailWithoutReturnType, span: 100 }
    );
    // A bare `return;` where a value is owed.
    let mut f = weighted_sum_source();
    f.stmts.insert(0, SourceStmt::Expr { expr: SourceExpr::Return { expr: None, span: 72 }, semi: true });
    assert_eq!(error_of(&f), LowerError { kind: LowerErrorKind::MissingReturnValue, span: 72 });
    // A `let` that binds a pattern rather than a name.
    let st = SourceStmt::Local {
        attrs: vec![],
        pat: SourcePat::Ident { name: "r".to_string(), by_ref: true, subpat: false, mutability: None, name_span: 73, span: 74 },
        init: Some(SourceInit { expr: lit(0), diverge: false }),
        span: 75,
    };
    assert_eq!(with_stmt(st), LowerError { kind: LowerErrorKind::UnsupportedPattern, span: 74 });
    // A parameter of a non-integer type.
    let mut f = bounds_check_source();
    f.inputs[1] = param(Some("public"), "lo", "f64");
    let e = error_of(&f);
    assert_eq!(e.kind, LowerErrorKind::NotIntegerPrimitive { context: TypeContext::Parameter, name: "f64".to_string() });
    assert_eq!(e.span, 900);
}

#[test]
fn constraint_kinds_follow_the_statements() {
    let ir = lowered(&bounds_check_source(), "sp1").system;
    assert_eq!(ir.constraints.len(), 3);
    let f = function(
        "mixed",
        vec![param(None, "p", "i64"), param(None, "q", "i64")],
        Some("i64"),
        vec![
            assert_eq_stmt(path("p"), path("q")),
            assert_stmt(bin(SourceBinOp::Lt, path("p"), lit(10))),
            assert_stmt(bin(SourceBinOp::Eq, path("q"), lit(3))),
            return_stmt(bin(SourceBinOp::Mul, path("p"), path("q"))),
        ],
    );
    let ir = lowered(&f, "halo2").system;
    let shape: Vec<u8> = ir
        .constraints
        .iter()
        .map(|c| match c {
            Constraint::Zero(_) => 0,
            Constraint::Equal(_, _) => 1,
            Constraint::NonNegative(_) => 2,
        })
        .collect();
    assert_eq!(shape, vec![1, 2, 1, 1]);
}

fn sub_operands(ir: &ConstraintSystem, e: usize) -> (usize, usize) {
    match ir.exprs[e] {
        Expr::Sub(l, r) => (l, r),
        _ => panic!("expected a difference"),
    }
}

#[test]
fn emitted_comparisons_pass_the_circuit_check() {
    let ir = lowered(&bounds_check_source(), "sp1").system;
    let table = normalize_all(&ir);
    // x >= lo: NonNegative(x - lo)
    let c0 = ir.constraints[0];
    let Constraint::NonNegative(e0) = c0 else { panic!("expected NonNegative") };
    let (x, lo) = sub_operands(&ir, e0);
    assert_eq!(check_comparison(&table, &c0, Comparison::Ge, x, lo), Ok(()));
    assert!(check_comparison(&table, &c0, Comparison::Gt, x, lo).is_err());
    // x <= hi: NonNegative(hi - x)
    let c1 = ir.constraints[1];
    let Constraint::NonNegative(e1) = c1 else { panic!("expected NonNegative") };
    let (hi, x1) = sub_operands(&ir, e1);
    assert_eq!(check_comparison(&table, &c1, Comparison::Le, x1, hi), Ok(()));
    // x < hi + 1: NonNegative((hi + 1 - x) - 1)
    let c2 = ir.constraints[2];
    let Constraint::NonNegative(e2) = c2 else { panic!("expected NonNegative") };
    let (d, one) = sub_operands(&ir, e2);
    assert_eq!(ir.exprs[one], Expr::Const(1));
    let (hi1, x2) = sub_operands(&ir, d);
    assert_eq!(check_comparison(&table, &c2, Comparison::Lt, x2, hi1), Ok(()));
    assert!(check_comparison(&table, &c2, Comparison::Le, x2, hi1).is_err());
}

#[test]
fn equality_assertions_become_equal_constraints_on_their_operands() {
    let f = function(
        "eq",
        vec![param(None, "p", "i32"), param(None, "q", "i32")],
        None,
        vec![
            assert_stmt(bin(SourceBinOp::Eq, path("p"), bin(SourceBinOp::Add, path("q"), lit(1)))),
            assert_eq_stmt(path("q"), path("p")),
        ],
    );
    let ir = lowered(&f, "halo2").system;
    let table = normalize_all(&ir);
    let p = ir.variable_id("p").unwrap();
    let q = ir.variable_id("q").unwrap();
    let Constraint::Equal(l, r) = ir.constraints[0] else { panic!("expected Equal") };
    assert_eq!(l, p);
    assert_eq!(check_comparison(&table, &ir.constraints[0], Comparison::Eq, l, r), Ok(()));
    assert_eq!(ir.constraints[1], Constraint::Equal(q, p));
}

#[test]
fn output_constraint_equates_the_output_with_the_returned_value() {
    let ir = lowered(&weighted_sum_source(), "arkworks").system;
    let out = ir.variable_id("return").expect("return output declared");
    let Constraint::Equal(o, v) = ir.constraints[0] else { panic!("expected Equal") };
    assert_eq!(o, out);
    for (a, b, k) in [(0i64, 0i64, 0i64), (1, 2, 3), (999, 998, 997)] {
        let table = evaluate(&ir, &[("a", a), ("b", b), ("k", k)]);
        assert_eq!(table[v], a * k + b);
        assert_eq!(table[o], 0);
    }
}
