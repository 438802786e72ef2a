//! Lowering a straight-line integer function into a [`ConstraintSystem`]:
//! parameters become public or secret inputs, `let` bindings name
//! expressions, `assert!` comparisons and `assert_eq!` become constraints,
//! and a returned value becomes the public output `return`.
use vstd::prelude::*;

use crate::check::{
    comparison_holds, constraint_holds, constraint_in_range, diff_view, expected_view, expr_terms, expr_value, exprs_ordered, found_view,
    one_view, vars_in_range, views, Comparison,
};
use crate::poly::Polynomial;
use crate::circuit::{Constraint, ConstraintSystem, ConstraintSystemBuilder, Expr, ExprId, Visibility};
use crate::r1cs::{
    constraint_assertions, gates_match_raw, honest_witness, law_r1cs_honest_witness_accepted_iff_constraints_hold, lowerable,
    raw_gates, R1CS,
};
use crate::lower_ast::{
    SourceAttr, SourceBinOp, SourceExpr, SourceFn, SourceInit, SourceLit, SourceMacro, SourceParam,
    SourcePat, SourceStmt, SourceType, SourceUnOp, Span, UnsupportedExpr,
};

verus! {

/// Where a type appears, for diagnostics.
#[derive(Clone, Copy, Debug, PartialEq, Eq, Structural)]
pub enum TypeContext {
    /// A parameter's type.
    Parameter,
    /// The return type.
    Return,
}

/// The text naming a type context.
pub open spec fn context_text(c: TypeContext) -> Seq<char> {
    match c {
        TypeContext::Parameter => "parameter type"@,
        TypeContext::Return => "return type"@,
    }
}

/// Why lowering rejected a function.
#[derive(Clone, Debug, PartialEq, Eq)]
pub enum LowerErrorKind {
    /// The function takes `self`.
    Receiver,
    /// A parameter attribute other than `public` or `secret`.
    UnsupportedParamAttr,
    /// A pattern that is not a plain name.
    UnsupportedPattern,
    /// A nested item.
    NestedItem,
    /// An attribute on a `let`.
    LetAttributes,
    /// A `let` without initializer.
    UninitializedLet,
    /// A `let ... else`.
    LetElse,
    /// A `mut` binding.
    MutBinding,
    /// A control-flow statement.
    ControlFlow,
    /// A tail expression in a function without return type.
    TailWithoutReturnType,
    /// An expression statement that is not the tail.
    ExpressionStatement,
    /// `return <expr>` without a return type.
    ReturnWithoutType,
    /// A bare `return` in a function with a return type.
    MissingReturnValue,
    /// A second return value.
    ReturnTwice,
    /// A macro with an empty path.
    EmptyMacroPath,
    /// `assert!` arguments that are not one expression.
    AssertArgs,
    /// `assert!` of something other than a binary expression.
    AssertNotComparison,
    /// `assert_eq!` arguments that are not two expressions.
    AssertEqArgs,
    /// An `assert!` of `!=`.
    NotEqual,
    /// An `assert!` of another binary operator.
    UnsupportedComparison,
    /// A qualified path.
    NonSimplePath,
    /// An integer literal beyond `i64`.
    LiteralOverflow,
    /// A literal that is not an integer.
    NonIntegerLiteral,
    /// A unary operator other than `-`.
    UnsupportedUnary,
    /// `/` or `%`.
    DivisionOrRemainder,
    /// Another binary operator in arithmetic.
    UnsupportedBinary,
    /// A function call.
    Call,
    /// A method call.
    MethodCall,
    /// A field access.
    Field,
    /// An indexing expression.
    Index,
    /// A closure.
    Closure,
    /// An assignment.
    Assign,
    /// A reference.
    Reference,
    /// A cast.
    Cast,
    /// `if` or `match` inside an expression.
    Conditional,
    /// A loop inside an expression.
    Loop,
    /// `return` inside an expression.
    ReturnSubExpression,
    /// Any other expression.
    UnsupportedExpression,
    /// An `async` function.
    Async,
    /// An `unsafe` function.
    Unsafe,
    /// An `extern` function.
    Extern,
    /// A `const fn`.
    ConstFn,
    /// A generic function.
    Generic,
    /// A variadic function.
    Variadic,
    /// A function with return type but no return value.
    MissingOutput,
    /// A parameter or return type that names a non-integer type.
    NotIntegerPrimitive { context: TypeContext, name: String },
    /// A parameter or return type that is not a path.
    UnsupportedType { context: TypeContext },
    /// A second `let` of a name already bound.
    BoundTwice { name: String },
    /// A macro other than `assert!` and `assert_eq!`.
    UnsupportedMacro { name: String },
    /// A name that is neither a parameter nor an earlier binding.
    Unresolved { name: String },
}

/// The text of a fixed error message.
pub open spec fn fixed_message(kind: LowerErrorKind) -> Seq<char> {
    match kind {
        LowerErrorKind::Receiver => "#[zk_provable] functions cannot take `self`; they must be free functions"@,
        LowerErrorKind::UnsupportedParamAttr => "unsupported parameter attribute; #[zk_provable] recognizes `#[public]` and `#[secret]`"@,
        LowerErrorKind::UnsupportedPattern => "unsupported pattern; #[zk_provable] functions only bind simple named variables"@,
        LowerErrorKind::NestedItem => "nested items are not supported inside #[zk_provable] functions"@,
        LowerErrorKind::LetAttributes => "attributes on `let` bindings are not supported in #[zk_provable] functions"@,
        LowerErrorKind::UninitializedLet => "uninitialized `let` bindings are not supported; every binding must be a pure arithmetic expression"@,
        LowerErrorKind::LetElse => "`let ... else` is not supported in #[zk_provable] functions"@,
        LowerErrorKind::MutBinding => "`mut` bindings are not supported; #[zk_provable] functions are a pure expression DAG"@,
        LowerErrorKind::ControlFlow => "control flow is not supported in #[zk_provable] functions; only straight-line arithmetic is allowed"@,
        LowerErrorKind::TailWithoutReturnType => "an expression statement is only supported as the function's return value"@,
        LowerErrorKind::ExpressionStatement => "expression statements are not supported in #[zk_provable] functions"@,
        LowerErrorKind::ReturnWithoutType => "this function has no return type, so it cannot return a value"@,
        LowerErrorKind::MissingReturnValue => "this function must return a value of its declared type"@,
        LowerErrorKind::ReturnTwice => "#[zk_provable] functions may return exactly once"@,
        LowerErrorKind::EmptyMacroPath => "empty macro path"@,
        LowerErrorKind::AssertArgs => "`assert!` in #[zk_provable] takes exactly one comparison; format messages are not supported"@,
        LowerErrorKind::AssertNotComparison => "`assert!` in #[zk_provable] must contain a comparison such as `a >= b`"@,
        LowerErrorKind::AssertEqArgs => "`assert_eq!` in #[zk_provable] takes exactly two arguments"@,
        LowerErrorKind::NotEqual => "`!=` cannot be expressed as an arithmetic constraint; use a range check or equality instead"@,
        LowerErrorKind::UnsupportedComparison => "the comparison in `assert!` must be one of `>`, `>=`, `<`, `<=` or `==`"@,
        LowerErrorKind::NonSimplePath => "only simple local variables and parameters may be referenced in #[zk_provable] functions"@,
        LowerErrorKind::LiteralOverflow => "integer literal does not fit the IR's scalar model (i64)"@,
        LowerErrorKind::NonIntegerLiteral => "only integer literals are supported in #[zk_provable] arithmetic"@,
        LowerErrorKind::UnsupportedUnary => "only unary negation is supported in #[zk_provable] arithmetic"@,
        LowerErrorKind::DivisionOrRemainder => "division and remainder are not supported as circuit arithmetic; express them as multiplication by a public/secret inverse explicitly"@,
        LowerErrorKind::UnsupportedBinary => "only `+`, `-` and `*` are supported in #[zk_provable] arithmetic"@,
        LowerErrorKind::Call => "function calls are not supported in #[zk_provable] functions (this includes heap allocation such as `String::new()` or `vec![]`)"@,
        LowerErrorKind::MethodCall => "method calls are not supported in #[zk_provable] functions"@,
        LowerErrorKind::Field => "field access is not supported in #[zk_provable] functions"@,
        LowerErrorKind::Index => "indexing is not supported in #[zk_provable] functions (there is no heap data on the circuit)"@,
        LowerErrorKind::Closure => "closures are not supported in #[zk_provable] functions"@,
        LowerErrorKind::Assign => "mutation is not supported in #[zk_provable] functions; bind a new value with `let` instead"@,
        LowerErrorKind::Reference => "references are not supported in #[zk_provable] functions"@,
        LowerErrorKind::Cast => "casts are not supported in #[zk_provable] functions; use matching integer types"@,
        LowerErrorKind::Conditional => "conditional logic is not supported in #[zk_provable] functions; it cannot be represented as straight-line arithmetic constraints"@,
        LowerErrorKind::Loop => "loops are not supported in #[zk_provable] functions (dynamic bounds cannot be lowered to a fixed circuit)"@,
        LowerErrorKind::ReturnSubExpression => "`return` may not be used as a sub-expression in #[zk_provable] functions"@,
        LowerErrorKind::UnsupportedExpression => "unsupported expression in #[zk_provable] function; only integer arithmetic over `+`, `-`, `*` and literals is allowed"@,
        LowerErrorKind::Async => "`async` functions cannot be circuits"@,
        LowerErrorKind::Unsafe => "`unsafe` functions cannot be circuits"@,
        LowerErrorKind::Extern => "`extern` functions cannot be circuits"@,
        LowerErrorKind::ConstFn => "`const fn` cannot be a circuit"@,
        LowerErrorKind::Generic => "generic #[zk_provable] functions are not supported; the circuit must be monomorphic"@,
        LowerErrorKind::Variadic => "variadic functions cannot be circuits"@,
        LowerErrorKind::MissingOutput => "this function must end with a `return <expr>;` or a trailing expression to become a public output"@,
        _ => Seq::empty(),
    }
}

fn fixed_message_text(kind: &LowerErrorKind) -> (r: &'static str)
    ensures r@ == fixed_message(*kind),
{
    proof { reveal_strlit(""); }
    match kind {
        LowerErrorKind::Receiver => "#[zk_provable] functions cannot take `self`; they must be free functions",
        LowerErrorKind::UnsupportedParamAttr => "unsupported parameter attribute; #[zk_provable] recognizes `#[public]` and `#[secret]`",
        LowerErrorKind::UnsupportedPattern => "unsupported pattern; #[zk_provable] functions only bind simple named variables",
        LowerErrorKind::NestedItem => "nested items are not supported inside #[zk_provable] functions",
        LowerErrorKind::LetAttributes => "attributes on `let` bindings are not supported in #[zk_provable] functions",
        LowerErrorKind::UninitializedLet => "uninitialized `let` bindings are not supported; every binding must be a pure arithmetic expression",
        LowerErrorKind::LetElse => "`let ... else` is not supported in #[zk_provable] functions",
        LowerErrorKind::MutBinding => "`mut` bindings are not supported; #[zk_provable] functions are a pure expression DAG",
        LowerErrorKind::ControlFlow => "control flow is not supported in #[zk_provable] functions; only straight-line arithmetic is allowed",
        LowerErrorKind::TailWithoutReturnType => "an expression statement is only supported as the function's return value",
        LowerErrorKind::ExpressionStatement => "expression statements are not supported in #[zk_provable] functions",
        LowerErrorKind::ReturnWithoutType => "this function has no return type, so it cannot return a value",
        LowerErrorKind::MissingReturnValue => "this function must return a value of its declared type",
        LowerErrorKind::ReturnTwice => "#[zk_provable] functions may return exactly once",
        LowerErrorKind::EmptyMacroPath => "empty macro path",
        LowerErrorKind::AssertArgs => "`assert!` in #[zk_provable] takes exactly one comparison; format messages are not supported",
        LowerErrorKind::AssertNotComparison => "`assert!` in #[zk_provable] must contain a comparison such as `a >= b`",
        LowerErrorKind::AssertEqArgs => "`assert_eq!` in #[zk_provable] takes exactly two arguments",
        LowerErrorKind::NotEqual => "`!=` cannot be expressed as an arithmetic constraint; use a range check or equality instead",
        LowerErrorKind::UnsupportedComparison => "the comparison in `assert!` must be one of `>`, `>=`, `<`, `<=` or `==`",
        LowerErrorKind::NonSimplePath => "only simple local variables and parameters may be referenced in #[zk_provable] functions",
        LowerErrorKind::LiteralOverflow => "integer literal does not fit the IR's scalar model (i64)",
        LowerErrorKind::NonIntegerLiteral => "only integer literals are supported in #[zk_provable] arithmetic",
        LowerErrorKind::UnsupportedUnary => "only unary negation is supported in #[zk_provable] arithmetic",
        LowerErrorKind::DivisionOrRemainder => "division and remainder are not supported as circuit arithmetic; express them as multiplication by a public/secret inverse explicitly",
        LowerErrorKind::UnsupportedBinary => "only `+`, `-` and `*` are supported in #[zk_provable] arithmetic",
        LowerErrorKind::Call => "function calls are not supported in #[zk_provable] functions (this includes heap allocation such as `String::new()` or `vec![]`)",
        LowerErrorKind::MethodCall => "method calls are not supported in #[zk_provable] functions",
        LowerErrorKind::Field => "field access is not supported in #[zk_provable] functions",
        LowerErrorKind::Index => "indexing is not supported in #[zk_provable] functions (there is no heap data on the circuit)",
        LowerErrorKind::Closure => "closures are not supported in #[zk_provable] functions",
        LowerErrorKind::Assign => "mutation is not supported in #[zk_provable] functions; bind a new value with `let` instead",
        LowerErrorKind::Reference => "references are not supported in #[zk_provable] functions",
        LowerErrorKind::Cast => "casts are not supported in #[zk_provable] functions; use matching integer types",
        LowerErrorKind::Conditional => "conditional logic is not supported in #[zk_provable] functions; it cannot be represented as straight-line arithmetic constraints",
        LowerErrorKind::Loop => "loops are not supported in #[zk_provable] functions (dynamic bounds cannot be lowered to a fixed circuit)",
        LowerErrorKind::ReturnSubExpression => "`return` may not be used as a sub-expression in #[zk_provable] functions",
        LowerErrorKind::UnsupportedExpression => "unsupported expression in #[zk_provable] function; only integer arithmetic over `+`, `-`, `*` and literals is allowed",
        LowerErrorKind::Async => "`async` functions cannot be circuits",
        LowerErrorKind::Unsafe => "`unsafe` functions cannot be circuits",
        LowerErrorKind::Extern => "`extern` functions cannot be circuits",
        LowerErrorKind::ConstFn => "`const fn` cannot be a circuit",
        LowerErrorKind::Generic => "generic #[zk_provable] functions are not supported; the circuit must be monomorphic",
        LowerErrorKind::Variadic => "variadic functions cannot be circuits",
        LowerErrorKind::MissingOutput => "this function must end with a `return <expr>;` or a trailing expression to become a public output",
        _ => "",
    }
}

/// A lowering error: what was rejected, and where.
#[derive(Clone, Debug, PartialEq, Eq)]
pub struct LowerError {
    /// What was rejected.
    pub kind: LowerErrorKind,
    /// Where.
    pub span: Span,
}

impl LowerError {
    /// The diagnostic text of the error.
    pub open spec fn message_text(&self) -> Seq<char> {
        match self.kind {
            LowerErrorKind::NotIntegerPrimitive { context, name } => context_text(context) + ": `"@ + name@
                + "` is not an integer primitive; #[zk_provable] supports only integer primitives (no heap types, trait objects, or generics)"@,
            LowerErrorKind::UnsupportedType { context } => context_text(context)
                + ": unsupported type; #[zk_provable] supports only integer primitives (no heap types, trait objects, or generics)"@,
            LowerErrorKind::BoundTwice { name } => "variable `"@ + name@
                + "` is bound more than once; shadowing is not supported in #[zk_provable] functions"@,
            LowerErrorKind::UnsupportedMacro { name } => "macro `"@ + name@
                + "!` is not supported in #[zk_provable] functions (only `assert!` and `assert_eq!` are recognized)"@,
            LowerErrorKind::Unresolved { name } => "cannot resolve `"@ + name@
                + "` in #[zk_provable]: only parameters and earlier `let` bindings are visible"@,
            _ => fixed_message(self.kind),
        }
    }

    /// The diagnostic text of the error.
    pub fn message(&self) -> (r: String)
        ensures r@ == self.message_text(),
    {
        let mut out = String::new();
        match &self.kind {
            LowerErrorKind::NotIntegerPrimitive { context, name } => {
                out.append(context_str(*context));
                out.append(": `");
                out.append(name.as_str());
                out.append("` is not an integer primitive; #[zk_provable] supports only integer primitives (no heap types, trait objects, or generics)");
            },
            LowerErrorKind::UnsupportedType { context } => {
                out.append(context_str(*context));
                out.append(": unsupported type; #[zk_provable] supports only integer primitives (no heap types, trait objects, or generics)");
            },
            LowerErrorKind::BoundTwice { name } => {
                out.append("variable `");
                out.append(name.as_str());
                out.append("` is bound more than once; shadowing is not supported in #[zk_provable] functions");
            },
            LowerErrorKind::UnsupportedMacro { name } => {
                out.append("macro `");
                out.append(name.as_str());
                out.append("!` is not supported in #[zk_provable] functions (only `assert!` and `assert_eq!` are recognized)");
            },
            LowerErrorKind::Unresolved { name } => {
                out.append("cannot resolve `");
                out.append(name.as_str());
                out.append("` in #[zk_provable]: only parameters and earlier `let` bindings are visible");
            },
            _ => {
                out.append(fixed_message_text(&self.kind));
            },
        }
        proof { reveal_strlit(""); }
        assert(out@ =~= self.message_text());
        out
    }
}

fn context_str(c: TypeContext) -> (r: &'static str)
    ensures r@ == context_text(c),
{
    match c {
        TypeContext::Parameter => "parameter type",
        TypeContext::Return => "return type",
    }
}

fn err<T>(kind: LowerErrorKind, span: Span) -> (r: Result<T, LowerError>)
    ensures r == Err::<T, LowerError>(LowerError { kind, span }),
{
    Err(LowerError { kind, span })
}


/// The expression a name is bound to: the last binding of that name.
pub open spec fn lookup_env(env: Seq<(Seq<char>, ExprId)>, name: Seq<char>) -> Option<ExprId>
    decreases env.len(),
{
    if env.len() == 0 {
        None
    } else if env.last().0 == name {
        Some(env.last().1)
    } else {
        lookup_env(env.drop_last(), name)
    }
}

/// The binary operators that circuit arithmetic accepts.
pub open spec fn arith_op(op: SourceBinOp) -> bool {
    op == SourceBinOp::Add || op == SourceBinOp::Sub || op == SourceBinOp::Mul
}

/// The names an environment binds.
pub open spec fn env_names(env: Seq<(Seq<char>, ExprId)>) -> Set<Seq<char>> {
    Set::new(|name: Seq<char>| lookup_env(env, name) is Some)
}

/// The expression is in the arithmetic fragment, with every name in `names`.
pub open spec fn expr_supported(e: SourceExpr, names: Set<Seq<char>>) -> bool
    decreases e,
{
    match e {
        SourceExpr::Path { name, simple, .. } => simple && names.contains(name@),
        SourceExpr::Lit { lit, .. } => lit matches SourceLit::Int(Some(_)),
        SourceExpr::Paren { expr, .. } => expr_supported(*expr, names),
        SourceExpr::Unary { op, expr, .. } => op == SourceUnOp::Neg && expr_supported(*expr, names),
        SourceExpr::Binary { op, left, right, .. } => arith_op(op) && expr_supported(*left, names)
            && expr_supported(*right, names),
        _ => false,
    }
}

/// The error an unsupported kind of expression is rejected with.
pub open spec fn unsupported_kind_error(kind: UnsupportedExpr) -> LowerErrorKind {
    match kind {
        UnsupportedExpr::Call => LowerErrorKind::Call,
        UnsupportedExpr::MethodCall => LowerErrorKind::MethodCall,
        UnsupportedExpr::Field => LowerErrorKind::Field,
        UnsupportedExpr::Index => LowerErrorKind::Index,
        UnsupportedExpr::Closure => LowerErrorKind::Closure,
        UnsupportedExpr::Assign => LowerErrorKind::Assign,
        UnsupportedExpr::Reference => LowerErrorKind::Reference,
        UnsupportedExpr::Cast => LowerErrorKind::Cast,
        UnsupportedExpr::Conditional => LowerErrorKind::Conditional,
        UnsupportedExpr::Loop => LowerErrorKind::Loop,
        UnsupportedExpr::Other => LowerErrorKind::UnsupportedExpression,
    }
}

/// The first error met when compiling an expression outside the fragment,
/// visiting operators before their operands and left operands first.
pub open spec fn expr_error(e: SourceExpr, names: Set<Seq<char>>) -> LowerError
    decreases e,
{
    match e {
        SourceExpr::Path { name, simple, span } => if !simple {
            LowerError { kind: LowerErrorKind::NonSimplePath, span }
        } else {
            LowerError { kind: LowerErrorKind::Unresolved { name }, span }
        },
        SourceExpr::Lit { lit, span } => match lit {
            SourceLit::Int(None) => LowerError { kind: LowerErrorKind::LiteralOverflow, span },
            _ => LowerError { kind: LowerErrorKind::NonIntegerLiteral, span },
        },
        SourceExpr::Paren { expr, .. } => expr_error(*expr, names),
        SourceExpr::Unary { op, expr, span } => if op != SourceUnOp::Neg {
            LowerError { kind: LowerErrorKind::UnsupportedUnary, span }
        } else {
            expr_error(*expr, names)
        },
        SourceExpr::Binary { op, left, right, span } => if op == SourceBinOp::Div || op == SourceBinOp::Rem {
            LowerError { kind: LowerErrorKind::DivisionOrRemainder, span }
        } else if !arith_op(op) {
            LowerError { kind: LowerErrorKind::UnsupportedBinary, span }
        } else if !expr_supported(*left, names) {
            expr_error(*left, names)
        } else {
            expr_error(*right, names)
        },
        SourceExpr::Return { span, .. } => LowerError { kind: LowerErrorKind::ReturnSubExpression, span },
        SourceExpr::Macro { mac } => LowerError { kind: LowerErrorKind::UnsupportedExpression, span: mac.span },
        SourceExpr::Unsupported { kind, span } => LowerError { kind: unsupported_kind_error(kind), span },
    }
}

/// The integer value of an expression when each name has value `vals(name)`.
pub open spec fn src_value(e: SourceExpr, vals: spec_fn(Seq<char>) -> int) -> int
    decreases e,
{
    match e {
        SourceExpr::Path { name, .. } => vals(name@),
        SourceExpr::Lit { lit, .. } => match lit {
            SourceLit::Int(Some(v)) => v as int,
            _ => 0,
        },
        SourceExpr::Paren { expr, .. } => src_value(*expr, vals),
        SourceExpr::Unary { expr, .. } => -src_value(*expr, vals),
        SourceExpr::Binary { op, left, right, .. } => if op == SourceBinOp::Add {
            src_value(*left, vals) + src_value(*right, vals)
        } else if op == SourceBinOp::Sub {
            src_value(*left, vals) - src_value(*right, vals)
        } else {
            src_value(*left, vals) * src_value(*right, vals)
        },
        _ => 0,
    }
}

/// The values of the bound names, when the circuit's variables have values `x`.
pub open spec fn env_vals(env: Seq<(Seq<char>, ExprId)>, exprs: Seq<Expr>, x: spec_fn(usize) -> int) -> spec_fn(Seq<char>) -> int {
    |name: Seq<char>| match lookup_env(env, name) {
        Some(id) => expr_value(exprs, id as int, x),
        None => 0,
    }
}

/// Appending expressions leaves the values of earlier ones unchanged.
pub proof fn lemma_expr_value_prefix(ex1: Seq<Expr>, ex2: Seq<Expr>, j: int, x: spec_fn(usize) -> int)
    requires
        ex1.len() <= ex2.len(),
        ex2.take(ex1.len() as int) == ex1,
        0 <= j < ex1.len(),
    ensures expr_value(ex2, j, x) == expr_value(ex1, j, x),
    decreases j,
{
    assert(ex2[j] == ex1[j]);
    match ex1[j] {
        Expr::Add(l, r) | Expr::Sub(l, r) | Expr::Mul(l, r) => {
            if l < j && r < j {
                lemma_expr_value_prefix(ex1, ex2, l as int, x);
                lemma_expr_value_prefix(ex1, ex2, r as int, x);
            }
        },
        Expr::Neg(n) => {
            if n < j {
                lemma_expr_value_prefix(ex1, ex2, n as int, x);
            }
        },
        _ => {},
    }
}

/// Every constraint refers to expressions of the table.
pub open spec fn constraints_in_range(cs: ConstraintSystem) -> bool {
    forall|k: int| 0 <= k < cs.constraints@.len() ==> match #[trigger] cs.constraints@[k] {
        Constraint::Zero(e) | Constraint::NonNegative(e) => e < cs.exprs@.len(),
        Constraint::Equal(l, r) => l < cs.exprs@.len() && r < cs.exprs@.len(),
    }
}

/// A system fit for normalization, evaluation and R1CS lowering: its
/// expressions refer only backwards, and every id it holds is in range.
pub open spec fn well_formed_system(cs: ConstraintSystem) -> bool {
    &&& exprs_ordered(cs.exprs@)
    &&& vars_in_range(cs)
    &&& constraints_in_range(cs)
    &&& cs.inputs_in_range()
}

/// `b` is `a` with expressions appended and nothing else changed.
pub open spec fn only_exprs_appended(a: ConstraintSystem, b: ConstraintSystem) -> bool {
    &&& b.name == a.name
    &&& b.variables@ == a.variables@
    &&& a.exprs@.len() <= b.exprs@.len()
    &&& b.exprs@.take(a.exprs@.len() as int) == a.exprs@
    &&& b.public_inputs@ == a.public_inputs@
    &&& b.secret_inputs@ == a.secret_inputs@
    &&& b.constraints@ == a.constraints@
}

/// `b` is `a` with expressions and constraints appended, variables and
/// inputs unchanged.
pub open spec fn only_exprs_constraints_appended(a: ConstraintSystem, b: ConstraintSystem) -> bool {
    &&& b.name == a.name
    &&& b.variables@ == a.variables@
    &&& a.exprs@.len() <= b.exprs@.len()
    &&& b.exprs@.take(a.exprs@.len() as int) == a.exprs@
    &&& b.public_inputs@ == a.public_inputs@
    &&& b.secret_inputs@ == a.secret_inputs@
    &&& a.constraints@.len() <= b.constraints@.len()
    &&& b.constraints@.take(a.constraints@.len() as int) == a.constraints@
}

/// The lowering state: the circuit built so far and the names in scope.
struct Lowerer {
    has_return: bool,
    builder: ConstraintSystemBuilder,
    env: Vec<(String, ExprId)>,
    output_bound: bool,
}

impl Lowerer {
    spec fn sys(&self) -> ConstraintSystem {
        self.builder.system_view()
    }

    spec fn env_view(&self) -> Seq<(Seq<char>, ExprId)> {
        self.env@.map_values(|p: (String, ExprId)| (p.0@, p.1))
    }

    spec fn inv(&self) -> bool {
        &&& well_formed_system(self.sys())
        &&& forall|k: int| 0 <= k < self.env@.len() ==> (#[trigger] self.env@[k]).1 < self.sys().exprs@.len()
    }

    proof fn lemma_lookup_in_range(&self, name: Seq<char>)
        requires self.inv(),
        ensures lookup_env(self.env_view(), name) matches Some(id) ==> id < self.sys().exprs@.len(),
    {
        lemma_lookup_index(self.env_view(), name);
        if let Some(id) = lookup_env(self.env_view(), name) {
            let k = choose|k: int| 0 <= k < self.env_view().len() && self.env_view()[k].1 == id;
            assert(self.env@[k].1 == self.env_view()[k].1);
        }
    }

    /// Finds the expression bound to `name`.
    fn lookup(&self, name: &String) -> (r: Option<ExprId>)
        ensures r == lookup_env(self.env_view(), name@),
    {
        let mut i = self.env.len();
        proof { assert(self.env_view().take(i as int) =~= self.env_view()); }
        while i > 0
            invariant
                i <= self.env@.len(),
                lookup_env(self.env_view(), name@) == lookup_env(self.env_view().take(i as int), name@),
            decreases i,
        {
            let ghost t = self.env_view().take(i as int);
            assert(t.drop_last() =~= self.env_view().take(i - 1));
            assert(t.last() == (self.env@[i - 1].0@, self.env@[i - 1].1));
            if self.env[i - 1].0 == *name {
                return Some(self.env[i - 1].1);
            }
            i = i - 1;
        }
        None
    }

    /// Compiles an arithmetic expression, returning the id of its value.
    fn compile_expr(&mut self, e: &SourceExpr) -> (r: Result<ExprId, LowerError>)
        requires old(self).inv(),
        ensures
            final(self).inv(),
            final(self).env == old(self).env,
            final(self).has_return == old(self).has_return,
            final(self).output_bound == old(self).output_bound,
            only_exprs_appended(old(self).sys(), final(self).sys()),
            r is Ok <==> expr_supported(*e, env_names(old(self).env_view())),
            r matches Ok(id) ==> id < final(self).sys().exprs@.len() && forall|x: spec_fn(usize) -> int|
                #[trigger] expr_value(final(self).sys().exprs@, id as int, x) == src_value(*e, env_vals(old(self).env_view(), old(self).sys().exprs@, x)),
            r matches Err(er) ==> er == expr_error(*e, env_names(old(self).env_view())),
        decreases e,
    {
        let ghost s0 = self.sys();
        let ghost env0 = self.env_view();
        proof { assert(s0.exprs@.take(s0.exprs@.len() as int) =~= s0.exprs@); }
        match e {
            SourceExpr::Path { name, simple, span } => {
                if !*simple {
                    return err(LowerErrorKind::NonSimplePath, *span);
                }
                proof { self.lemma_lookup_in_range(name@); }
                match self.lookup(name) {
                    Some(id) => Ok(id),
                    None => err(LowerErrorKind::Unresolved { name: name.clone() }, *span),
                }
            },
            SourceExpr::Lit { lit, span } => match lit {
                SourceLit::Int(Some(v)) => {
                    let id = self.builder.constant(*v);
                    proof { self.lemma_push_keeps_inv(s0, Expr::Const(*v)); }
                    Ok(id)
                },
                SourceLit::Int(None) => err(LowerErrorKind::LiteralOverflow, *span),
                SourceLit::Other => err(LowerErrorKind::NonIntegerLiteral, *span),
            },
            SourceExpr::Paren { expr, .. } => self.compile_expr(expr),
            SourceExpr::Unary { op, expr, span } => match op {
                SourceUnOp::Neg => {
                    let inner = match self.compile_expr(expr) {
                        Ok(id) => id,
                        Err(er) => { return Err(er); },
                    };
                    let ghost s1 = self.sys();
                    let id = self.builder.neg(inner);
                    proof {
                        self.lemma_push_keeps_inv(s1, Expr::Neg(inner));
                        lemma_appended_trans(s0, s1, self.sys());
                        assert forall|x: spec_fn(usize) -> int| #[trigger] expr_value(self.sys().exprs@, id as int, x)
                            == src_value(*e, env_vals(env0, s0.exprs@, x)) by {
                            assert(self.sys().exprs@.take(s1.exprs@.len() as int) =~= s1.exprs@);
                            lemma_expr_value_prefix(s1.exprs@, self.sys().exprs@, inner as int, x);
                        }
                    }
                    Ok(id)
                },
                SourceUnOp::Other => err(LowerErrorKind::UnsupportedUnary, *span),
            },
            SourceExpr::Binary { op, left, right, span } => {
                match op {
                    SourceBinOp::Add | SourceBinOp::Sub | SourceBinOp::Mul => {},
                    SourceBinOp::Div | SourceBinOp::Rem => { return err(LowerErrorKind::DivisionOrRemainder, *span); },
                    _ => { return err(LowerErrorKind::UnsupportedBinary, *span); },
                }
                let l = match self.compile_expr(left) {
                    Ok(id) => id,
                    Err(er) => { return Err(er); },
                };
                let ghost s1 = self.sys();
                let r = match self.compile_expr(right) {
                    Ok(id) => id,
                    Err(er) => {
                        proof { lemma_appended_trans(s0, s1, self.sys()); }
                        return Err(er);
                    },
                };
                let ghost s2 = self.sys();
                let id = match op {
                    SourceBinOp::Add => self.builder.add(l, r),
                    SourceBinOp::Sub => self.builder.sub(l, r),
                    _ => self.builder.mul(l, r),
                };
                proof {
                    let ne = match op {
                        SourceBinOp::Add => Expr::Add(l, r),
                        SourceBinOp::Sub => Expr::Sub(l, r),
                        _ => Expr::Mul(l, r),
                    };
                    self.lemma_push_keeps_inv(s2, ne);
                    self.lemma_env_vals_stable(s0, s1);
                    lemma_appended_trans(s0, s1, s2);
                    lemma_appended_trans(s0, s2, self.sys());
                    assert(env0 == self.env_view());
                    assert forall|x: spec_fn(usize) -> int| #[trigger] expr_value(self.sys().exprs@, id as int, x)
                        == src_value(*e, env_vals(env0, s0.exprs@, x)) by {
                        assert(self.sys().exprs@.take(s2.exprs@.len() as int) =~= s2.exprs@);
                        assert(s2.exprs@.take(s1.exprs@.len() as int) =~= s1.exprs@);
                        lemma_expr_value_prefix(s2.exprs@, self.sys().exprs@, r as int, x);
                        lemma_expr_value_prefix(s2.exprs@, self.sys().exprs@, l as int, x);
                        lemma_expr_value_prefix(s1.exprs@, s2.exprs@, l as int, x);
                        assert(env_vals(env0, s0.exprs@, x) == env_vals(env0, s1.exprs@, x));
                    }
                }
                Ok(id)
            },
            SourceExpr::Return { span, .. } => err(LowerErrorKind::ReturnSubExpression, *span),
            SourceExpr::Macro { mac } => err(LowerErrorKind::UnsupportedExpression, mac.span),
            SourceExpr::Unsupported { kind, span } => {
                let k = match kind {
                    UnsupportedExpr::Call => LowerErrorKind::Call,
                    UnsupportedExpr::MethodCall => LowerErrorKind::MethodCall,
                    UnsupportedExpr::Field => LowerErrorKind::Field,
                    UnsupportedExpr::Index => LowerErrorKind::Index,
                    UnsupportedExpr::Closure => LowerErrorKind::Closure,
                    UnsupportedExpr::Assign => LowerErrorKind::Assign,
                    UnsupportedExpr::Reference => LowerErrorKind::Reference,
                    UnsupportedExpr::Cast => LowerErrorKind::Cast,
                    UnsupportedExpr::Conditional => LowerErrorKind::Conditional,
                    UnsupportedExpr::Loop => LowerErrorKind::Loop,
                    UnsupportedExpr::Other => LowerErrorKind::UnsupportedExpression,
                };
                err(k, *span)
            },
        }
    }

    /// After pushing `e` onto `before` (whose ids `e` refers below), the
    /// invariant still holds.
    proof fn lemma_push_keeps_inv(&self, before: ConstraintSystem, e: Expr)
        requires
            well_formed_system(before),
            self.sys().pushed_expr(before, e),
            forall|k: int| 0 <= k < self.env@.len() ==> (#[trigger] self.env@[k]).1 < before.exprs@.len(),
            match e {
                Expr::Add(l, r) | Expr::Sub(l, r) | Expr::Mul(l, r) => l < before.exprs@.len() && r < before.exprs@.len(),
                Expr::Neg(n) => n < before.exprs@.len(),
                Expr::Var(v) => v < before.variables@.len(),
                Expr::Const(_) => true,
            },
        ensures
            self.inv(),
            only_exprs_appended(before, self.sys()),
    {
        let ex = self.sys().exprs@;
        assert(ex.take(before.exprs@.len() as int) =~= before.exprs@);
        assert forall|id: int| 0 <= id < ex.len() implies match #[trigger] ex[id] {
            Expr::Add(l, r) | Expr::Sub(l, r) | Expr::Mul(l, r) => l < id && r < id,
            Expr::Neg(e) => e < id,
            _ => true,
        } by {
            if id < before.exprs@.len() {
                assert(ex[id] == before.exprs@[id]);
            }
        }
        assert forall|id: int| 0 <= id < ex.len() implies match #[trigger] ex[id] {
            Expr::Var(v) => v < self.sys().variables@.len(),
            _ => true,
        } by {
            if id < before.exprs@.len() {
                assert(ex[id] == before.exprs@[id]);
            }
        }
        assert forall|k: int| 0 <= k < self.sys().constraints@.len() implies match #[trigger] self.sys().constraints@[k] {
            Constraint::Zero(e) | Constraint::NonNegative(e) => e < self.sys().exprs@.len(),
            Constraint::Equal(l, r) => l < self.sys().exprs@.len() && r < self.sys().exprs@.len(),
        } by {
            assert(self.sys().constraints@[k] == before.constraints@[k]);
        }
        assert forall|i: int| 0 <= i < self.sys().public_inputs@.len() implies #[trigger] self.sys().public_inputs@[i] < self.sys().exprs@.len() by {
            assert(self.sys().public_inputs@[i] == before.public_inputs@[i]);
        }
        assert forall|i: int| 0 <= i < self.sys().secret_inputs@.len() implies #[trigger] self.sys().secret_inputs@[i] < self.sys().exprs@.len() by {
            assert(self.sys().secret_inputs@[i] == before.secret_inputs@[i]);
        }
    }

    /// Appending expressions after `a` leaves the values of bound names unchanged.
    proof fn lemma_env_vals_stable(&self, a: ConstraintSystem, b: ConstraintSystem)
        requires
            a.exprs@.len() <= b.exprs@.len(),
            b.exprs@.take(a.exprs@.len() as int) == a.exprs@,
            forall|k: int| 0 <= k < self.env@.len() ==> (#[trigger] self.env@[k]).1 < a.exprs@.len(),
        ensures
            forall|x: spec_fn(usize) -> int| #[trigger] env_vals(self.env_view(), a.exprs@, x) == env_vals(self.env_view(), b.exprs@, x),
    {
        assert forall|x: spec_fn(usize) -> int| #[trigger] env_vals(self.env_view(), a.exprs@, x) == env_vals(self.env_view(), b.exprs@, x) by {
            assert forall|name: Seq<char>| #[trigger] (env_vals(self.env_view(), a.exprs@, x))(name) == (env_vals(self.env_view(), b.exprs@, x))(name) by {
                lemma_lookup_index(self.env_view(), name);
                if let Some(id) = lookup_env(self.env_view(), name) {
                    let k = choose|k: int| 0 <= k < self.env_view().len() && self.env_view()[k].1 == id;
                    assert(self.env@[k].1 == self.env_view()[k].1);
                    lemma_expr_value_prefix(a.exprs@, b.exprs@, id as int, x);
                }
            }
            assert(env_vals(self.env_view(), a.exprs@, x) =~= env_vals(self.env_view(), b.exprs@, x));
        }
    }
}

/// Appending expressions twice is appending expressions.
pub proof fn lemma_appended_trans(a: ConstraintSystem, b: ConstraintSystem, c: ConstraintSystem)
    requires
        only_exprs_appended(a, b),
        only_exprs_appended(b, c),
    ensures only_exprs_appended(a, c),
{
    assert(c.exprs@.take(a.exprs@.len() as int) =~= b.exprs@.take(a.exprs@.len() as int));
}

/// A bound name's expression is one of the environment's entries.
pub proof fn lemma_lookup_index(env: Seq<(Seq<char>, ExprId)>, name: Seq<char>)
    ensures lookup_env(env, name) matches Some(id) ==> exists|k: int| 0 <= k < env.len() && env[k].1 == id,
    decreases env.len(),
{
    if env.len() > 0 && env.last().0 != name {
        lemma_lookup_index(env.drop_last(), name);
        if let Some(id) = lookup_env(env, name) {
            let k = choose|k: int| 0 <= k < env.drop_last().len() && env.drop_last()[k].1 == id;
            assert(env[k] == env.drop_last()[k]);
        }
    }
}


/// The integer primitive type names.
pub open spec fn integer_primitive(name: Seq<char>) -> bool {
    ||| name == "u8"@ ||| name == "u16"@ ||| name == "u32"@ ||| name == "u64"@
    ||| name == "u128"@ ||| name == "usize"@ ||| name == "i8"@ ||| name == "i16"@
    ||| name == "i32"@ ||| name == "i64"@ ||| name == "i128"@ ||| name == "isize"@
}

/// Why a type is refused where only integer primitives are allowed.
pub open spec fn type_error(ty: SourceType, context: TypeContext) -> Option<LowerError> {
    match ty {
        SourceType::Path { qself, last, span } => if !qself && last is Some {
            if integer_primitive(last->0@) {
                None
            } else {
                Some(LowerError { kind: LowerErrorKind::NotIntegerPrimitive { context, name: last->0 }, span })
            }
        } else {
            Some(LowerError { kind: LowerErrorKind::UnsupportedType { context }, span })
        },
        SourceType::Other { span } => Some(LowerError { kind: LowerErrorKind::UnsupportedType { context }, span }),
    }
}

/// Why a function's signature is refused, checking its qualifiers in the
/// order `async`, `unsafe`, `extern`, `const`, generics, variadic, then
/// its return type.
pub open spec fn signature_error(f: SourceFn) -> Option<LowerError> {
    if f.asyncness is Some {
        Some(LowerError { kind: LowerErrorKind::Async, span: f.asyncness->0 })
    } else if f.unsafety is Some {
        Some(LowerError { kind: LowerErrorKind::Unsafe, span: f.unsafety->0 })
    } else if f.abi is Some {
        Some(LowerError { kind: LowerErrorKind::Extern, span: f.abi->0 })
    } else if f.constness is Some {
        Some(LowerError { kind: LowerErrorKind::ConstFn, span: f.constness->0 })
    } else if f.generics is Some {
        Some(LowerError { kind: LowerErrorKind::Generic, span: f.generics->0 })
    } else if f.variadic is Some {
        Some(LowerError { kind: LowerErrorKind::Variadic, span: f.variadic->0 })
    } else if f.output is Some {
        type_error(f.output->0, TypeContext::Return)
    } else {
        None
    }
}

/// The name a pattern binds, when it is a plain identifier (possibly with
/// a type ascription).
pub open spec fn pattern_name(p: SourcePat) -> Option<String>
    decreases p,
{
    match p {
        SourcePat::Ident { name, by_ref, subpat, .. } => if !by_ref && !subpat {
            Some(name)
        } else {
            None
        },
        SourcePat::Typed { pat, .. } => pattern_name(*pat),
        SourcePat::Other { .. } => None,
    }
}

/// Where an unsupported pattern is reported.
pub open spec fn pattern_span(p: SourcePat) -> Span
    decreases p,
{
    match p {
        SourcePat::Ident { span, .. } => span,
        SourcePat::Typed { pat, .. } => pattern_span(*pat),
        SourcePat::Other { span } => span,
    }
}

/// Where the name a pattern binds stands.
pub open spec fn pattern_name_span(p: SourcePat) -> Span
    decreases p,
{
    match p {
        SourcePat::Ident { name_span, .. } => name_span,
        SourcePat::Typed { pat, .. } => pattern_name_span(*pat),
        SourcePat::Other { span } => span,
    }
}

/// The attribute is `#[secret]`.
pub open spec fn is_secret_attr(a: SourceAttr) -> bool {
    a.name matches Some(n) && n@ == "secret"@
}

/// The attribute is `#[public]`.
pub open spec fn is_public_attr(a: SourceAttr) -> bool {
    a.name matches Some(n) && n@ == "public"@
}

/// The first attribute from index `i` on that is neither `#[public]` nor `#[secret]`.
pub open spec fn attrs_error(attrs: Seq<SourceAttr>, i: int) -> Option<LowerError>
    decreases attrs.len() - i,
{
    if i < 0 || i >= attrs.len() {
        None
    } else if is_secret_attr(attrs[i]) || is_public_attr(attrs[i]) {
        attrs_error(attrs, i + 1)
    } else {
        Some(LowerError { kind: LowerErrorKind::UnsupportedParamAttr, span: attrs[i].span })
    }
}

/// A parameter's visibility: the last of its `#[public]` / `#[secret]`
/// attributes decides, and a parameter without one is public.
pub open spec fn attrs_visibility(attrs: Seq<SourceAttr>) -> Visibility {
    if attrs.len() > 0 && is_secret_attr(attrs.last()) {
        Visibility::Secret
    } else {
        Visibility::Public
    }
}

/// Why a parameter is refused: a receiver, then an unknown attribute, then
/// its pattern, then its type.
pub open spec fn param_error(p: SourceParam) -> Option<LowerError> {
    match p {
        SourceParam::Receiver { span } => Some(LowerError { kind: LowerErrorKind::Receiver, span }),
        SourceParam::Typed { attrs, pat, ty } => if attrs_error(attrs@, 0) is Some {
            attrs_error(attrs@, 0)
        } else if pattern_name(pat) is None {
            Some(LowerError { kind: LowerErrorKind::UnsupportedPattern, span: pattern_span(pat) })
        } else {
            type_error(ty, TypeContext::Parameter)
        },
    }
}

/// The first refused parameter among the first `n`.
pub open spec fn params_error(ps: Seq<SourceParam>, n: int) -> Option<LowerError>
    decreases n,
{
    if n <= 0 {
        None
    } else if params_error(ps, n - 1) is Some {
        params_error(ps, n - 1)
    } else {
        param_error(ps[n - 1])
    }
}

/// The name a parameter declares.
pub open spec fn param_name(p: SourceParam) -> Seq<char> {
    match p {
        SourceParam::Typed { pat, .. } => match pattern_name(pat) {
            Some(n) => n@,
            None => Seq::empty(),
        },
        _ => Seq::empty(),
    }
}

/// The visibility a parameter declares.
pub open spec fn param_visibility(p: SourceParam) -> Visibility {
    match p {
        SourceParam::Typed { attrs, .. } => attrs_visibility(attrs@),
        _ => Visibility::Public,
    }
}

/// The expression ids of the first `n` parameters that have visibility `vis`.
pub open spec fn param_ids(ps: Seq<SourceParam>, n: int, vis: Visibility) -> Seq<ExprId>
    decreases n,
{
    if n <= 0 {
        Seq::empty()
    } else if param_visibility(ps[n - 1]) == vis {
        param_ids(ps, n - 1, vis).push((n - 1) as usize)
    } else {
        param_ids(ps, n - 1, vis)
    }
}

/// The names the parameters bind: parameter `k` is expression `k`.
pub open spec fn param_env(ps: Seq<SourceParam>) -> Seq<(Seq<char>, ExprId)> {
    Seq::new(ps.len(), |k: int| (param_name(ps[k]), k as usize))
}

/// The value of each parameter name when variable `k` has value `x(k)`.
pub open spec fn param_vals(ps: Seq<SourceParam>, x: spec_fn(usize) -> int) -> spec_fn(Seq<char>) -> int {
    |name: Seq<char>| match lookup_env(param_env(ps), name) {
        Some(k) => x(k),
        None => 0,
    }
}

/// Upper-cases the first letter of each `_`-separated word and drops the
/// underscores; `at_start` tells whether a word begins at `s[0]`.
pub open spec fn capitalized(s: Seq<char>, at_start: bool) -> Seq<char>
    decreases s.len(),
{
    if s.len() == 0 {
        Seq::empty()
    } else if s[0] == '_' {
        capitalized(s.drop_first(), true)
    } else if at_start {
        uppercase_of(s[0]) + capitalized(s.drop_first(), false)
    } else {
        seq![s[0]] + capitalized(s.drop_first(), false)
    }
}

/// The PascalCase form of a snake_case name; `ZkCircuit` when nothing is left.
pub open spec fn pascal_name(name: Seq<char>) -> Seq<char> {
    if capitalized(name, true).len() == 0 {
        "ZkCircuit"@
    } else {
        capitalized(name, true)
    }
}

/// Every character of `s` is ASCII.
pub open spec fn all_ascii(s: Seq<char>) -> bool {
    forall|i: int| 0 <= i < s.len() ==> (#[trigger] s[i] as u32) < 128
}

/// The ASCII capital of a lowercase letter; any other character itself.
pub open spec fn ascii_upper(c: char) -> char {
    if 'a' <= c <= 'z' {
        ((c as u32) - 32) as char
    } else {
        c
    }
}

/// [`capitalized`] on an ASCII name, where upper-casing is [`ascii_upper`].
pub open spec fn capitalized_ascii(s: Seq<char>, at_start: bool) -> Seq<char>
    decreases s.len(),
{
    if s.len() == 0 {
        Seq::empty()
    } else if s[0] == '_' {
        capitalized_ascii(s.drop_first(), true)
    } else if at_start {
        seq![ascii_upper(s[0])] + capitalized_ascii(s.drop_first(), false)
    } else {
        seq![s[0]] + capitalized_ascii(s.drop_first(), false)
    }
}

/// [`pascal_name`] of an ASCII name, spelled out: `prove_balance` gives
/// `ProveBalance`.
pub open spec fn pascal_name_ascii(name: Seq<char>) -> Seq<char> {
    if capitalized_ascii(name, true).len() == 0 {
        "ZkCircuit"@
    } else {
        capitalized_ascii(name, true)
    }
}

/// What `char::to_uppercase` yields for a character.
pub uninterp spec fn uppercase_of(c: char) -> Seq<char>;

/// `char::to_uppercase`, collected into a `String`: the character's
/// uppercase mapping in the standard library's Unicode tables. As its
/// documentation states, an ASCII lowercase letter maps to its capital and
/// a character without a mapping (any other ASCII character among them) to
/// itself; the mappings of other characters are left unsaid.
#[verifier::external_body]
fn uppercase(c: char) -> (r: String)
    ensures
        r@ == uppercase_of(c),
        'a' <= c <= 'z' ==> r@ == seq![((c as u32) - 32) as char],
        (c as u32) < 128 && !('a' <= c <= 'z') ==> r@ == seq![c],
{
    c.to_uppercase().collect::<String>()
}

/// Converts a snake_case function name to the PascalCase name of its circuit.
pub fn pascal_case(name: &str) -> (r: String)
    ensures
        r@ == pascal_name(name@),
        all_ascii(name@) ==> r@ == pascal_name_ascii(name@),
{
    let n = name.unicode_len();
    let mut out = String::new();
    let mut at_start = true;
    let mut i: usize = 0;
    proof { assert(name@.skip(0) =~= name@); }
    while i < n
        invariant
            n == name@.len(),
            i <= n,
            out@ + capitalized(name@.skip(i as int), at_start) == capitalized(name@, true),
            all_ascii(name@) ==> out@ + capitalized_ascii(name@.skip(i as int), at_start) == capitalized_ascii(name@, true),
        decreases n - i,
    {
        let c = name.get_char(i);
        let ghost rest = name@.skip(i as int);
        proof {
            assert(rest[0] == c);
            assert(rest.drop_first() =~= name@.skip(i + 1));
            assert(name@[i as int] == c);
        }
        if c == '_' {
            at_start = true;
        } else if at_start {
            let u = uppercase(c);
            proof {
                assert((out@ + u@) + capitalized(name@.skip(i + 1), false) =~= out@ + (u@ + capitalized(name@.skip(i + 1), false)));
                if all_ascii(name@) {
                    assert((c as u32) < 128);
                    assert(u@ == seq![ascii_upper(c)]);
                    assert((out@ + u@) + capitalized_ascii(name@.skip(i + 1), false)
                        =~= out@ + (seq![ascii_upper(c)] + capitalized_ascii(name@.skip(i + 1), false)));
                }
            }
            out.append(u.as_str());
            at_start = false;
        } else {
            let piece = name.substring_char(i, i + 1);
            proof {
                assert(piece@ =~= seq![c]);
                assert((out@ + piece@) + capitalized(name@.skip(i + 1), false) =~= out@ + (seq![c] + capitalized(name@.skip(i + 1), false)));
                assert((out@ + piece@) + capitalized_ascii(name@.skip(i + 1), false) =~= out@ + (seq![c] + capitalized_ascii(name@.skip(i + 1), false)));
            }
            out.append(piece);
        }
        i = i + 1;
    }
    proof {
        assert(out@ + capitalized(name@.skip(n as int), at_start) =~= out@);
        assert(out@ + capitalized_ascii(name@.skip(n as int), at_start) =~= out@);
    }
    if out.unicode_len() == 0 {
        return String::from_str("ZkCircuit");
    }
    out
}

fn string_is(s: &String, lit: &str) -> (r: bool)
    ensures r == (s@ == lit@),
{
    String::from_str(lit) == *s
}

/// The name is one of the integer primitive types.
pub fn is_integer_primitive(name: &String) -> (r: bool)
    ensures r == integer_primitive(name@),
{
    string_is(name, "u8") || string_is(name, "u16") || string_is(name, "u32") || string_is(name, "u64")
        || string_is(name, "u128") || string_is(name, "usize") || string_is(name, "i8")
        || string_is(name, "i16") || string_is(name, "i32") || string_is(name, "i64")
        || string_is(name, "i128") || string_is(name, "isize")
}

/// Accepts an integer primitive type, rejecting every other type.
pub fn validate_integer_type(ty: &SourceType, context: TypeContext) -> (r: Result<(), LowerError>)
    ensures
        r is Ok <==> type_error(*ty, context) is None,
        r matches Err(e) ==> type_error(*ty, context) == Some(e),
{
    match ty {
        SourceType::Path { qself, last, span } => {
            if !*qself {
                if let Some(name) = last {
                    if is_integer_primitive(name) {
                        return Ok(());
                    }
                    return err(LowerErrorKind::NotIntegerPrimitive { context, name: name.clone() }, *span);
                }
            }
            err(LowerErrorKind::UnsupportedType { context }, *span)
        },
        SourceType::Other { span } => err(LowerErrorKind::UnsupportedType { context }, *span),
    }
}

/// Accepts a signature that can become a circuit.
pub fn validate_signature(f: &SourceFn) -> (r: Result<(), LowerError>)
    ensures
        r is Ok <==> signature_error(*f) is None,
        r matches Err(e) ==> signature_error(*f) == Some(e),
{
    if let Some(s) = f.asyncness {
        return err(LowerErrorKind::Async, s);
    }
    if let Some(s) = f.unsafety {
        return err(LowerErrorKind::Unsafe, s);
    }
    if let Some(s) = f.abi {
        return err(LowerErrorKind::Extern, s);
    }
    if let Some(s) = f.constness {
        return err(LowerErrorKind::ConstFn, s);
    }
    if let Some(s) = f.generics {
        return err(LowerErrorKind::Generic, s);
    }
    if let Some(s) = f.variadic {
        return err(LowerErrorKind::Variadic, s);
    }
    if let Some(ty) = &f.output {
        return validate_integer_type(ty, TypeContext::Return);
    }
    Ok(())
}

/// The name a pattern binds and where that name stands.
pub fn pattern_ident(p: &SourcePat) -> (r: Result<(&String, Span), LowerError>)
    ensures
        r is Ok <==> pattern_name(*p) is Some,
        r matches Ok(v) ==> Some(*v.0) == pattern_name(*p) && v.1 == pattern_name_span(*p),
        r matches Err(e) ==> e == (LowerError { kind: LowerErrorKind::UnsupportedPattern, span: pattern_span(*p) }),
    decreases p,
{
    match p {
        SourcePat::Ident { name, by_ref, subpat, name_span, span, .. } => {
            if !*by_ref && !*subpat {
                Ok((name, *name_span))
            } else {
                err(LowerErrorKind::UnsupportedPattern, *span)
            }
        },
        SourcePat::Typed { pat, .. } => pattern_ident(pat),
        SourcePat::Other { span } => err(LowerErrorKind::UnsupportedPattern, *span),
    }
}


/// The comparisons `assert!` accepts.
pub open spec fn comparison_op(op: SourceBinOp) -> bool {
    ||| op == SourceBinOp::Ge ||| op == SourceBinOp::Le ||| op == SourceBinOp::Gt
    ||| op == SourceBinOp::Lt ||| op == SourceBinOp::Eq
}

/// `a <op> b` holds.
pub open spec fn source_comparison_holds(op: SourceBinOp, a: int, b: int) -> bool {
    match op {
        SourceBinOp::Ge => a >= b,
        SourceBinOp::Le => a <= b,
        SourceBinOp::Gt => a > b,
        SourceBinOp::Lt => a < b,
        SourceBinOp::Eq => a == b,
        _ => true,
    }
}

/// `c` is the constraint an ordering `a >= b` lowers to: `NonNegative` of
/// the expression `Sub(a, b)`, or, for the strict `a > b`, `NonNegative` of
/// `Sub(Sub(a, b), Const(1))`.
pub open spec fn ordered_emitted(exprs: Seq<Expr>, c: Constraint, a: ExprId, b: ExprId, strict: bool) -> bool {
    &&& c matches Constraint::NonNegative(t)
    &&& t < exprs.len()
    &&& if strict {
        &&& exprs[t as int] matches Expr::Sub(d, one)
        &&& exprs[d as int] == Expr::Sub(a, b)
        &&& exprs[one as int] == Expr::Const(1)
    } else {
        exprs[t as int] == Expr::Sub(a, b)
    }
}

/// `c` is the constraint `assert!(a <op> b)` lowers to, with `a` and `b` the
/// operands' expressions: `a - b >= 0` for `>=`, `b - a >= 0` for `<=`, one
/// less than those for `>` and `<`, and `Equal(a, b)` for `==`.
pub open spec fn comparison_emitted(exprs: Seq<Expr>, c: Constraint, op: SourceBinOp, a: ExprId, b: ExprId) -> bool {
    match op {
        SourceBinOp::Ge => ordered_emitted(exprs, c, a, b, false),
        SourceBinOp::Le => ordered_emitted(exprs, c, b, a, false),
        SourceBinOp::Gt => ordered_emitted(exprs, c, a, b, true),
        SourceBinOp::Lt => ordered_emitted(exprs, c, b, a, true),
        SourceBinOp::Eq => c == Constraint::Equal(a, b),
        _ => false,
    }
}

/// The circuit check's comparison for a source comparison operator.
pub open spec fn comparison_of(op: SourceBinOp) -> Comparison {
    match op {
        SourceBinOp::Ge => Comparison::Ge,
        SourceBinOp::Le => Comparison::Le,
        SourceBinOp::Gt => Comparison::Gt,
        SourceBinOp::Lt => Comparison::Lt,
        _ => Comparison::Eq,
    }
}

/// Why `assert!(left <op> right)` is refused: its operands first, left
/// before right, then its operator.
pub open spec fn comparison_error(op: SourceBinOp, left: SourceExpr, right: SourceExpr, span: Span, names: Set<Seq<char>>) -> Option<LowerError> {
    if !expr_supported(left, names) {
        Some(expr_error(left, names))
    } else if !expr_supported(right, names) {
        Some(expr_error(right, names))
    } else if op == SourceBinOp::Ne {
        Some(LowerError { kind: LowerErrorKind::NotEqual, span })
    } else if comparison_op(op) {
        None
    } else {
        Some(LowerError { kind: LowerErrorKind::UnsupportedComparison, span })
    }
}

/// The macro's path ends in `n`.
pub open spec fn macro_named(mac: SourceMacro, n: Seq<char>) -> bool {
    mac.name matches Some(s) && s@ == n
}

/// Why a macro is refused: only `assert!` of one comparison and
/// `assert_eq!` of two expressions are accepted.
pub open spec fn macro_error(mac: SourceMacro, names: Set<Seq<char>>) -> Option<LowerError> {
    match mac.name {
        None => Some(LowerError { kind: LowerErrorKind::EmptyMacroPath, span: mac.span }),
        Some(n) => if n@ == "assert"@ {
            match mac.one {
                None => Some(LowerError { kind: LowerErrorKind::AssertArgs, span: mac.span }),
                Some(e) => match *e {
                    SourceExpr::Binary { op, left, right, span } => comparison_error(op, *left, *right, span, names),
                    other => Some(LowerError { kind: LowerErrorKind::AssertNotComparison, span: other.spec_span() }),
                },
            }
        } else if n@ == "assert_eq"@ {
            match mac.two {
                None => Some(LowerError { kind: LowerErrorKind::AssertEqArgs, span: mac.span }),
                Some(args) => if !expr_supported(*args.0, names) {
                    Some(expr_error(*args.0, names))
                } else if !expr_supported(*args.1, names) {
                    Some(expr_error(*args.1, names))
                } else {
                    None
                },
            }
        } else {
            Some(LowerError { kind: LowerErrorKind::UnsupportedMacro { name: n }, span: mac.name_span })
        },
    }
}

/// What an accepted macro asserts when each name has value `vals(name)`.
pub open spec fn macro_holds(mac: SourceMacro, vals: spec_fn(Seq<char>) -> int) -> bool {
    if macro_named(mac, "assert"@) {
        match mac.one {
            Some(e) => match *e {
                SourceExpr::Binary { op, left, right, .. } => source_comparison_holds(op, src_value(*left, vals), src_value(*right, vals)),
                _ => true,
            },
            None => true,
        }
    } else if macro_named(mac, "assert_eq"@) {
        match mac.two {
            Some(args) => src_value(*args.0, vals) == src_value(*args.1, vals),
            None => true,
        }
    } else {
        true
    }
}

/// Where `mut` stands, when the pattern itself (not one under a type
/// ascription) is a `mut` identifier.
pub open spec fn top_mutability(pat: SourcePat) -> Option<Span> {
    match pat {
        SourcePat::Ident { mutability, .. } => mutability,
        _ => None,
    }
}

/// Why a `let` is refused: attributes, a missing initializer, an `else`
/// branch, its pattern, `mut`, its initializer, then a name bound before.
pub open spec fn local_error(attrs: Seq<Span>, pat: SourcePat, init: Option<SourceInit>, span: Span, names: Set<Seq<char>>) -> Option<LowerError> {
    if attrs.len() > 0 {
        Some(LowerError { kind: LowerErrorKind::LetAttributes, span: attrs[0] })
    } else if init is None {
        Some(LowerError { kind: LowerErrorKind::UninitializedLet, span })
    } else if init->0.diverge {
        Some(LowerError { kind: LowerErrorKind::LetElse, span: init->0.expr.spec_span() })
    } else if pattern_name(pat) is None {
        Some(LowerError { kind: LowerErrorKind::UnsupportedPattern, span: pattern_span(pat) })
    } else if top_mutability(pat) is Some {
        Some(LowerError { kind: LowerErrorKind::MutBinding, span: top_mutability(pat)->0 })
    } else if !expr_supported(init->0.expr, names) {
        Some(expr_error(init->0.expr, names))
    } else if names.contains(pattern_name(pat)->0@) {
        Some(LowerError { kind: LowerErrorKind::BoundTwice { name: pattern_name(pat)->0 }, span: pattern_name_span(pat) })
    } else {
        None
    }
}

/// Why an expression statement is refused; `tail` when it is the body's
/// last statement without a semicolon, `output` when a value was returned.
pub open spec fn expr_stmt_error(e: SourceExpr, tail: bool, has_return: bool, output: bool, names: Set<Seq<char>>) -> Option<LowerError> {
    match e {
        SourceExpr::Return { expr, span } => match expr {
            Some(v) => if !has_return {
                Some(LowerError { kind: LowerErrorKind::ReturnWithoutType, span })
            } else if !expr_supported(*v, names) {
                Some(expr_error(*v, names))
            } else if output {
                Some(LowerError { kind: LowerErrorKind::ReturnTwice, span: v.spec_span() })
            } else {
                None
            },
            None => if has_return {
                Some(LowerError { kind: LowerErrorKind::MissingReturnValue, span })
            } else {
                None
            },
        },
        SourceExpr::Macro { mac } => macro_error(mac, names),
        SourceExpr::Unsupported { kind: UnsupportedExpr::Conditional, span } => Some(LowerError { kind: LowerErrorKind::ControlFlow, span }),
        SourceExpr::Unsupported { kind: UnsupportedExpr::Loop, span } => Some(LowerError { kind: LowerErrorKind::ControlFlow, span }),
        _ => if !tail {
            Some(LowerError { kind: LowerErrorKind::ExpressionStatement, span: e.spec_span() })
        } else if !has_return {
            Some(LowerError { kind: LowerErrorKind::TailWithoutReturnType, span: e.spec_span() })
        } else if !expr_supported(e, names) {
            Some(expr_error(e, names))
        } else if output {
            Some(LowerError { kind: LowerErrorKind::ReturnTwice, span: e.spec_span() })
        } else {
            None
        },
    }
}

/// Why a statement is refused; `last` when it ends the body.
pub open spec fn stmt_error(st: SourceStmt, last: bool, has_return: bool, output: bool, names: Set<Seq<char>>) -> Option<LowerError> {
    match st {
        SourceStmt::Local { attrs, pat, init, span } => local_error(attrs@, pat, init, span, names),
        SourceStmt::Macro { mac } => macro_error(mac, names),
        SourceStmt::Expr { expr, semi } => expr_stmt_error(expr, !semi && last, has_return, output, names),
        SourceStmt::Item { span } => Some(LowerError { kind: LowerErrorKind::NestedItem, span }),
    }
}

/// The accepted expression statement returns a value.
pub open spec fn expr_returns(e: SourceExpr) -> bool {
    match e {
        SourceExpr::Return { expr, .. } => expr is Some,
        SourceExpr::Macro { .. } => false,
        _ => true,
    }
}

/// The accepted statement returns a value.
pub open spec fn stmt_returns(st: SourceStmt) -> bool {
    match st {
        SourceStmt::Expr { expr, .. } => expr_returns(expr),
        _ => false,
    }
}

/// How an accepted expression statement changes whether the constraints
/// hold: `holds` before it, names valued by `vals`, the output variable
/// valued `out`.
pub open spec fn expr_stmt_effect(e: SourceExpr, holds: bool, vals: spec_fn(Seq<char>) -> int, out: int) -> bool {
    match e {
        SourceExpr::Macro { mac } => holds && macro_holds(mac, vals),
        SourceExpr::Return { expr, .. } => match expr {
            Some(v) => holds && out == src_value(*v, vals),
            None => holds,
        },
        _ => holds && out == src_value(e, vals),
    }
}

/// How an accepted statement changes whether the constraints hold.
pub open spec fn stmt_effect(st: SourceStmt, holds: bool, vals: spec_fn(Seq<char>) -> int, out: int) -> bool {
    match st {
        SourceStmt::Macro { mac } => holds && macro_holds(mac, vals),
        SourceStmt::Expr { expr, .. } => expr_stmt_effect(expr, holds, vals, out),
        _ => holds,
    }
}

/// The names bound after an accepted statement.
pub open spec fn stmt_names(st: SourceStmt, names: Set<Seq<char>>) -> Set<Seq<char>> {
    match st {
        SourceStmt::Local { pat, .. } => names.insert(pattern_name(pat)->0@),
        _ => names,
    }
}

/// Checking the first `n` statements: the names bound, whether a value was
/// returned, and the first error met.
pub open spec fn body_check(f: SourceFn, n: int) -> (Set<Seq<char>>, bool, Option<LowerError>)
    decreases n,
{
    if n <= 0 {
        (env_names(param_env(f.inputs@)), false, None)
    } else {
        let p = body_check(f, n - 1);
        if p.2 is Some {
            p
        } else {
            let st = f.stmts@[n - 1];
            match stmt_error(st, n == f.stmts@.len(), f.output is Some, p.1, p.0) {
                Some(e) => (p.0, p.1, Some(e)),
                None => (stmt_names(st, p.0), p.1 || stmt_returns(st), None),
            }
        }
    }
}

/// `vals` with `name` given value `v`.
pub open spec fn bind(vals: spec_fn(Seq<char>) -> int, name: Seq<char>, v: int) -> spec_fn(Seq<char>) -> int {
    |m: Seq<char>| if m == name { v } else { vals(m) }
}

/// Running one statement: the values of the names after it, whether every
/// assertion so far holds, and the value returned so far.
pub open spec fn stmt_sem(st: SourceStmt, p: (spec_fn(Seq<char>) -> int, bool, Option<int>)) -> (spec_fn(Seq<char>) -> int, bool, Option<int>) {
    match st {
        SourceStmt::Local { pat, init, .. } => match init {
            Some(i) => (bind(p.0, pattern_name(pat)->0@, src_value(i.expr, p.0)), p.1, p.2),
            None => p,
        },
        SourceStmt::Macro { mac } => (p.0, p.1 && macro_holds(mac, p.0), p.2),
        SourceStmt::Expr { expr, .. } => match expr {
            SourceExpr::Macro { mac } => (p.0, p.1 && macro_holds(mac, p.0), p.2),
            SourceExpr::Return { expr, .. } => match expr {
                Some(v) => (p.0, p.1, Some(src_value(*v, p.0))),
                None => p,
            },
            _ => (p.0, p.1, Some(src_value(expr, p.0))),
        },
        SourceStmt::Item { .. } => p,
    }
}

/// Running the first `n` statements from parameter values `vals0`.
pub open spec fn body_sem(stmts: Seq<SourceStmt>, n: int, vals0: spec_fn(Seq<char>) -> int) -> (spec_fn(Seq<char>) -> int, bool, Option<int>)
    decreases n,
{
    if n <= 0 {
        (vals0, true, None)
    } else {
        stmt_sem(stmts[n - 1], body_sem(stmts, n - 1, vals0))
    }
}

/// The kind of a constraint: `0` for zero, `1` for equality, `2` for
/// non-negativity.
pub open spec fn constraint_kind(c: Constraint) -> int {
    match c {
        Constraint::Zero(_) => 0,
        Constraint::Equal(_, _) => 1,
        Constraint::NonNegative(_) => 2,
    }
}

/// The kinds of a list of constraints.
pub open spec fn kinds(cs: Seq<Constraint>) -> Seq<int> {
    cs.map_values(|c: Constraint| constraint_kind(c))
}

/// The kinds of the constraints an accepted macro adds: an equality for
/// `assert_eq!` and `assert!(a == b)`, a non-negativity for any other
/// comparison.
pub open spec fn macro_kinds(mac: SourceMacro) -> Seq<int> {
    if macro_named(mac, "assert"@) {
        match mac.one {
            Some(e) => match *e {
                SourceExpr::Binary { op, .. } => if op == SourceBinOp::Eq { seq![1int] } else { seq![2int] },
                _ => Seq::empty(),
            },
            None => Seq::empty(),
        }
    } else if macro_named(mac, "assert_eq"@) {
        seq![1int]
    } else {
        Seq::empty()
    }
}

/// The kinds of the constraints an accepted expression statement adds: an
/// equality for a returned value.
pub open spec fn expr_stmt_kinds(e: SourceExpr) -> Seq<int> {
    match e {
        SourceExpr::Macro { mac } => macro_kinds(mac),
        SourceExpr::Return { expr, .. } => if expr is Some { seq![1int] } else { Seq::empty() },
        _ => seq![1int],
    }
}

/// The kinds of the constraints an accepted statement adds.
pub open spec fn stmt_kinds(st: SourceStmt) -> Seq<int> {
    match st {
        SourceStmt::Macro { mac } => macro_kinds(mac),
        SourceStmt::Expr { expr, .. } => expr_stmt_kinds(expr),
        _ => Seq::empty(),
    }
}

/// The kinds of the constraints the first `n` statements add, in order.
pub open spec fn body_kinds(stmts: Seq<SourceStmt>, n: int) -> Seq<int>
    decreases n,
{
    if n <= 0 {
        Seq::empty()
    } else {
        body_kinds(stmts, n - 1) + stmt_kinds(stmts[n - 1])
    }
}

/// Appending a constraint appends its kind.
pub proof fn lemma_kinds_push(cs: Seq<Constraint>, c: Constraint)
    ensures kinds(cs.push(c)) == kinds(cs) + seq![constraint_kind(c)],
{
    assert(kinds(cs.push(c)) =~= kinds(cs) + seq![constraint_kind(c)]);
}

/// Why lowering refuses a function: its signature, then its parameters in
/// order, then its statements in order, then a missing return value.
pub open spec fn lowering_error(f: SourceFn) -> Option<LowerError> {
    let body = body_check(f, f.stmts@.len() as int);
    if signature_error(f) is Some {
        signature_error(f)
    } else if params_error(f.inputs@, f.inputs@.len() as int) is Some {
        params_error(f.inputs@, f.inputs@.len() as int)
    } else if body.2 is Some {
        body.2
    } else if f.output is Some && !body.1 {
        Some(LowerError { kind: LowerErrorKind::MissingOutput, span: f.name_span })
    } else {
        None
    }
}

/// What the function asserts when variable `k` has value `x(k)`: each
/// parameter is its variable, every assertion holds, and, when the function
/// returns a value, the output variable after the parameters equals it.
pub open spec fn function_holds(f: SourceFn, x: spec_fn(usize) -> int) -> bool {
    let s = body_sem(f.stmts@, f.stmts@.len() as int, param_vals(f.inputs@, x));
    s.1 && (f.output is Some ==> s.2 == Some(x(f.inputs@.len() as usize)))
}

/// Every constraint of the system holds when variable `k` has value `x(k)`.
pub open spec fn all_hold(cs: ConstraintSystem, x: spec_fn(usize) -> int) -> bool {
    forall|k: int| 0 <= k < cs.constraints@.len() ==> #[trigger] constraint_holds(cs.exprs@, cs.constraints@[k], x)
}

/// The system declares the parameters, in order, as its first variables
/// and expressions, and the output `return` after them when there is one.
pub open spec fn declares_params(cs: ConstraintSystem, ps: Seq<SourceParam>, output: bool) -> bool {
    let n = ps.len();
    let public = param_ids(ps, n as int, Visibility::Public);
    &&& cs.variables@.len() == (if output { n + 1 } else { n })
    &&& n <= cs.exprs@.len()
    &&& forall|k: int| 0 <= k < n ==> {
        &&& (#[trigger] cs.variables@[k]).name@ == param_name(ps[k])
        &&& cs.variables@[k].visibility == param_visibility(ps[k])
        &&& cs.exprs@[k] == Expr::Var(k as usize)
    }
    &&& cs.secret_inputs@ == param_ids(ps, n as int, Visibility::Secret)
    &&& if output {
        &&& cs.variables@[n as int].name@ == "return"@
        &&& cs.variables@[n as int].visibility == Visibility::Public
        &&& cs.public_inputs@.len() == public.len() + 1
        &&& cs.public_inputs@.drop_last() == public
        &&& cs.public_inputs@.last() < cs.exprs@.len()
        &&& cs.exprs@[cs.public_inputs@.last() as int] == Expr::Var(n as usize)
    } else {
        cs.public_inputs@ == public
    }
}

/// Each bound name's expression has the name's value `vals(name)`.
pub open spec fn env_agrees(env: Seq<(Seq<char>, ExprId)>, exprs: Seq<Expr>, x: spec_fn(usize) -> int, vals: spec_fn(Seq<char>) -> int) -> bool {
    forall|name: Seq<char>| #[trigger] lookup_env(env, name) matches Some(id) ==> expr_value(exprs, id as int, x) == vals(name)
}

/// An expression in the fragment has the same value under any two
/// valuations that agree on the names in scope.
pub proof fn lemma_src_value_agree(e: SourceExpr, env: Seq<(Seq<char>, ExprId)>, exprs: Seq<Expr>, x: spec_fn(usize) -> int, vals: spec_fn(Seq<char>) -> int)
    requires
        expr_supported(e, env_names(env)),
        env_agrees(env, exprs, x, vals),
    ensures src_value(e, env_vals(env, exprs, x)) == src_value(e, vals),
    decreases e,
{
    match e {
        SourceExpr::Path { name, .. } => {
            assert(lookup_env(env, name@) is Some);
        },
        SourceExpr::Paren { expr, .. } => lemma_src_value_agree(*expr, env, exprs, x, vals),
        SourceExpr::Unary { expr, .. } => lemma_src_value_agree(*expr, env, exprs, x, vals),
        SourceExpr::Binary { left, right, .. } => {
            lemma_src_value_agree(*left, env, exprs, x, vals);
            lemma_src_value_agree(*right, env, exprs, x, vals);
        },
        _ => {},
    }
}

/// Appending expressions leaves the values bound names have unchanged.
pub proof fn lemma_env_agrees_appended(env: Seq<(Seq<char>, ExprId)>, a: Seq<Expr>, b: Seq<Expr>, x: spec_fn(usize) -> int, vals: spec_fn(Seq<char>) -> int)
    requires
        a.len() <= b.len(),
        b.take(a.len() as int) == a,
        forall|k: int| 0 <= k < env.len() ==> (#[trigger] env[k]).1 < a.len(),
        env_agrees(env, a, x, vals),
    ensures env_agrees(env, b, x, vals),
{
    assert forall|name: Seq<char>| #[trigger] lookup_env(env, name) is Some implies expr_value(b, lookup_env(env, name)->0 as int, x) == vals(name) by {
        lemma_lookup_index(env, name);
        let id = lookup_env(env, name)->0;
        let k = choose|k: int| 0 <= k < env.len() && env[k].1 == id;
        lemma_expr_value_prefix(a, b, id as int, x);
    }
}

/// What constraint `c` encodes under the assignment `x`: its kind (as
/// [`constraint_kind`] numbers it) and the values of its two sides, the
/// second `0` for a one-sided constraint.
pub open spec fn constraint_form(exprs: Seq<Expr>, c: Constraint, x: spec_fn(usize) -> int) -> (int, int, int) {
    match c {
        Constraint::Zero(e) => (0, expr_value(exprs, e as int, x), 0),
        Constraint::Equal(l, r) => (1, expr_value(exprs, l as int, x), expr_value(exprs, r as int, x)),
        Constraint::NonNegative(e) => (2, expr_value(exprs, e as int, x), 0),
    }
}

/// The forms of a list of constraints under `x`.
pub open spec fn forms(exprs: Seq<Expr>, cs: Seq<Constraint>, x: spec_fn(usize) -> int) -> Seq<(int, int, int)> {
    cs.map_values(|c: Constraint| constraint_form(exprs, c, x))
}

/// The form of the constraint `assert!(a <op> b)` adds, for operand values
/// `a` and `b`: `a - b >= 0` for `>=`, `b - a >= 0` for `<=`, one less for
/// `>` and `<`, and the two sides `a` and `b` of an equality for `==`.
pub open spec fn comparison_form(op: SourceBinOp, a: int, b: int) -> (int, int, int) {
    match op {
        SourceBinOp::Ge => (2, a - b, 0),
        SourceBinOp::Le => (2, b - a, 0),
        SourceBinOp::Gt => (2, a - b - 1, 0),
        SourceBinOp::Lt => (2, b - a - 1, 0),
        _ => (1, a, b),
    }
}

/// The forms of the constraints an accepted macro adds, names valued by
/// `vals`.
pub open spec fn macro_forms(mac: SourceMacro, vals: spec_fn(Seq<char>) -> int) -> Seq<(int, int, int)> {
    if macro_named(mac, "assert"@) {
        match mac.one {
            Some(e) => match *e {
                SourceExpr::Binary { op, left, right, .. } => seq![comparison_form(op, src_value(*left, vals), src_value(*right, vals))],
                _ => Seq::empty(),
            },
            None => Seq::empty(),
        }
    } else if macro_named(mac, "assert_eq"@) {
        match mac.two {
            Some(args) => seq![(1int, src_value(*args.0, vals), src_value(*args.1, vals))],
            None => Seq::empty(),
        }
    } else {
        Seq::empty()
    }
}

/// The forms of the constraints an accepted expression statement adds: a
/// returned value `v` adds the equality of the output `out` and `v`.
pub open spec fn expr_stmt_forms(e: SourceExpr, vals: spec_fn(Seq<char>) -> int, out: int) -> Seq<(int, int, int)> {
    match e {
        SourceExpr::Macro { mac } => macro_forms(mac, vals),
        SourceExpr::Return { expr, .. } => match expr {
            Some(v) => seq![(1int, out, src_value(*v, vals))],
            None => Seq::empty(),
        },
        _ => seq![(1int, out, src_value(e, vals))],
    }
}

/// The forms of the constraints an accepted statement adds.
pub open spec fn stmt_forms(st: SourceStmt, vals: spec_fn(Seq<char>) -> int, out: int) -> Seq<(int, int, int)> {
    match st {
        SourceStmt::Macro { mac } => macro_forms(mac, vals),
        SourceStmt::Expr { expr, .. } => expr_stmt_forms(expr, vals, out),
        _ => Seq::empty(),
    }
}

/// The forms of the constraints the first `n` statements add, in order,
/// from parameter values `vals0` and output value `out`.
pub open spec fn body_forms(stmts: Seq<SourceStmt>, n: int, vals0: spec_fn(Seq<char>) -> int, out: int) -> Seq<(int, int, int)>
    decreases n,
{
    if n <= 0 {
        Seq::empty()
    } else {
        body_forms(stmts, n - 1, vals0, out) + stmt_forms(stmts[n - 1], body_sem(stmts, n - 1, vals0).0, out)
    }
}

/// Growing a system keeps the forms of its earlier constraints: the forms
/// of `b` are those of `a` followed by those of the constraints `b` adds.
pub proof fn lemma_forms_split(a: ConstraintSystem, b: ConstraintSystem, x: spec_fn(usize) -> int)
    requires
        constraints_in_range(a),
        a.exprs@.len() <= b.exprs@.len(),
        b.exprs@.take(a.exprs@.len() as int) == a.exprs@,
        a.constraints@.len() <= b.constraints@.len(),
        b.constraints@.take(a.constraints@.len() as int) == a.constraints@,
    ensures
        forms(b.exprs@, b.constraints@, x)
            == forms(a.exprs@, a.constraints@, x) + forms(b.exprs@, b.constraints@.skip(a.constraints@.len() as int), x),
{
    let n = a.constraints@.len() as int;
    assert forall|k: int| 0 <= k < n implies #[trigger] constraint_form(b.exprs@, b.constraints@[k], x)
        == constraint_form(a.exprs@, a.constraints@[k], x) by {
        assert(b.constraints@[k] == b.constraints@.take(n)[k]);
        match a.constraints@[k] {
            Constraint::Zero(e) | Constraint::NonNegative(e) => lemma_expr_value_prefix(a.exprs@, b.exprs@, e as int, x),
            Constraint::Equal(l, r) => {
                lemma_expr_value_prefix(a.exprs@, b.exprs@, l as int, x);
                lemma_expr_value_prefix(a.exprs@, b.exprs@, r as int, x);
            },
        }
    }
    assert(forms(b.exprs@, b.constraints@, x)
        =~= forms(a.exprs@, a.constraints@, x) + forms(b.exprs@, b.constraints@.skip(n), x));
}

/// Appending expressions leaves whether the constraints hold unchanged.
pub proof fn lemma_all_hold_appended(a: ConstraintSystem, b: ConstraintSystem, x: spec_fn(usize) -> int)
    requires
        constraints_in_range(a),
        a.exprs@.len() <= b.exprs@.len(),
        b.exprs@.take(a.exprs@.len() as int) == a.exprs@,
        b.constraints@ == a.constraints@,
    ensures all_hold(a, x) == all_hold(b, x),
{
    assert forall|k: int| 0 <= k < a.constraints@.len() implies
        constraint_holds(a.exprs@, a.constraints@[k], x) == constraint_holds(b.exprs@, b.constraints@[k], x) by {
        match a.constraints@[k] {
            Constraint::Zero(e) | Constraint::NonNegative(e) => lemma_expr_value_prefix(a.exprs@, b.exprs@, e as int, x),
            Constraint::Equal(l, r) => {
                lemma_expr_value_prefix(a.exprs@, b.exprs@, l as int, x);
                lemma_expr_value_prefix(a.exprs@, b.exprs@, r as int, x);
            },
        }
    }
    if all_hold(a, x) {
        assert forall|k: int| 0 <= k < b.constraints@.len() implies #[trigger] constraint_holds(b.exprs@, b.constraints@[k], x) by {
            assert(constraint_holds(a.exprs@, a.constraints@[k], x));
        }
    }
    if all_hold(b, x) {
        assert forall|k: int| 0 <= k < a.constraints@.len() implies #[trigger] constraint_holds(a.exprs@, a.constraints@[k], x) by {
            assert(constraint_holds(b.exprs@, b.constraints@[k], x));
        }
    }
}


/// Appending expressions and constraints twice is appending them.
pub proof fn lemma_grown_trans(a: ConstraintSystem, b: ConstraintSystem, c: ConstraintSystem)
    requires
        only_exprs_constraints_appended(a, b),
        only_exprs_constraints_appended(b, c),
    ensures only_exprs_constraints_appended(a, c),
{
    assert(c.exprs@.take(a.exprs@.len() as int) =~= b.exprs@.take(a.exprs@.len() as int));
    assert(c.constraints@.take(a.constraints@.len() as int) =~= b.constraints@.take(a.constraints@.len() as int));
}

/// Appending expressions only is a case of appending expressions and constraints.
pub proof fn lemma_appended_grown(a: ConstraintSystem, b: ConstraintSystem)
    requires only_exprs_appended(a, b),
    ensures only_exprs_constraints_appended(a, b),
{
    assert(b.constraints@.take(a.constraints@.len() as int) =~= a.constraints@);
}

/// Appending expressions and constraints keeps the declared parameters.
pub proof fn lemma_declares_params_kept(a: ConstraintSystem, b: ConstraintSystem, ps: Seq<SourceParam>, output: bool)
    requires
        declares_params(a, ps, output),
        only_exprs_constraints_appended(a, b),
    ensures declares_params(b, ps, output),
{
    assert forall|k: int| 0 <= k < ps.len() implies b.exprs@[k] == a.exprs@[k] by {
        assert(b.exprs@.take(a.exprs@.len() as int)[k] == b.exprs@[k]);
    }
    if output {
        let last = a.public_inputs@.last() as int;
        assert(b.exprs@.take(a.exprs@.len() as int)[last] == b.exprs@[last]);
    }
}

impl Lowerer {
    /// After pushing constraint `c` (over expressions of `before`) onto
    /// `before`, the invariant holds and the constraints hold exactly when
    /// they held before and `c` holds.
    proof fn lemma_constraint_keeps_inv(&self, before: ConstraintSystem, c: Constraint)
        requires
            well_formed_system(before),
            self.sys().pushed_constraint(before, c),
            forall|k: int| 0 <= k < self.env@.len() ==> (#[trigger] self.env@[k]).1 < before.exprs@.len(),
            constraint_in_range(c, before.exprs@.len() as int),
        ensures
            self.inv(),
            only_exprs_constraints_appended(before, self.sys()),
            forall|x: spec_fn(usize) -> int| #[trigger] all_hold(self.sys(), x) == (all_hold(before, x) && constraint_holds(before.exprs@, c, x)),
    {
        let cs = self.sys();
        assert(cs.exprs@.take(before.exprs@.len() as int) =~= before.exprs@);
        assert(cs.constraints@.take(before.constraints@.len() as int) =~= before.constraints@);
        assert forall|k: int| 0 <= k < cs.constraints@.len() implies match #[trigger] cs.constraints@[k] {
            Constraint::Zero(e) | Constraint::NonNegative(e) => e < cs.exprs@.len(),
            Constraint::Equal(l, r) => l < cs.exprs@.len() && r < cs.exprs@.len(),
        } by {
            if k < before.constraints@.len() {
                assert(cs.constraints@[k] == before.constraints@[k]);
            }
        }
        assert forall|x: spec_fn(usize) -> int| #[trigger] all_hold(self.sys(), x) == (all_hold(before, x) && constraint_holds(before.exprs@, c, x)) by {
            if all_hold(self.sys(), x) {
                assert forall|k: int| 0 <= k < before.constraints@.len() implies #[trigger] constraint_holds(before.exprs@, before.constraints@[k], x) by {
                    assert(constraint_holds(cs.exprs@, cs.constraints@[k], x));
                    assert(cs.constraints@[k] == before.constraints@[k]);
                }
                assert(constraint_holds(cs.exprs@, cs.constraints@[before.constraints@.len() as int], x));
            }
            if all_hold(before, x) && constraint_holds(before.exprs@, c, x) {
                assert forall|k: int| 0 <= k < cs.constraints@.len() implies #[trigger] constraint_holds(cs.exprs@, cs.constraints@[k], x) by {
                    if k < before.constraints@.len() {
                        assert(cs.constraints@[k] == before.constraints@[k]);
                        assert(constraint_holds(before.exprs@, before.constraints@[k], x));
                    }
                }
            }
        }
    }

    /// Pushes `e` onto the expression table and returns its id.
    fn emit(&mut self, e: Expr) -> (id: ExprId)
        requires
            old(self).inv(),
            match e {
                Expr::Add(l, r) | Expr::Sub(l, r) | Expr::Mul(l, r) => l < old(self).sys().exprs@.len() && r < old(self).sys().exprs@.len(),
                Expr::Neg(n) => n < old(self).sys().exprs@.len(),
                Expr::Var(_) => false,
                Expr::Const(_) => true,
            },
        ensures
            final(self).inv(),
            final(self).env == old(self).env,
            final(self).has_return == old(self).has_return,
            final(self).output_bound == old(self).output_bound,
            final(self).sys().pushed_expr(old(self).sys(), e),
            only_exprs_appended(old(self).sys(), final(self).sys()),
            id == old(self).sys().exprs@.len(),
    {
        let ghost s0 = self.sys();
        let id = match e {
            Expr::Const(v) => self.builder.constant(v),
            Expr::Add(l, r) => self.builder.add(l, r),
            Expr::Sub(l, r) => self.builder.sub(l, r),
            Expr::Mul(l, r) => self.builder.mul(l, r),
            Expr::Neg(n) => self.builder.neg(n),
            Expr::Var(_) => self.builder.constant(0),
        };
        proof { self.lemma_push_keeps_inv(s0, e); }
        id
    }

    /// Constrains `a - b >= 0`, or `a - b - 1 >= 0` when `strict`.
    fn emit_ordered(&mut self, a: ExprId, b: ExprId, strict: bool)
        requires
            old(self).inv(),
            a < old(self).sys().exprs@.len(),
            b < old(self).sys().exprs@.len(),
        ensures
            final(self).inv(),
            final(self).env == old(self).env,
            final(self).has_return == old(self).has_return,
            final(self).output_bound == old(self).output_bound,
            only_exprs_constraints_appended(old(self).sys(), final(self).sys()),
            kinds(final(self).sys().constraints@) == kinds(old(self).sys().constraints@) + seq![2int],
            final(self).sys().constraints@.len() == old(self).sys().constraints@.len() + 1,
            ordered_emitted(final(self).sys().exprs@, final(self).sys().constraints@.last(), a, b, strict),
            forall|x: spec_fn(usize) -> int| #[trigger] forms(final(self).sys().exprs@, final(self).sys().constraints@, x)
                == forms(old(self).sys().exprs@, old(self).sys().constraints@, x) + seq![(2int, expr_value(old(self).sys().exprs@, a as int, x)
                    - expr_value(old(self).sys().exprs@, b as int, x) - (if strict { 1int } else { 0int }), 0int)],
            forall|x: spec_fn(usize) -> int| #[trigger] all_hold(final(self).sys(), x) == (all_hold(old(self).sys(), x) && (if strict {
                expr_value(old(self).sys().exprs@, a as int, x) > expr_value(old(self).sys().exprs@, b as int, x)
            } else {
                expr_value(old(self).sys().exprs@, a as int, x) >= expr_value(old(self).sys().exprs@, b as int, x)
            })),
    {
        let ghost s0 = self.sys();
        let d = self.emit(Expr::Sub(a, b));
        let ghost s1 = self.sys();
        let target = if strict {
            let one = self.emit(Expr::Const(1));
            let ghost s2 = self.sys();
            let e = self.emit(Expr::Sub(d, one));
            proof { lemma_appended_trans(s1, s2, self.sys()); }
            e
        } else {
            d
        };
        let ghost s3 = self.sys();
        proof {
            if !strict {
                assert(s3.exprs@.take(s1.exprs@.len() as int) =~= s1.exprs@);
            }
            lemma_appended_trans(s0, s1, s3);
        }
        self.builder.constrain_non_negative(target);
        proof {
            if strict {
                assert(s3.exprs@[target as int] == Expr::Sub(d, (d + 1) as usize));
                assert(s3.exprs@[(d + 1) as int] == Expr::Const(1));
            }
            assert(s3.exprs@[d as int] == Expr::Sub(a, b));
            lemma_kinds_push(s3.constraints@, Constraint::NonNegative(target));
            self.lemma_constraint_keeps_inv(s3, Constraint::NonNegative(target));
            lemma_appended_grown(s0, s3);
            lemma_grown_trans(s0, s3, self.sys());
            assert forall|x: spec_fn(usize) -> int| #[trigger] all_hold(self.sys(), x) == (all_hold(s0, x) && (if strict {
                expr_value(s0.exprs@, a as int, x) > expr_value(s0.exprs@, b as int, x)
            } else {
                expr_value(s0.exprs@, a as int, x) >= expr_value(s0.exprs@, b as int, x)
            })) by {
                lemma_all_hold_appended(s0, s3, x);
                lemma_expr_value_prefix(s0.exprs@, s1.exprs@, a as int, x);
                lemma_expr_value_prefix(s0.exprs@, s1.exprs@, b as int, x);
                lemma_expr_value_prefix(s1.exprs@, s3.exprs@, d as int, x);
                assert(expr_value(s1.exprs@, d as int, x) == expr_value(s0.exprs@, a as int, x) - expr_value(s0.exprs@, b as int, x));
                if strict {
                    assert(s3.exprs@[target as int] == Expr::Sub(d, (d + 1) as usize));
                    assert(s3.exprs@[(d + 1) as int] == Expr::Const(1));
                    assert(expr_value(s3.exprs@, (d + 1) as int, x) == 1);
                    assert(expr_value(s3.exprs@, target as int, x) == expr_value(s3.exprs@, d as int, x) - 1);
                } else {
                    assert(target == d);
                }
                assert(all_hold(self.sys(), x) == (all_hold(s3, x) && expr_value(s3.exprs@, target as int, x) >= 0));
            }
            assert forall|x: spec_fn(usize) -> int| #[trigger] forms(self.sys().exprs@, self.sys().constraints@, x)
                == forms(s0.exprs@, s0.constraints@, x) + seq![(2int, expr_value(s0.exprs@, a as int, x)
                    - expr_value(s0.exprs@, b as int, x) - (if strict { 1int } else { 0int }), 0int)] by {
                lemma_forms_split(s0, self.sys(), x);
                lemma_expr_value_prefix(s0.exprs@, s1.exprs@, a as int, x);
                lemma_expr_value_prefix(s0.exprs@, s1.exprs@, b as int, x);
                lemma_expr_value_prefix(s1.exprs@, s3.exprs@, d as int, x);
                if strict {
                    assert(expr_value(s3.exprs@, (d + 1) as int, x) == 1);
                }
                assert(self.sys().constraints@.skip(s0.constraints@.len() as int) =~= seq![Constraint::NonNegative(target)]);
            }
        }
    }

    /// Compiles two expressions, the first before the second.
    fn compile_pair(&mut self, a: &SourceExpr, b: &SourceExpr, Ghost(sem): Ghost<spec_fn(spec_fn(usize) -> int) -> spec_fn(Seq<char>) -> int>)
        -> (r: Result<(ExprId, ExprId), LowerError>)
        requires
            old(self).inv(),
            forall|x: spec_fn(usize) -> int| env_agrees(old(self).env_view(), old(self).sys().exprs@, x, #[trigger] sem(x)),
        ensures
            final(self).inv(),
            final(self).env == old(self).env,
            final(self).has_return == old(self).has_return,
            final(self).output_bound == old(self).output_bound,
            only_exprs_appended(old(self).sys(), final(self).sys()),
            forall|x: spec_fn(usize) -> int| env_agrees(final(self).env_view(), final(self).sys().exprs@, x, #[trigger] sem(x)),
            r is Ok <==> expr_supported(*a, env_names(old(self).env_view())) && expr_supported(*b, env_names(old(self).env_view())),
            r matches Err(e) ==> e == (if !expr_supported(*a, env_names(old(self).env_view())) {
                expr_error(*a, env_names(old(self).env_view()))
            } else {
                expr_error(*b, env_names(old(self).env_view()))
            }),
            r matches Ok(ids) ==> ids.0 < final(self).sys().exprs@.len() && ids.1 < final(self).sys().exprs@.len()
                && forall|x: spec_fn(usize) -> int| #[trigger] sem(x) == sem(x) ==>
                    expr_value(final(self).sys().exprs@, ids.0 as int, x) == src_value(*a, sem(x))
                    && expr_value(final(self).sys().exprs@, ids.1 as int, x) == src_value(*b, sem(x)),
    {
        let ghost s0 = self.sys();
        let ghost env = self.env_view();
        let l = match self.compile_expr(a) {
            Ok(id) => id,
            Err(e) => {
                proof {
                    assert forall|x: spec_fn(usize) -> int| env_agrees(self.env_view(), self.sys().exprs@, x, #[trigger] sem(x)) by {
                        lemma_env_agrees_appended(env, s0.exprs@, self.sys().exprs@, x, sem(x));
                    }
                }
                return Err(e);
            },
        };
        let ghost s1 = self.sys();
        proof {
            assert forall|x: spec_fn(usize) -> int| env_agrees(self.env_view(), self.sys().exprs@, x, #[trigger] sem(x)) by {
                lemma_env_agrees_appended(env, s0.exprs@, s1.exprs@, x, sem(x));
            }
        }
        let r = match self.compile_expr(b) {
            Ok(id) => id,
            Err(e) => {
                proof {
                    lemma_appended_trans(s0, s1, self.sys());
                    assert forall|x: spec_fn(usize) -> int| env_agrees(self.env_view(), self.sys().exprs@, x, #[trigger] sem(x)) by {
                        lemma_env_agrees_appended(env, s1.exprs@, self.sys().exprs@, x, sem(x));
                    }
                }
                return Err(e);
            },
        };
        proof {
            let s2 = self.sys();
            lemma_appended_trans(s0, s1, s2);
            assert forall|x: spec_fn(usize) -> int| env_agrees(self.env_view(), self.sys().exprs@, x, #[trigger] sem(x)) by {
                lemma_env_agrees_appended(env, s1.exprs@, s2.exprs@, x, sem(x));
            }
            assert forall|x: spec_fn(usize) -> int| #[trigger] sem(x) == sem(x) implies
                expr_value(s2.exprs@, l as int, x) == src_value(*a, sem(x))
                && expr_value(s2.exprs@, r as int, x) == src_value(*b, sem(x)) by {
                lemma_env_agrees_appended(env, s0.exprs@, s1.exprs@, x, sem(x));
                lemma_src_value_agree(*a, env, s0.exprs@, x, sem(x));
                lemma_src_value_agree(*b, env, s1.exprs@, x, sem(x));
                lemma_expr_value_prefix(s1.exprs@, s2.exprs@, l as int, x);
            }
        }
        Ok((l, r))
    }
}


/// What `assert!(a <op> b)` lowers to passes the circuit check: when
/// `table` holds the canonical polynomial of every expression, as
/// `normalize_all` returns it, the polynomial the emitted constraint encodes
/// is exactly the one `check_comparison` expects for `a <op> b`.
pub proof fn law_emitted_comparison_passes_check(
    exprs: Seq<Expr>,
    table: Seq<Polynomial>,
    c: Constraint,
    op: SourceBinOp,
    a: ExprId,
    b: ExprId,
)
    requires
        exprs_ordered(exprs),
        a < exprs.len(),
        b < exprs.len(),
        comparison_emitted(exprs, c, op, a, b),
        table.len() == exprs.len(),
        forall|i: int| 0 <= i < table.len() ==> (#[trigger] table[i])@ == expr_terms(exprs, i),
    ensures
        found_view(views(table), c) == expected_view(views(table), comparison_of(op), a as int, b as int),
{
    let t = views(table);
    assert(t[a as int] == expr_terms(exprs, a as int));
    assert(t[b as int] == expr_terms(exprs, b as int));
    match c {
        Constraint::NonNegative(e) => {
            assert(t[e as int] == expr_terms(exprs, e as int));
            if op == SourceBinOp::Gt || op == SourceBinOp::Lt {
                let (d, one) = match exprs[e as int] {
                    Expr::Sub(d, one) => (d, one),
                    _ => (0usize, 0usize),
                };
                assert(exprs[e as int] == Expr::Sub(d, one));
                assert(d < e && one < e);
                assert(exprs[d as int] is Sub);
                assert(a < d && b < d);
                assert(expr_terms(exprs, one as int) == one_view()) by {
                    assert((|m: Seq<usize>| if m.len() == 0 { 1i64 as int } else { 0 })
                        =~= (|m: Seq<usize>| if m.len() == 0 { 1int } else { 0 }));
                }
                assert(expr_terms(exprs, d as int) == diff_view(expr_terms(exprs, a as int), expr_terms(exprs, b as int))
                    || expr_terms(exprs, d as int) == diff_view(expr_terms(exprs, b as int), expr_terms(exprs, a as int)));
                assert(expr_terms(exprs, e as int) == diff_view(expr_terms(exprs, d as int), expr_terms(exprs, one as int)));
            } else {
                assert(exprs[e as int] is Sub);
                assert(a < e && b < e);
            }
        },
        _ => {},
    }
}

/// A system is a prefix of itself.
pub proof fn lemma_grown_refl(a: ConstraintSystem)
    ensures
        only_exprs_appended(a, a),
        only_exprs_constraints_appended(a, a),
{
    assert(a.exprs@.take(a.exprs@.len() as int) =~= a.exprs@);
    assert(a.constraints@.take(a.constraints@.len() as int) =~= a.constraints@);
}

impl Lowerer {
    /// Constrains `l == r`.
    fn emit_equal(&mut self, l: ExprId, r: ExprId)
        requires
            old(self).inv(),
            l < old(self).sys().exprs@.len(),
            r < old(self).sys().exprs@.len(),
        ensures
            final(self).inv(),
            final(self).env == old(self).env,
            final(self).has_return == old(self).has_return,
            final(self).output_bound == old(self).output_bound,
            only_exprs_constraints_appended(old(self).sys(), final(self).sys()),
            kinds(final(self).sys().constraints@) == kinds(old(self).sys().constraints@) + seq![1int],
            final(self).sys().exprs@ == old(self).sys().exprs@,
            final(self).sys().constraints@ == old(self).sys().constraints@.push(Constraint::Equal(l, r)),
            forall|x: spec_fn(usize) -> int| #[trigger] forms(final(self).sys().exprs@, final(self).sys().constraints@, x)
                == forms(old(self).sys().exprs@, old(self).sys().constraints@, x) + seq![(1int, expr_value(old(self).sys().exprs@, l as int, x),
                    expr_value(old(self).sys().exprs@, r as int, x))],
            forall|x: spec_fn(usize) -> int| #[trigger] all_hold(final(self).sys(), x) == (all_hold(old(self).sys(), x)
                && expr_value(old(self).sys().exprs@, l as int, x) == expr_value(old(self).sys().exprs@, r as int, x)),
    {
        let ghost s0 = self.sys();
        self.builder.constrain_eq(l, r);
        proof {
            lemma_kinds_push(s0.constraints@, Constraint::Equal(l, r));
            self.lemma_constraint_keeps_inv(s0, Constraint::Equal(l, r));
            assert forall|x: spec_fn(usize) -> int| #[trigger] forms(self.sys().exprs@, self.sys().constraints@, x)
                == forms(s0.exprs@, s0.constraints@, x) + seq![(1int, expr_value(s0.exprs@, l as int, x),
                    expr_value(s0.exprs@, r as int, x))] by {
                assert(forms(self.sys().exprs@, self.sys().constraints@, x) =~= forms(s0.exprs@, s0.constraints@, x)
                    + seq![constraint_form(s0.exprs@, Constraint::Equal(l, r), x)]);
            }
        }
    }

    /// Lowers `assert!(left <op> right)`: `left - right >= 0` for `>=`,
    /// `right - left >= 0` for `<=`, one less than those for `>` and `<`, and
    /// `left == right` for `==`; `!=` and other operators are refused.
    fn lower_comparison(&mut self, op: SourceBinOp, left: &SourceExpr, right: &SourceExpr, span: Span,
        Ghost(sem): Ghost<spec_fn(spec_fn(usize) -> int) -> spec_fn(Seq<char>) -> int>) -> (r: Result<(), LowerError>)
        requires
            old(self).inv(),
            forall|x: spec_fn(usize) -> int| env_agrees(old(self).env_view(), old(self).sys().exprs@, x, #[trigger] sem(x)),
        ensures
            final(self).inv(),
            final(self).env == old(self).env,
            final(self).has_return == old(self).has_return,
            final(self).output_bound == old(self).output_bound,
            only_exprs_constraints_appended(old(self).sys(), final(self).sys()),
            r is Ok <==> comparison_error(op, *left, *right, span, env_names(old(self).env_view())) is None,
            r matches Err(e) ==> comparison_error(op, *left, *right, span, env_names(old(self).env_view())) == Some(e),
            r is Ok ==> forall|x: spec_fn(usize) -> int| env_agrees(final(self).env_view(), final(self).sys().exprs@, x, #[trigger] sem(x)),
            r is Ok ==> forall|x: spec_fn(usize) -> int| #[trigger] all_hold(final(self).sys(), x) == (all_hold(old(self).sys(), x)
                && source_comparison_holds(op, src_value(*left, sem(x)), src_value(*right, sem(x)))),
            r is Ok ==> kinds(final(self).sys().constraints@) == kinds(old(self).sys().constraints@)
                + (if op == SourceBinOp::Eq { seq![1int] } else { seq![2int] }),
            r is Ok ==> final(self).sys().constraints@.len() == old(self).sys().constraints@.len() + 1,
            r is Ok ==> forall|x: spec_fn(usize) -> int| #[trigger] forms(final(self).sys().exprs@, final(self).sys().constraints@, x)
                == forms(old(self).sys().exprs@, old(self).sys().constraints@, x)
                    + seq![comparison_form(op, src_value(*left, sem(x)), src_value(*right, sem(x)))],
            r is Ok ==> exists|a: ExprId, b: ExprId| {
                &&& #[trigger] comparison_emitted(final(self).sys().exprs@, final(self).sys().constraints@.last(), op, a, b)
                &&& a < final(self).sys().exprs@.len()
                &&& b < final(self).sys().exprs@.len()
                &&& forall|x: spec_fn(usize) -> int| #[trigger] sem(x) == sem(x) ==>
                    expr_value(final(self).sys().exprs@, a as int, x) == src_value(*left, sem(x))
                    && expr_value(final(self).sys().exprs@, b as int, x) == src_value(*right, sem(x))
            },
    {
        let ghost s0 = self.sys();
        let ghost env = self.env_view();
        let (l, r) = match self.compile_pair(left, right, Ghost(sem)) {
            Ok(ids) => ids,
            Err(e) => {
                proof { lemma_appended_grown(s0, self.sys()); }
                return Err(e);
            },
        };
        let ghost s1 = self.sys();
        proof { lemma_appended_grown(s0, s1); }
        match op {
            SourceBinOp::Ge => self.emit_ordered(l, r, false),
            SourceBinOp::Le => self.emit_ordered(r, l, false),
            SourceBinOp::Gt => self.emit_ordered(l, r, true),
            SourceBinOp::Lt => self.emit_ordered(r, l, true),
            SourceBinOp::Eq => self.emit_equal(l, r),
            SourceBinOp::Ne => { return err(LowerErrorKind::NotEqual, span); },
            _ => { return err(LowerErrorKind::UnsupportedComparison, span); },
        }
        proof {
            let s2 = self.sys();
            lemma_grown_trans(s0, s1, s2);
            assert forall|x: spec_fn(usize) -> int| env_agrees(self.env_view(), s2.exprs@, x, #[trigger] sem(x)) by {
                lemma_env_agrees_appended(env, s1.exprs@, s2.exprs@, x, sem(x));
            }
            assert forall|x: spec_fn(usize) -> int| #[trigger] all_hold(s2, x) == (all_hold(s0, x)
                && source_comparison_holds(op, src_value(*left, sem(x)), src_value(*right, sem(x)))) by {
                lemma_all_hold_appended(s0, s1, x);
                assert(sem(x) == sem(x));
            }
            assert forall|x: spec_fn(usize) -> int| #[trigger] sem(x) == sem(x) implies
                expr_value(s2.exprs@, l as int, x) == src_value(*left, sem(x))
                && expr_value(s2.exprs@, r as int, x) == src_value(*right, sem(x)) by {
                lemma_expr_value_prefix(s1.exprs@, s2.exprs@, l as int, x);
                lemma_expr_value_prefix(s1.exprs@, s2.exprs@, r as int, x);
            }
            assert(comparison_emitted(s2.exprs@, s2.constraints@.last(), op, l, r));
            assert forall|x: spec_fn(usize) -> int| #[trigger] forms(s2.exprs@, s2.constraints@, x)
                == forms(s0.exprs@, s0.constraints@, x)
                    + seq![comparison_form(op, src_value(*left, sem(x)), src_value(*right, sem(x)))] by {
                lemma_forms_split(s0, s1, x);
                assert(s1.constraints@.skip(s0.constraints@.len() as int) =~= Seq::<Constraint>::empty());
                assert(forms(s1.exprs@, s1.constraints@, x) == forms(s0.exprs@, s0.constraints@, x));
                assert(sem(x) == sem(x));
            }
        }
        Ok(())
    }

    /// Declares the public output `return` and constrains it to equal `handle`.
    fn bind_output(&mut self, handle: ExprId, span: Span, Ghost(ps): Ghost<Seq<SourceParam>>) -> (r: Result<(), LowerError>)
        requires
            old(self).inv(),
            handle < old(self).sys().exprs@.len(),
            declares_params(old(self).sys(), ps, old(self).output_bound),
        ensures
            final(self).inv(),
            final(self).env == old(self).env,
            final(self).has_return == old(self).has_return,
            final(self).sys().name == old(self).sys().name,
            r is Ok <==> !old(self).output_bound,
            r matches Err(e) ==> e == (LowerError { kind: LowerErrorKind::ReturnTwice, span }),
            r is Ok ==> final(self).output_bound && declares_params(final(self).sys(), ps, true),
            r is Ok ==> old(self).sys().exprs@.len() <= final(self).sys().exprs@.len()
                && final(self).sys().exprs@.take(old(self).sys().exprs@.len() as int) == old(self).sys().exprs@,
            r is Ok ==> kinds(final(self).sys().constraints@) == kinds(old(self).sys().constraints@) + seq![1int],
            r is Ok ==> forall|x: spec_fn(usize) -> int| #[trigger] all_hold(final(self).sys(), x) == (all_hold(old(self).sys(), x)
                && x(ps.len() as usize) == expr_value(old(self).sys().exprs@, handle as int, x)),
            r is Ok ==> forall|x: spec_fn(usize) -> int| #[trigger] forms(final(self).sys().exprs@, final(self).sys().constraints@, x)
                == forms(old(self).sys().exprs@, old(self).sys().constraints@, x)
                    + seq![(1int, x(ps.len() as usize), expr_value(old(self).sys().exprs@, handle as int, x))],
    {
        if self.output_bound {
            return err(LowerErrorKind::ReturnTwice, span);
        }
        let ghost s0 = self.sys();
        let out = self.builder.output("return");
        let ghost s1 = self.sys();
        proof {
            reveal_strlit("return");
            let ex = s1.exprs@;
            assert(ex.take(s0.exprs@.len() as int) =~= s0.exprs@);
            assert forall|id: int| 0 <= id < ex.len() implies match #[trigger] ex[id] {
                Expr::Add(l, r) | Expr::Sub(l, r) | Expr::Mul(l, r) => l < id && r < id,
                Expr::Neg(e) => e < id,
                _ => true,
            } by {
                if id < s0.exprs@.len() {
                    assert(ex[id] == s0.exprs@[id]);
                }
            }
            assert forall|id: int| 0 <= id < ex.len() implies match #[trigger] ex[id] {
                Expr::Var(v) => v < s1.variables@.len(),
                _ => true,
            } by {
                if id < s0.exprs@.len() {
                    assert(ex[id] == s0.exprs@[id]);
                }
            }
            assert forall|i: int| 0 <= i < s1.public_inputs@.len() implies #[trigger] s1.public_inputs@[i] < ex.len() by {
                if i < s0.public_inputs@.len() {
                    assert(s1.public_inputs@[i] == s0.public_inputs@[i]);
                }
            }
            assert forall|k: int| 0 <= k < ps.len() implies {
                &&& (#[trigger] s1.variables@[k]).name@ == param_name(ps[k])
                &&& s1.variables@[k].visibility == param_visibility(ps[k])
                &&& s1.exprs@[k] == Expr::Var(k as usize)
            } by {
                assert(s1.variables@[k] == s1.variables@.drop_last()[k]);
                assert(s1.exprs@[k] == s0.exprs@[k]);
            }
            assert(s1.public_inputs@.drop_last() =~= s0.public_inputs@);
            assert(declares_params(s1, ps, true));
            assert(self.inv());
        }
        self.builder.constrain_eq(out, handle);
        proof {
            lemma_kinds_push(s1.constraints@, Constraint::Equal(out, handle));
            self.lemma_constraint_keeps_inv(s1, Constraint::Equal(out, handle));
            lemma_declares_params_kept(s1, self.sys(), ps, true);
            assert(self.sys().exprs@.take(s0.exprs@.len() as int) =~= s0.exprs@);
            assert forall|x: spec_fn(usize) -> int| #[trigger] all_hold(self.sys(), x) == (all_hold(s0, x)
                && x(ps.len() as usize) == expr_value(s0.exprs@, handle as int, x)) by {
                lemma_all_hold_appended(s0, s1, x);
                lemma_expr_value_prefix(s0.exprs@, s1.exprs@, handle as int, x);
            }
            assert(self.sys().constraints@.take(s0.constraints@.len() as int) =~= s0.constraints@);
            assert forall|x: spec_fn(usize) -> int| #[trigger] forms(self.sys().exprs@, self.sys().constraints@, x)
                == forms(s0.exprs@, s0.constraints@, x)
                    + seq![(1int, x(ps.len() as usize), expr_value(s0.exprs@, handle as int, x))] by {
                lemma_forms_split(s0, self.sys(), x);
                lemma_expr_value_prefix(s0.exprs@, s1.exprs@, handle as int, x);
                assert(self.sys().constraints@.skip(s0.constraints@.len() as int) =~= seq![Constraint::Equal(out, handle)]);
                assert(constraint_holds(s1.exprs@, Constraint::Equal(out, handle), x)
                    == (x(ps.len() as usize) == expr_value(s0.exprs@, handle as int, x)));
            }
        }
        self.output_bound = true;
        Ok(())
    }

    /// Lowers an `assert!` or `assert_eq!` invocation.
    fn lower_macro(&mut self, mac: &SourceMacro, Ghost(sem): Ghost<spec_fn(spec_fn(usize) -> int) -> spec_fn(Seq<char>) -> int>)
        -> (r: Result<(), LowerError>)
        requires
            old(self).inv(),
            forall|x: spec_fn(usize) -> int| env_agrees(old(self).env_view(), old(self).sys().exprs@, x, #[trigger] sem(x)),
        ensures
            final(self).inv(),
            final(self).env == old(self).env,
            final(self).has_return == old(self).has_return,
            final(self).output_bound == old(self).output_bound,
            only_exprs_constraints_appended(old(self).sys(), final(self).sys()),
            r is Ok <==> macro_error(*mac, env_names(old(self).env_view())) is None,
            r matches Err(e) ==> macro_error(*mac, env_names(old(self).env_view())) == Some(e),
            r is Ok ==> forall|x: spec_fn(usize) -> int| env_agrees(final(self).env_view(), final(self).sys().exprs@, x, #[trigger] sem(x)),
            r is Ok ==> forall|x: spec_fn(usize) -> int| #[trigger] all_hold(final(self).sys(), x) == (all_hold(old(self).sys(), x)
                && macro_holds(*mac, sem(x))),
            r is Ok ==> kinds(final(self).sys().constraints@) == kinds(old(self).sys().constraints@) + macro_kinds(*mac),
            r is Ok ==> forall|x: spec_fn(usize) -> int| #[trigger] forms(final(self).sys().exprs@, final(self).sys().constraints@, x)
                == forms(old(self).sys().exprs@, old(self).sys().constraints@, x) + macro_forms(*mac, sem(x)),
    {
        let ghost s0 = self.sys();
        let ghost env = self.env_view();
        proof { lemma_grown_refl(s0); }
        match &mac.name {
            None => err(LowerErrorKind::EmptyMacroPath, mac.span),
            Some(n) => {
                if string_is(n, "assert") {
                    match &mac.one {
                        None => err(LowerErrorKind::AssertArgs, mac.span),
                        Some(e) => match &**e {
                            SourceExpr::Binary { op, left, right, span } => self.lower_comparison(*op, left, right, *span, Ghost(sem)),
                            other => err(LowerErrorKind::AssertNotComparison, other.span()),
                        },
                    }
                } else if string_is(n, "assert_eq") {
                    match &mac.two {
                        None => err(LowerErrorKind::AssertEqArgs, mac.span),
                        Some(args) => {
                            let (l, r) = match self.compile_pair(&args.0, &args.1, Ghost(sem)) {
                                Ok(ids) => ids,
                                Err(e) => {
                                    proof { lemma_appended_grown(s0, self.sys()); }
                                    return Err(e);
                                },
                            };
                            let ghost s1 = self.sys();
                            self.emit_equal(l, r);
                            proof {
                                let s2 = self.sys();
                                lemma_appended_grown(s0, s1);
                                lemma_grown_trans(s0, s1, s2);
                                assert forall|x: spec_fn(usize) -> int| env_agrees(self.env_view(), s2.exprs@, x, #[trigger] sem(x)) by {
                                    lemma_env_agrees_appended(env, s1.exprs@, s2.exprs@, x, sem(x));
                                }
                                assert forall|x: spec_fn(usize) -> int| #[trigger] all_hold(s2, x) == (all_hold(s0, x)
                                    && macro_holds(*mac, sem(x))) by {
                                    lemma_all_hold_appended(s0, s1, x);
                                    assert(sem(x) == sem(x));
                                }
                                assert forall|x: spec_fn(usize) -> int| #[trigger] forms(s2.exprs@, s2.constraints@, x)
                                    == forms(s0.exprs@, s0.constraints@, x) + macro_forms(*mac, sem(x)) by {
                                    lemma_forms_split(s0, s1, x);
                                    assert(s1.constraints@.skip(s0.constraints@.len() as int) =~= Seq::<Constraint>::empty());
                                    assert(forms(s1.exprs@, s1.constraints@, x) == forms(s0.exprs@, s0.constraints@, x));
                                    assert(sem(x) == sem(x));
                                }
                            }
                            Ok(())
                        },
                    }
                } else {
                    err(LowerErrorKind::UnsupportedMacro { name: n.clone() }, mac.name_span)
                }
            },
        }
    }

    /// Lowers a `let` binding.
    fn lower_local(&mut self, attrs: &Vec<Span>, pat: &SourcePat, init: &Option<SourceInit>, span: Span,
        Ghost(sem): Ghost<spec_fn(spec_fn(usize) -> int) -> spec_fn(Seq<char>) -> int>) -> (r: Result<(), LowerError>)
        requires
            old(self).inv(),
            forall|x: spec_fn(usize) -> int| env_agrees(old(self).env_view(), old(self).sys().exprs@, x, #[trigger] sem(x)),
        ensures
            final(self).inv(),
            final(self).has_return == old(self).has_return,
            final(self).output_bound == old(self).output_bound,
            only_exprs_appended(old(self).sys(), final(self).sys()),
            r is Ok <==> local_error(attrs@, *pat, *init, span, env_names(old(self).env_view())) is None,
            r matches Err(e) ==> local_error(attrs@, *pat, *init, span, env_names(old(self).env_view())) == Some(e),
            r is Ok ==> env_names(final(self).env_view()) == env_names(old(self).env_view()).insert(pattern_name(*pat)->0@),
            r is Ok ==> forall|x: spec_fn(usize) -> int| env_agrees(final(self).env_view(), final(self).sys().exprs@, x,
                bind(#[trigger] sem(x), pattern_name(*pat)->0@, src_value(init->0.expr, sem(x)))),
    {
        let ghost s0 = self.sys();
        let ghost env0 = self.env_view();
        proof { lemma_grown_refl(s0); }
        if attrs.len() > 0 {
            return err(LowerErrorKind::LetAttributes, attrs[0]);
        }
        let init = match init {
            None => { return err(LowerErrorKind::UninitializedLet, span); },
            Some(i) => i,
        };
        if init.diverge {
            return err(LowerErrorKind::LetElse, init.expr.span());
        }
        let (name, name_span) = match pattern_ident(pat) {
            Ok(v) => v,
            Err(e) => { return Err(e); },
        };
        if let SourcePat::Ident { mutability: Some(m), .. } = pat {
            return err(LowerErrorKind::MutBinding, *m);
        }
        let handle = match self.compile_expr(&init.expr) {
            Ok(h) => h,
            Err(e) => { return Err(e); },
        };
        let ghost s1 = self.sys();
        if self.lookup(name).is_some() {
            return err(LowerErrorKind::BoundTwice { name: name.clone() }, name_span);
        }
        let entry = (name.clone(), handle);
        self.env.push(entry);
        proof {
            let p = (name@, handle);
            assert(self.env_view() =~= env0.push(p));
            assert(env0.push(p).drop_last() =~= env0);
            assert(env_names(self.env_view()) =~= env_names(env0).insert(name@));
            assert forall|k: int| 0 <= k < self.env@.len() implies (#[trigger] self.env@[k]).1 < self.sys().exprs@.len() by {
                if k < self.env@.len() - 1 {
                    assert(self.env@[k] == old(self).env@[k]);
                }
            }
            assert forall|x: spec_fn(usize) -> int| env_agrees(self.env_view(), s1.exprs@, x,
                bind(#[trigger] sem(x), name@, src_value(init.expr, sem(x)))) by {
                lemma_src_value_agree(init.expr, env0, s0.exprs@, x, sem(x));
                lemma_env_agrees_appended(env0, s0.exprs@, s1.exprs@, x, sem(x));
                assert forall|m: Seq<char>| #[trigger] lookup_env(self.env_view(), m) is Some implies
                    expr_value(s1.exprs@, lookup_env(self.env_view(), m)->0 as int, x) == bind(sem(x), name@, src_value(init.expr, sem(x)))(m) by {
                    if m != name@ {
                        assert(lookup_env(env0, m) is Some);
                    }
                }
            }
        }
        Ok(())
    }
}


impl Lowerer {
    /// Lowers an expression statement; `tail` when it is the body's last
    /// statement and has no semicolon.
    fn lower_expr_stmt(&mut self, e: &SourceExpr, tail: bool,
        Ghost(sem): Ghost<spec_fn(spec_fn(usize) -> int) -> spec_fn(Seq<char>) -> int>,
        Ghost(ps): Ghost<Seq<SourceParam>>) -> (r: Result<(), LowerError>)
        requires
            old(self).inv(),
            forall|x: spec_fn(usize) -> int| env_agrees(old(self).env_view(), old(self).sys().exprs@, x, #[trigger] sem(x)),
            declares_params(old(self).sys(), ps, old(self).output_bound),
        ensures
            final(self).inv(),
            final(self).env == old(self).env,
            final(self).has_return == old(self).has_return,
            final(self).sys().name == old(self).sys().name,
            r is Ok <==> expr_stmt_error(*e, tail, old(self).has_return, old(self).output_bound, env_names(old(self).env_view())) is None,
            r matches Err(er) ==> expr_stmt_error(*e, tail, old(self).has_return, old(self).output_bound, env_names(old(self).env_view())) == Some(er),
            r is Ok ==> final(self).output_bound == (old(self).output_bound || expr_returns(*e)),
            final(self).output_bound ==> old(self).output_bound || final(self).has_return,
            r is Ok ==> declares_params(final(self).sys(), ps, final(self).output_bound),
            r is Ok ==> forall|x: spec_fn(usize) -> int| env_agrees(final(self).env_view(), final(self).sys().exprs@, x, #[trigger] sem(x)),
            r is Ok ==> forall|x: spec_fn(usize) -> int| #[trigger] all_hold(final(self).sys(), x)
                == expr_stmt_effect(*e, all_hold(old(self).sys(), x), sem(x), x(ps.len() as usize)),
            r is Ok ==> kinds(final(self).sys().constraints@) == kinds(old(self).sys().constraints@) + expr_stmt_kinds(*e),
            r is Ok ==> forall|x: spec_fn(usize) -> int| #[trigger] forms(final(self).sys().exprs@, final(self).sys().constraints@, x)
                == forms(old(self).sys().exprs@, old(self).sys().constraints@, x) + expr_stmt_forms(*e, sem(x), x(ps.len() as usize)),
    {
        let ghost s0 = self.sys();
        let ghost env = self.env_view();
        match e {
            SourceExpr::Return { expr, span } => match expr {
                Some(v) => {
                    if !self.has_return {
                        return err(LowerErrorKind::ReturnWithoutType, *span);
                    }
                    self.lower_output(v, v.span(), Ghost(sem), Ghost(ps))
                },
                None => {
                    if self.has_return {
                        return err(LowerErrorKind::MissingReturnValue, *span);
                    }
                    proof {
                        assert forall|x: spec_fn(usize) -> int| #[trigger] all_hold(self.sys(), x)
                            == expr_stmt_effect(*e, all_hold(s0, x), sem(x), x(ps.len() as usize)) by {}
                        assert forall|x: spec_fn(usize) -> int| #[trigger] forms(self.sys().exprs@, self.sys().constraints@, x)
                            == forms(s0.exprs@, s0.constraints@, x) + expr_stmt_forms(*e, sem(x), x(ps.len() as usize)) by {
                            assert(forms(s0.exprs@, s0.constraints@, x) + Seq::<(int, int, int)>::empty() =~= forms(s0.exprs@, s0.constraints@, x));
                        }
                    }
                    Ok(())
                },
            },
            SourceExpr::Macro { mac } => {
                let r = self.lower_macro(mac, Ghost(sem));
                proof {
                    if r is Ok {
                        lemma_declares_params_kept(s0, self.sys(), ps, self.output_bound);
                    }
                }
                r
            },
            SourceExpr::Unsupported { kind: UnsupportedExpr::Conditional, span } => err(LowerErrorKind::ControlFlow, *span),
            SourceExpr::Unsupported { kind: UnsupportedExpr::Loop, span } => err(LowerErrorKind::ControlFlow, *span),
            _ => {
                if !tail {
                    return err(LowerErrorKind::ExpressionStatement, e.span());
                }
                if !self.has_return {
                    return err(LowerErrorKind::TailWithoutReturnType, e.span());
                }
                self.lower_output(e, e.span(), Ghost(sem), Ghost(ps))
            },
        }
    }

    /// Compiles the returned expression `v` and binds it to the output.
    fn lower_output(&mut self, v: &SourceExpr, span: Span,
        Ghost(sem): Ghost<spec_fn(spec_fn(usize) -> int) -> spec_fn(Seq<char>) -> int>,
        Ghost(ps): Ghost<Seq<SourceParam>>) -> (r: Result<(), LowerError>)
        requires
            old(self).inv(),
            forall|x: spec_fn(usize) -> int| env_agrees(old(self).env_view(), old(self).sys().exprs@, x, #[trigger] sem(x)),
            declares_params(old(self).sys(), ps, old(self).output_bound),
        ensures
            final(self).inv(),
            final(self).env == old(self).env,
            final(self).has_return == old(self).has_return,
            final(self).sys().name == old(self).sys().name,
            r is Ok <==> expr_supported(*v, env_names(old(self).env_view())) && !old(self).output_bound,
            r matches Err(er) ==> er == (if !expr_supported(*v, env_names(old(self).env_view())) {
                expr_error(*v, env_names(old(self).env_view()))
            } else {
                LowerError { kind: LowerErrorKind::ReturnTwice, span }
            }),
            r is Ok ==> final(self).output_bound,
            r is Ok ==> declares_params(final(self).sys(), ps, true),
            r is Ok ==> forall|x: spec_fn(usize) -> int| env_agrees(final(self).env_view(), final(self).sys().exprs@, x, #[trigger] sem(x)),
            r is Ok ==> forall|x: spec_fn(usize) -> int| #[trigger] all_hold(final(self).sys(), x)
                == (all_hold(old(self).sys(), x) && x(ps.len() as usize) == src_value(*v, sem(x))),
            r is Ok ==> kinds(final(self).sys().constraints@) == kinds(old(self).sys().constraints@) + seq![1int],
            r is Ok ==> forall|x: spec_fn(usize) -> int| #[trigger] forms(final(self).sys().exprs@, final(self).sys().constraints@, x)
                == forms(old(self).sys().exprs@, old(self).sys().constraints@, x) + seq![(1int, x(ps.len() as usize), src_value(*v, sem(x)))],
    {
        let ghost s0 = self.sys();
        let ghost env = self.env_view();
        let h = match self.compile_expr(v) {
            Ok(h) => h,
            Err(er) => { return Err(er); },
        };
        let ghost s1 = self.sys();
        proof {
            lemma_appended_grown(s0, s1);
            lemma_declares_params_kept(s0, s1, ps, self.output_bound);
        }
        let r = self.bind_output(h, span, Ghost(ps));
        proof {
            if r is Ok {
                let s2 = self.sys();
                assert forall|x: spec_fn(usize) -> int| env_agrees(self.env_view(), s2.exprs@, x, #[trigger] sem(x)) by {
                    assert(s2.exprs@.take(s0.exprs@.len() as int) =~= s0.exprs@);
                    lemma_env_agrees_appended(env, s0.exprs@, s2.exprs@, x, sem(x));
                }
                assert forall|x: spec_fn(usize) -> int| #[trigger] all_hold(s2, x)
                    == (all_hold(s0, x) && x(ps.len() as usize) == src_value(*v, sem(x))) by {
                    lemma_all_hold_appended(s0, s1, x);
                    lemma_src_value_agree(*v, env, s0.exprs@, x, sem(x));
                }
                assert forall|x: spec_fn(usize) -> int| #[trigger] forms(s2.exprs@, s2.constraints@, x)
                    == forms(s0.exprs@, s0.constraints@, x) + seq![(1int, x(ps.len() as usize), src_value(*v, sem(x)))] by {
                    lemma_forms_split(s0, s1, x);
                    assert(s1.constraints@.skip(s0.constraints@.len() as int) =~= Seq::<Constraint>::empty());
                    assert(forms(s1.exprs@, s1.constraints@, x) == forms(s0.exprs@, s0.constraints@, x));
                    lemma_src_value_agree(*v, env, s0.exprs@, x, sem(x));
                }
            }
        }
        r
    }
}


impl Lowerer {
    /// Lowers one statement; `last` when it ends the body.
    fn lower_stmt(&mut self, st: &SourceStmt, last: bool,
        Ghost(sem): Ghost<spec_fn(spec_fn(usize) -> int) -> spec_fn(Seq<char>) -> int>,
        Ghost(ps): Ghost<Seq<SourceParam>>) -> (r: Result<(), LowerError>)
        requires
            old(self).inv(),
            forall|x: spec_fn(usize) -> int| env_agrees(old(self).env_view(), old(self).sys().exprs@, x, #[trigger] sem(x)),
            declares_params(old(self).sys(), ps, old(self).output_bound),
        ensures
            final(self).inv(),
            final(self).has_return == old(self).has_return,
            final(self).sys().name == old(self).sys().name,
            r is Ok <==> stmt_error(*st, last, old(self).has_return, old(self).output_bound, env_names(old(self).env_view())) is None,
            r matches Err(er) ==> stmt_error(*st, last, old(self).has_return, old(self).output_bound, env_names(old(self).env_view())) == Some(er),
            r is Ok ==> env_names(final(self).env_view()) == stmt_names(*st, env_names(old(self).env_view())),
            r is Ok ==> final(self).output_bound == (old(self).output_bound || stmt_returns(*st)),
            final(self).output_bound ==> old(self).output_bound || final(self).has_return,
            r is Ok ==> declares_params(final(self).sys(), ps, final(self).output_bound),
            r is Ok ==> forall|x: spec_fn(usize) -> int| env_agrees(final(self).env_view(), final(self).sys().exprs@, x,
                stmt_sem(*st, (#[trigger] sem(x), true, None)).0),
            r is Ok ==> forall|x: spec_fn(usize) -> int| #[trigger] all_hold(final(self).sys(), x)
                == stmt_effect(*st, all_hold(old(self).sys(), x), sem(x), x(ps.len() as usize)),
            r is Ok ==> kinds(final(self).sys().constraints@) == kinds(old(self).sys().constraints@) + stmt_kinds(*st),
            r is Ok ==> forall|x: spec_fn(usize) -> int| #[trigger] forms(final(self).sys().exprs@, final(self).sys().constraints@, x)
                == forms(old(self).sys().exprs@, old(self).sys().constraints@, x) + stmt_forms(*st, sem(x), x(ps.len() as usize)),
    {
        let ghost s0 = self.sys();
        match st {
            SourceStmt::Local { attrs, pat, init, span } => {
                let r = self.lower_local(attrs, pat, init, *span, Ghost(sem));
                proof {
                    if r is Ok {
                        lemma_appended_grown(s0, self.sys());
                        lemma_declares_params_kept(s0, self.sys(), ps, self.output_bound);
                        assert forall|x: spec_fn(usize) -> int| #[trigger] all_hold(self.sys(), x)
                            == stmt_effect(*st, all_hold(s0, x), sem(x), x(ps.len() as usize)) by {
                            lemma_all_hold_appended(s0, self.sys(), x);
                        }
                        assert forall|x: spec_fn(usize) -> int| #[trigger] forms(self.sys().exprs@, self.sys().constraints@, x)
                            == forms(s0.exprs@, s0.constraints@, x) + stmt_forms(*st, sem(x), x(ps.len() as usize)) by {
                            lemma_forms_split(s0, self.sys(), x);
                            assert(self.sys().constraints@.skip(s0.constraints@.len() as int) =~= Seq::<Constraint>::empty());
                            assert(forms(s0.exprs@, s0.constraints@, x) + Seq::<(int, int, int)>::empty() =~= forms(s0.exprs@, s0.constraints@, x));
                        }
                    }
                }
                r
            },
            SourceStmt::Macro { mac } => {
                let r = self.lower_macro(mac, Ghost(sem));
                proof {
                    if r is Ok {
                        lemma_declares_params_kept(s0, self.sys(), ps, self.output_bound);
                    }
                }
                r
            },
            SourceStmt::Expr { expr, semi } => {
                let r = self.lower_expr_stmt(expr, !*semi && last, Ghost(sem), Ghost(ps));
                proof {
                    if r is Ok {
                        assert forall|x: spec_fn(usize) -> int| env_agrees(self.env_view(), self.sys().exprs@, x,
                            stmt_sem(*st, (#[trigger] sem(x), true, None)).0) by {
                            assert(stmt_sem(*st, (sem(x), true, None)).0 == sem(x));
                        }
                    }
                }
                r
            },
            SourceStmt::Item { span } => err(LowerErrorKind::NestedItem, *span),
        }
    }

    /// Lowers the body's statements in order.
    fn lower_block(&mut self, f: &SourceFn) -> (r: Result<(), LowerError>)
        requires
            old(self).inv(),
            old(self).has_return == (f.output is Some),
            !old(self).output_bound,
            old(self).env_view() == param_env(f.inputs@),
            declares_params(old(self).sys(), f.inputs@, false),
            old(self).sys().constraints@.len() == 0,
        ensures
            final(self).inv(),
            final(self).has_return == old(self).has_return,
            final(self).sys().name == old(self).sys().name,
            r is Ok <==> body_check(*f, f.stmts@.len() as int).2 is None,
            r matches Err(er) ==> body_check(*f, f.stmts@.len() as int).2 == Some(er),
            r is Ok ==> final(self).output_bound == body_check(*f, f.stmts@.len() as int).1,
            r is Ok ==> (final(self).output_bound ==> final(self).has_return),
            r is Ok ==> kinds(final(self).sys().constraints@) == body_kinds(f.stmts@, f.stmts@.len() as int),
            r is Ok ==> declares_params(final(self).sys(), f.inputs@, final(self).output_bound),
            r is Ok ==> forall|x: spec_fn(usize) -> int| #[trigger] all_hold(final(self).sys(), x) == ({
                let s = body_sem(f.stmts@, f.stmts@.len() as int, param_vals(f.inputs@, x));
                s.1 && (final(self).output_bound ==> s.2 == Some(x(f.inputs@.len() as usize)))
            }),
            r is Ok ==> forall|x: spec_fn(usize) -> int| #[trigger] forms(final(self).sys().exprs@, final(self).sys().constraints@, x)
                == body_forms(f.stmts@, f.stmts@.len() as int, param_vals(f.inputs@, x), x(f.inputs@.len() as usize)),
    {
        let ghost ps = f.inputs@;
        let ghost stmts = f.stmts@;
        let ghost name0 = self.sys().name;
        let np = f.inputs.len();
        proof {
            assert forall|x: spec_fn(usize) -> int| env_agrees(self.env_view(), self.sys().exprs@, x,
                #[trigger] body_sem(stmts, 0, param_vals(ps, x)).0) by {
                assert forall|name: Seq<char>| #[trigger] lookup_env(self.env_view(), name) is Some implies
                    expr_value(self.sys().exprs@, lookup_env(self.env_view(), name)->0 as int, x)
                        == body_sem(stmts, 0, param_vals(ps, x)).0(name) by {
                    lemma_lookup_index(param_env(ps), name);
                    let id = lookup_env(param_env(ps), name)->0;
                    let k = choose|k: int| 0 <= k < param_env(ps).len() && param_env(ps)[k].1 == id;
                    assert(self.sys().variables@[k].name@ == param_name(ps[k]));
                    assert(id as int == k);
                    assert(self.sys().exprs@[k] == Expr::Var(k as usize));
                    assert(expr_value(self.sys().exprs@, k, x) == x(id));
                    assert(body_sem(stmts, 0, param_vals(ps, x)).0 == param_vals(ps, x));
                }
            }
        }
        proof {
            assert forall|x: spec_fn(usize) -> int| #[trigger] forms(self.sys().exprs@, self.sys().constraints@, x)
                == body_forms(stmts, 0, param_vals(ps, x), x(ps.len() as usize)) by {
                assert(forms(self.sys().exprs@, self.sys().constraints@, x) =~= Seq::<(int, int, int)>::empty());
            }
        }
        let mut i: usize = 0;
        while i < f.stmts.len()
            invariant
                i <= f.stmts@.len(),
                ps == f.inputs@,
                stmts == f.stmts@,
                old(self).has_return == (f.output is Some),
                name0 == old(self).sys().name,
                self.inv(),
                self.has_return == (f.output is Some),
                self.sys().name == name0,
                body_check(*f, i as int).2 is None,
                env_names(self.env_view()) == body_check(*f, i as int).0,
                self.output_bound == body_check(*f, i as int).1,
                self.output_bound ==> self.has_return,
                kinds(self.sys().constraints@) == body_kinds(stmts, i as int),
                declares_params(self.sys(), ps, self.output_bound),
                forall|x: spec_fn(usize) -> int| env_agrees(self.env_view(), self.sys().exprs@, x,
                    #[trigger] body_sem(stmts, i as int, param_vals(ps, x)).0),
                forall|x: spec_fn(usize) -> int| #[trigger] all_hold(self.sys(), x) == ({
                    let s = body_sem(stmts, i as int, param_vals(ps, x));
                    s.1 && (self.output_bound ==> s.2 == Some(x(ps.len() as usize)))
                }),
                forall|x: spec_fn(usize) -> int| #[trigger] forms(self.sys().exprs@, self.sys().constraints@, x)
                    == body_forms(stmts, i as int, param_vals(ps, x), x(ps.len() as usize)),
            decreases f.stmts.len() - i,
        {
            let ghost s0 = self.sys();
            let ghost ob0 = self.output_bound;
            let ghost sem = |x: spec_fn(usize) -> int| body_sem(stmts, i as int, param_vals(ps, x)).0;
            let last = i + 1 == f.stmts.len();
            let r = self.lower_stmt(&f.stmts[i], last, Ghost(sem), Ghost(ps));
            proof {
                assert(body_check(*f, i + 1) == {
                    let p = body_check(*f, i as int);
                    match stmt_error(stmts[i as int], (i + 1) == stmts.len(), f.output is Some, p.1, p.0) {
                        Some(e) => (p.0, p.1, Some(e)),
                        None => (stmt_names(stmts[i as int], p.0), p.1 || stmt_returns(stmts[i as int]), None),
                    }
                });
            }
            match r {
                Err(e) => {
                    proof { lemma_body_check_stops(*f, i as int + 1, stmts.len() as int); }
                    return Err(e);
                },
                Ok(()) => {},
            }
            proof {
                let st = stmts[i as int];
                assert forall|x: spec_fn(usize) -> int| env_agrees(self.env_view(), self.sys().exprs@, x,
                    #[trigger] body_sem(stmts, i + 1, param_vals(ps, x)).0) by {
                    assert(sem(x) == body_sem(stmts, i as int, param_vals(ps, x)).0);
                    assert(stmt_sem(st, (sem(x), true, None)).0 == body_sem(stmts, i + 1, param_vals(ps, x)).0);
                }
                assert forall|x: spec_fn(usize) -> int| #[trigger] all_hold(self.sys(), x) == ({
                    let s = body_sem(stmts, i + 1, param_vals(ps, x));
                    s.1 && (self.output_bound ==> s.2 == Some(x(ps.len() as usize)))
                }) by {
                    let p = body_sem(stmts, i as int, param_vals(ps, x));
                    assert(sem(x) == p.0);
                    assert(all_hold(s0, x) == (p.1 && (ob0 ==> p.2 == Some(x(ps.len() as usize)))));
                    assert(body_sem(stmts, i + 1, param_vals(ps, x)) == stmt_sem(st, p));
                }
                assert forall|x: spec_fn(usize) -> int| #[trigger] forms(self.sys().exprs@, self.sys().constraints@, x)
                    == body_forms(stmts, i + 1, param_vals(ps, x), x(ps.len() as usize)) by {
                    assert(sem(x) == body_sem(stmts, i as int, param_vals(ps, x)).0);
                    assert(forms(s0.exprs@, s0.constraints@, x) == body_forms(stmts, i as int, param_vals(ps, x), x(ps.len() as usize)));
                }
            }
            i = i + 1;
        }
        Ok(())
    }
}

/// Once a parameter is refused, the first error stays.
pub proof fn lemma_params_error_stops(ps: Seq<SourceParam>, i: int, n: int)
    requires
        i <= n,
        params_error(ps, i) is Some,
    ensures params_error(ps, n) == params_error(ps, i),
    decreases n - i,
{
    if i < n {
        lemma_params_error_stops(ps, i, n - 1);
    }
}

/// Once checking meets an error, the error stays.
pub proof fn lemma_body_check_stops(f: SourceFn, i: int, n: int)
    requires
        i <= n,
        body_check(f, i).2 is Some,
    ensures body_check(f, n) == body_check(f, i),
    decreases n - i,
{
    if i < n {
        lemma_body_check_stops(f, i, n - 1);
    }
}


/// A function lowered to a circuit.
pub struct Lowered {
    /// The function's name, which is also the circuit's.
    pub name: String,
    /// The name of the circuit type generated for it.
    pub struct_name: String,
    /// The proving backend the circuit targets.
    pub backend: String,
    /// The constraint system.
    pub system: ConstraintSystem,
}

/// The visibility a parameter's attributes give it.
pub fn attrs_visibility_of(attrs: &Vec<SourceAttr>) -> (r: Result<Visibility, LowerError>)
    ensures
        r is Ok <==> attrs_error(attrs@, 0) is None,
        r matches Err(e) ==> attrs_error(attrs@, 0) == Some(e),
        r matches Ok(v) ==> v == attrs_visibility(attrs@),
{
    let mut secret = false;
    let mut j: usize = 0;
    while j < attrs.len()
        invariant
            j <= attrs@.len(),
            attrs_error(attrs@, 0) == attrs_error(attrs@, j as int),
            secret == (j > 0 && is_secret_attr(attrs@[j - 1])),
        decreases attrs.len() - j,
    {
        let a = &attrs[j];
        let ok = match &a.name {
            Some(n) => {
                if string_is(n, "secret") {
                    secret = true;
                    true
                } else if string_is(n, "public") {
                    secret = false;
                    true
                } else {
                    false
                }
            },
            None => false,
        };
        if !ok {
            return err(LowerErrorKind::UnsupportedParamAttr, a.span);
        }
        j = j + 1;
    }
    if secret {
        Ok(Visibility::Secret)
    } else {
        Ok(Visibility::Public)
    }
}

impl Lowerer {
    /// Declares each parameter, in order, as a public or secret input.
    fn declare_params(&mut self, f: &SourceFn) -> (r: Result<(), LowerError>)
        requires
            old(self).inv(),
            old(self).sys().variables@.len() == 0,
            old(self).sys().exprs@.len() == 0,
            old(self).sys().public_inputs@.len() == 0,
            old(self).sys().secret_inputs@.len() == 0,
            old(self).sys().constraints@.len() == 0,
            old(self).env@.len() == 0,
        ensures
            final(self).inv(),
            final(self).has_return == old(self).has_return,
            final(self).output_bound == old(self).output_bound,
            final(self).sys().name == old(self).sys().name,
            r is Ok <==> params_error(f.inputs@, f.inputs@.len() as int) is None,
            r matches Err(e) ==> params_error(f.inputs@, f.inputs@.len() as int) == Some(e),
            r is Ok ==> declares_params(final(self).sys(), f.inputs@, false),
            r is Ok ==> final(self).sys().constraints@.len() == 0,
            r is Ok ==> final(self).env_view() == param_env(f.inputs@),
    {
        let ghost ps = f.inputs@;
        let ghost name0 = self.sys().name;
        let mut k: usize = 0;
        proof { assert(self.env_view() =~= Seq::new(0, |j: int| (param_name(ps[j]), j as usize))); }
        while k < f.inputs.len()
            invariant
                k <= ps.len(),
                ps == f.inputs@,
                self.has_return == old(self).has_return,
                self.output_bound == old(self).output_bound,
                self.sys().name == name0,
                name0 == old(self).sys().name,
                self.inv(),
                params_error(ps, k as int) is None,
                self.sys().variables@.len() == k,
                self.sys().exprs@.len() == k,
                self.sys().constraints@.len() == 0,
                forall|j: int| 0 <= j < k ==> {
                    &&& (#[trigger] self.sys().variables@[j]).name@ == param_name(ps[j])
                    &&& self.sys().variables@[j].visibility == param_visibility(ps[j])
                    &&& self.sys().exprs@[j] == Expr::Var(j as usize)
                },
                self.sys().public_inputs@ == param_ids(ps, k as int, Visibility::Public),
                self.sys().secret_inputs@ == param_ids(ps, k as int, Visibility::Secret),
                self.env_view() == Seq::new(k as nat, |j: int| (param_name(ps[j]), j as usize)),
            decreases f.inputs.len() - k,
        {
            let checked: Result<(&String, Visibility), LowerError> = match &f.inputs[k] {
                SourceParam::Receiver { span } => err(LowerErrorKind::Receiver, *span),
                SourceParam::Typed { attrs, pat, ty } => {
                    match attrs_visibility_of(attrs) {
                        Err(e) => Err(e),
                        Ok(vis) => match pattern_ident(pat) {
                            Err(e) => Err(e),
                            Ok((name, _)) => match validate_integer_type(ty, TypeContext::Parameter) {
                                Ok(()) => Ok((name, vis)),
                                Err(e) => Err(e),
                            },
                        },
                    }
                },
            };
            let (name, vis) = match checked {
                Ok(v) => v,
                Err(e) => {
                    proof {
                        assert(params_error(ps, k + 1) == Some(e));
                        lemma_params_error_stops(ps, k + 1, ps.len() as int);
                    }
                    return Err(e);
                },
            };
            let ghost s0 = self.sys();
            let ghost env0 = self.env_view();
            let id = match vis {
                Visibility::Secret => self.builder.secret_input(name.as_str()),
                Visibility::Public => self.builder.public_input(name.as_str()),
            };
            self.env.push((name.clone(), id));
            proof {
                let s1 = self.sys();
                let ex = s1.exprs@;
                assert(param_error(ps[k as int]) is None);
                assert(params_error(ps, k + 1) is None);
                assert(param_name(ps[k as int]) == name@);
                assert(param_visibility(ps[k as int]) == vis);
                assert forall|id2: int| 0 <= id2 < ex.len() implies match #[trigger] ex[id2] {
                    Expr::Add(l, r) | Expr::Sub(l, r) | Expr::Mul(l, r) => l < id2 && r < id2,
                    Expr::Neg(e) => e < id2,
                    _ => true,
                } by {
                    if id2 < s0.exprs@.len() {
                        assert(ex[id2] == s0.exprs@[id2]);
                    }
                }
                assert forall|id2: int| 0 <= id2 < ex.len() implies match #[trigger] ex[id2] {
                    Expr::Var(v) => v < s1.variables@.len(),
                    _ => true,
                } by {
                    if id2 < s0.exprs@.len() {
                        assert(ex[id2] == s0.exprs@[id2]);
                    }
                }
                assert forall|i: int| 0 <= i < s1.public_inputs@.len() implies #[trigger] s1.public_inputs@[i] < ex.len() by {
                    if i < s0.public_inputs@.len() {
                        assert(s1.public_inputs@[i] == s0.public_inputs@[i]);
                    }
                }
                assert forall|i: int| 0 <= i < s1.secret_inputs@.len() implies #[trigger] s1.secret_inputs@[i] < ex.len() by {
                    if i < s0.secret_inputs@.len() {
                        assert(s1.secret_inputs@[i] == s0.secret_inputs@[i]);
                    }
                }
                assert forall|j: int| 0 <= j < k + 1 implies {
                    &&& (#[trigger] s1.variables@[j]).name@ == param_name(ps[j])
                    &&& s1.variables@[j].visibility == param_visibility(ps[j])
                    &&& s1.exprs@[j] == Expr::Var(j as usize)
                } by {
                    if j < k {
                        assert(s1.variables@[j] == s1.variables@.drop_last()[j]);
                        assert(s1.exprs@[j] == s0.exprs@[j]);
                    }
                }
                assert(self.env@.last().0@ == name@);
                assert(self.env_view() =~= env0.push((name@, id)));
                assert(id == k);
                assert(self.env_view() =~= Seq::new((k + 1) as nat, |j: int| (param_name(ps[j]), j as usize)));
                assert forall|j: int| 0 <= j < self.env@.len() implies (#[trigger] self.env@[j]).1 < ex.len() by {
                    assert(self.env@[j].1 == self.env_view()[j].1);
                }
            }
            k = k + 1;
        }
        proof {
            assert(self.env_view() =~= param_env(ps));
        }
        Ok(())
    }
}

/// Lowers a straight-line integer function into a circuit: its parameters
/// become inputs, public unless marked `#[secret]`, in order; `assert!`
/// comparisons and `assert_eq!` become constraints; and a returned value
/// becomes the public output `return`, constrained to equal it. Each
/// constraint encodes exactly the polynomial its statement calls for
/// ([`body_forms`]): `a - b`, less one when strict, for an ordering, the two
/// sides for an equality, the output and the returned value for a return.
pub fn lower_function(f: &SourceFn, backend: &str) -> (r: Result<Lowered, LowerError>)
    ensures
        r is Ok <==> lowering_error(*f) is None,
        r matches Err(e) ==> lowering_error(*f) == Some(e),
        r matches Ok(l) ==> {
            &&& l.name@ == f.name@
            &&& l.struct_name@ == pascal_name(f.name@)
            &&& all_ascii(f.name@) ==> l.struct_name@ == pascal_name_ascii(f.name@)
            &&& l.backend@ == backend@
            &&& l.system.name@ == f.name@
            &&& well_formed_system(l.system)
            &&& declares_params(l.system, f.inputs@, f.output is Some)
            &&& kinds(l.system.constraints@) == body_kinds(f.stmts@, f.stmts@.len() as int)
            &&& forall|x: spec_fn(usize) -> int| #[trigger] all_hold(l.system, x) == function_holds(*f, x)
            &&& forall|x: spec_fn(usize) -> int| #[trigger] forms(l.system.exprs@, l.system.constraints@, x)
                == body_forms(f.stmts@, f.stmts@.len() as int, param_vals(f.inputs@, x), x(f.inputs@.len() as usize))
        },
{
    match validate_signature(f) {
        Ok(()) => {},
        Err(e) => { return Err(e); },
    }
    let struct_name = pascal_case(f.name.as_str());
    let mut lowerer = Lowerer {
        has_return: f.output.is_some(),
        builder: ConstraintSystemBuilder::new(f.name.as_str()),
        env: Vec::new(),
        output_bound: false,
    };
    proof {
        let cs = lowerer.sys();
        assert(cs.exprs@.len() == 0);
        assert(lowerer.inv());
    }
    match lowerer.declare_params(f) {
        Ok(()) => {},
        Err(e) => { return Err(e); },
    }
    match lowerer.lower_block(f) {
        Ok(()) => {},
        Err(e) => { return Err(e); },
    }
    if lowerer.has_return && !lowerer.output_bound {
        return err(LowerErrorKind::MissingOutput, f.name_span);
    }
    let system = lowerer.builder.build();
    Ok(Lowered { name: f.name.clone(), struct_name, backend: String::from_str(backend), system })
}


/// A function's circuit, lowered on to R1CS, accepts the witness that
/// evaluates every expression honestly under variable values `x` exactly
/// when the function holds at `x`: every assertion holds and, when it
/// returns a value, the output variable equals that value.
pub proof fn law_lowered_r1cs_accepts_iff_function_holds(f: SourceFn, l: Lowered, r: R1CS, x: spec_fn(usize) -> int)
    requires
        well_formed_system(l.system),
        forall|y: spec_fn(usize) -> int| #[trigger] all_hold(l.system, y) == function_holds(f, y),
        l.system.exprs@.len() < usize::MAX,
        gates_match_raw(r.gates_view(), raw_gates(l.system)),
        r.assertions@ == constraint_assertions(l.system.constraints@),
    ensures
        (r.all_gates_hold(honest_witness(l.system, x)) && forall|k: int| 0 <= k < r.assertions@.len()
            ==> #[trigger] r.assertion_holds(k, honest_witness(l.system, x))) <==> function_holds(f, x),
{
    let ir = l.system;
    assert(lowerable(ir)) by {
        assert forall|id: int| 0 <= id < ir.exprs@.len() implies match #[trigger] ir.exprs@[id] {
            Expr::Add(a, b) | Expr::Sub(a, b) | Expr::Mul(a, b) => a < ir.exprs@.len() && b < ir.exprs@.len(),
            Expr::Neg(e) => e < ir.exprs@.len(),
            Expr::Var(v) => v < ir.variables@.len(),
            Expr::Const(_) => true,
        } by {
            match ir.exprs@[id] {
                Expr::Var(_) => {},
                _ => {},
            }
        }
    }
    law_r1cs_honest_witness_accepted_iff_constraints_hold(ir, r, x);
    assert(all_hold(ir, x) == function_holds(f, x));
}

/// A type ascription on a pattern changes nothing about what it binds: the
/// ascribed pattern is accepted exactly when the pattern under it is, binds
/// the same name, named at the same place, and is reported at the same
/// place when refused.
pub proof fn law_type_ascription_binds_the_inner_name(pat: SourcePat, span: Span)
    ensures
        pattern_name(SourcePat::Typed { pat: Box::new(pat), span }) == pattern_name(pat),
        pattern_name_span(SourcePat::Typed { pat: Box::new(pat), span }) == pattern_name_span(pat),
        pattern_span(SourcePat::Typed { pat: Box::new(pat), span }) == pattern_span(pat),
{
}

/// A `let` that binds a fresh plain identifier (no `ref`, no `@`, no `mut`),
/// with or without a type ascription, to a supported expression, without
/// attributes or an `else` branch, is accepted.
pub proof fn law_let_of_a_plain_name_is_accepted(
    name: String,
    name_span: Span,
    pat_span: Span,
    ty_span: Span,
    init: SourceInit,
    span: Span,
    names: Set<Seq<char>>,
)
    requires
        !init.diverge,
        expr_supported(init.expr, names),
        !names.contains(name@),
    ensures
        local_error(Seq::empty(), SourcePat::Ident { name, by_ref: false, subpat: false, mutability: None, name_span, span: pat_span },
            Some(init), span, names) is None,
        local_error(Seq::empty(), SourcePat::Typed {
            pat: Box::new(SourcePat::Ident { name, by_ref: false, subpat: false, mutability: None, name_span, span: pat_span }),
            span: ty_span,
        }, Some(init), span, names) is None,
{
}

/// The width of an integer primitive type after its `u` or `i`: `8`, `16`,
/// `32`, `64`, `128` or `size`.
pub open spec fn integer_width(w: Seq<char>) -> bool {
    ||| w == seq!['8']
    ||| w == seq!['1', '6']
    ||| w == seq!['3', '2']
    ||| w == seq!['6', '4']
    ||| w == seq!['1', '2', '8']
    ||| w == seq!['s', 'i', 'z', 'e']
}

/// The integer primitive types are exactly the names made of `u` (unsigned)
/// or `i` (signed) followed by a width of `8`, `16`, `32`, `64`, `128` or
/// `size`; every one of them is accepted wherever a type is checked, and
/// every other name is refused.
pub proof fn law_integer_primitives_are_sign_and_width(name: String, span: Span, context: TypeContext)
    ensures
        integer_primitive(name@) <==> (name@.len() > 0 && (name@[0] == 'u' || name@[0] == 'i') && integer_width(name@.drop_first())),
        (name@.len() > 0 && (name@[0] == 'u' || name@[0] == 'i') && integer_width(name@.drop_first()))
            <==> type_error(SourceType::Path { qself: false, last: Some(name), span }, context) is None,
{
    reveal_strlit("u8");
    reveal_strlit("u16");
    reveal_strlit("u32");
    reveal_strlit("u64");
    reveal_strlit("u128");
    reveal_strlit("usize");
    reveal_strlit("i8");
    reveal_strlit("i16");
    reveal_strlit("i32");
    reveal_strlit("i64");
    reveal_strlit("i128");
    reveal_strlit("isize");
    let n = name@;
    if n.len() > 0 && (n[0] == 'u' || n[0] == 'i') && integer_width(n.drop_first()) {
        let w = n.drop_first();
        assert(n =~= seq![n[0]] + w);
        if n[0] == 'u' {
            if w == seq!['8'] {
                assert(n =~= "u8"@);
            } else if w == seq!['1', '6'] {
                assert(n =~= "u16"@);
            } else if w == seq!['3', '2'] {
                assert(n =~= "u32"@);
            } else if w == seq!['6', '4'] {
                assert(n =~= "u64"@);
            } else if w == seq!['1', '2', '8'] {
                assert(n =~= "u128"@);
            } else {
                assert(n =~= "usize"@);
            }
        } else {
            if w == seq!['8'] {
                assert(n =~= "i8"@);
            } else if w == seq!['1', '6'] {
                assert(n =~= "i16"@);
            } else if w == seq!['3', '2'] {
                assert(n =~= "i32"@);
            } else if w == seq!['6', '4'] {
                assert(n =~= "i64"@);
            } else if w == seq!['1', '2', '8'] {
                assert(n =~= "i128"@);
            } else {
                assert(n =~= "isize"@);
            }
        }
    }
    if integer_primitive(n) {
        assert(n.len() > 0);
        assert(n.drop_first() =~= n.subrange(1, n.len() as int));
        if n == "u8"@ || n == "i8"@ {
            assert(n.drop_first() =~= seq!['8']);
        } else if n == "u16"@ || n == "i16"@ {
            assert(n.drop_first() =~= seq!['1', '6']);
        } else if n == "u32"@ || n == "i32"@ {
            assert(n.drop_first() =~= seq!['3', '2']);
        } else if n == "u64"@ || n == "i64"@ {
            assert(n.drop_first() =~= seq!['6', '4']);
        } else if n == "u128"@ || n == "i128"@ {
            assert(n.drop_first() =~= seq!['1', '2', '8']);
        } else {
            assert(n.drop_first() =~= seq!['s', 'i', 'z', 'e']);
        }
    }
}

} // verus!
