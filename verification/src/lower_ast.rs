//! The source fragment that circuit lowering accepts: integer functions
//! whose bodies are straight-line arithmetic, as plain values. Every node
//! carries a `Span`, an opaque position handle chosen by the front end.
use vstd::prelude::*;

verus! {

/// An opaque source position handle.
pub type Span = usize;

/// A binary operator.
#[derive(Clone, Copy, Debug, PartialEq, Eq, Structural)]
pub enum SourceBinOp {
    /// `+`
    Add,
    /// `-`
    Sub,
    /// `*`
    Mul,
    /// `/`
    Div,
    /// `%`
    Rem,
    /// `>=`
    Ge,
    /// `<=`
    Le,
    /// `>`
    Gt,
    /// `<`
    Lt,
    /// `==`
    Eq,
    /// `!=`
    Ne,
    /// Any other binary operator.
    Other,
}

/// A unary operator.
#[derive(Clone, Copy, Debug, PartialEq, Eq, Structural)]
pub enum SourceUnOp {
    /// `-`
    Neg,
    /// Any other unary operator.
    Other,
}

/// The kinds of expression that circuits cannot contain.
#[derive(Clone, Copy, Debug, PartialEq, Eq, Structural)]
pub enum UnsupportedExpr {
    /// A function call.
    Call,
    /// A method call.
    MethodCall,
    /// A field access.
    Field,
    /// An indexing expression.
    Index,
    /// A closure.
    Closure,
    /// An assignment.
    Assign,
    /// A reference.
    Reference,
    /// A cast.
    Cast,
    /// `if` or `match`.
    Conditional,
    /// `for`, `while` or `loop`.
    Loop,
    /// Anything else.
    Other,
}

/// A literal.
#[derive(Clone, Copy, Debug, PartialEq, Eq, Structural)]
pub enum SourceLit {
    /// An integer literal: its value, or `None` when it does not fit an `i64`.
    Int(Option<i64>),
    /// Any other literal.
    Other,
}

/// An expression.
#[derive(Debug, PartialEq, Eq)]
pub enum SourceExpr {
    /// A path; `simple` when it is a single identifier with no qualifier.
    Path { name: String, simple: bool, span: Span },
    /// A literal.
    Lit { lit: SourceLit, span: Span },
    /// A parenthesized expression.
    Paren { expr: Box<SourceExpr>, span: Span },
    /// A unary operation.
    Unary { op: SourceUnOp, expr: Box<SourceExpr>, span: Span },
    /// A binary operation.
    Binary { op: SourceBinOp, left: Box<SourceExpr>, right: Box<SourceExpr>, span: Span },
    /// `return` with an optional value.
    Return { expr: Option<Box<SourceExpr>>, span: Span },
    /// A macro invocation.
    Macro { mac: SourceMacro },
    /// A construct outside the fragment.
    Unsupported { kind: UnsupportedExpr, span: Span },
}

/// A macro invocation, with its arguments as the front end parsed them.
#[derive(Debug, PartialEq, Eq)]
pub struct SourceMacro {
    /// The last segment of the macro's path, if the path has one.
    pub name: Option<String>,
    /// Position of that last segment.
    pub name_span: Span,
    /// Position of the whole invocation.
    pub span: Span,
    /// The arguments parsed as exactly one expression, if they are one.
    pub one: Option<Box<SourceExpr>>,
    /// The arguments parsed as exactly two expressions, if they are two.
    pub two: Option<(Box<SourceExpr>, Box<SourceExpr>)>,
}

/// A binding pattern.
#[derive(Debug, PartialEq, Eq)]
pub enum SourcePat {
    /// An identifier pattern: `ref`, a `@` subpattern and `mut` where
    /// present, the position of the name and of the whole pattern.
    Ident { name: String, by_ref: bool, subpat: bool, mutability: Option<Span>, name_span: Span, span: Span },
    /// A pattern with a type ascription.
    Typed { pat: Box<SourcePat>, span: Span },
    /// Any other pattern.
    Other { span: Span },
}

/// A type.
#[derive(Clone, Debug, PartialEq, Eq)]
pub enum SourceType {
    /// A path type: whether it has a qualified self, and its last segment.
    Path { qself: bool, last: Option<String>, span: Span },
    /// Any other type.
    Other { span: Span },
}

/// An attribute on a parameter: its name when its path is one identifier.
#[derive(Clone, Debug, PartialEq, Eq)]
pub struct SourceAttr {
    /// The attribute's identifier, if its path is a single identifier.
    pub name: Option<String>,
    /// Position of the attribute.
    pub span: Span,
}

/// A function parameter.
#[derive(Debug, PartialEq, Eq)]
pub enum SourceParam {
    /// A `self` receiver.
    Receiver { span: Span },
    /// A typed parameter.
    Typed { attrs: Vec<SourceAttr>, pat: SourcePat, ty: SourceType },
}

/// A `let` initializer: the expression and whether it has an `else` branch.
#[derive(Debug, PartialEq, Eq)]
pub struct SourceInit {
    /// The initializing expression.
    pub expr: SourceExpr,
    /// The `let ... else` branch is present.
    pub diverge: bool,
}

/// A statement.
#[derive(Debug, PartialEq, Eq)]
pub enum SourceStmt {
    /// A `let` binding: positions of its attributes, its pattern and initializer.
    Local { attrs: Vec<Span>, pat: SourcePat, init: Option<SourceInit>, span: Span },
    /// A macro statement.
    Macro { mac: SourceMacro },
    /// An expression statement; `semi` when it ends with a semicolon.
    Expr { expr: SourceExpr, semi: bool },
    /// A nested item.
    Item { span: Span },
}

/// A function to lower.
#[derive(Debug, PartialEq, Eq)]
pub struct SourceFn {
    /// The function's name.
    pub name: String,
    /// Position of the name.
    pub name_span: Span,
    /// Position of `async`, if present.
    pub asyncness: Option<Span>,
    /// Position of `unsafe`, if present.
    pub unsafety: Option<Span>,
    /// Position of an `extern` ABI, if present.
    pub abi: Option<Span>,
    /// Position of `const`, if present.
    pub constness: Option<Span>,
    /// Position of the generics, if the function has generic parameters or a `where` clause.
    pub generics: Option<Span>,
    /// Position of a variadic parameter, if present.
    pub variadic: Option<Span>,
    /// The declared return type, if any.
    pub output: Option<SourceType>,
    /// The parameters.
    pub inputs: Vec<SourceParam>,
    /// The body's statements.
    pub stmts: Vec<SourceStmt>,
}

impl SourceExpr {
    /// The expression's position.
    pub open spec fn spec_span(&self) -> Span {
        match *self {
            SourceExpr::Path { span, .. } => span,
            SourceExpr::Lit { span, .. } => span,
            SourceExpr::Paren { span, .. } => span,
            SourceExpr::Unary { span, .. } => span,
            SourceExpr::Binary { span, .. } => span,
            SourceExpr::Return { span, .. } => span,
            SourceExpr::Macro { mac } => mac.span,
            SourceExpr::Unsupported { span, .. } => span,
        }
    }

    /// The expression's position.
    #[verifier::when_used_as_spec(spec_span)]
    pub fn span(&self) -> (r: Span)
        ensures r == self.spec_span(),
    {
        match self {
            SourceExpr::Path { span, .. } => *span,
            SourceExpr::Lit { span, .. } => *span,
            SourceExpr::Paren { span, .. } => *span,
            SourceExpr::Unary { span, .. } => *span,
            SourceExpr::Binary { span, .. } => *span,
            SourceExpr::Return { span, .. } => *span,
            SourceExpr::Macro { mac } => mac.span,
            SourceExpr::Unsupported { span, .. } => *span,
        }
    }
}

} // verus!
