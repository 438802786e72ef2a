//! The arguments of the circuit attribute: exactly `backend = "<name>"`.
use vstd::prelude::*;

use crate::lower_ast::Span;

verus! {

/// A token of the attribute's arguments, as the front end read it.
#[derive(Debug, PartialEq, Eq)]
pub enum ArgToken {
    /// An identifier.
    Ident { name: String, span: Span },
    /// A punctuation character.
    Punct { ch: char, span: Span },
    /// A string literal, by its value.
    Str { value: String, span: Span },
    /// Any other token.
    Other { span: Span },
}

impl ArgToken {
    /// The token's position.
    pub open spec fn spec_span(&self) -> Span {
        match *self {
            ArgToken::Ident { span, .. } => span,
            ArgToken::Punct { span, .. } => span,
            ArgToken::Str { span, .. } => span,
            ArgToken::Other { span } => span,
        }
    }

    /// The token's position.
    #[verifier::when_used_as_spec(spec_span)]
    pub fn span(&self) -> (r: Span)
        ensures r == self.spec_span(),
    {
        match self {
            ArgToken::Ident { span, .. } => *span,
            ArgToken::Punct { span, .. } => *span,
            ArgToken::Str { span, .. } => *span,
            ArgToken::Other { span } => *span,
        }
    }
}

/// What was wrong with the arguments.
#[derive(Clone, Copy, Debug, PartialEq, Eq, Structural)]
pub enum ArgsErrorKind {
    /// The arguments do not start with an identifier.
    ExpectedIdent,
    /// The key is not `backend`.
    UnsupportedKey,
    /// The key is not followed by `=`.
    ExpectedEq,
    /// `=` is not followed by a string literal.
    ExpectedStr,
    /// Tokens follow the backend's name.
    Trailing,
}

/// An error in the attribute's arguments: its kind, and the token it was
/// found at, or `None` at the end of the arguments.
#[derive(Clone, Copy, Debug, PartialEq, Eq, Structural)]
pub struct ArgsError {
    /// What was wrong.
    pub kind: ArgsErrorKind,
    /// Where, or `None` at the end of the arguments.
    pub span: Option<Span>,
}

impl ArgsError {
    /// The diagnostic's text.
    pub open spec fn message_text(&self) -> Seq<char> {
        let base = match self.kind {
            ArgsErrorKind::ExpectedIdent => "expected identifier"@,
            ArgsErrorKind::UnsupportedKey => "zk_provable only supports `backend = \"...\"`"@,
            ArgsErrorKind::ExpectedEq => "expected `=`"@,
            ArgsErrorKind::ExpectedStr => "expected string literal"@,
            ArgsErrorKind::Trailing => "unexpected tokens after backend argument"@,
        };
        if self.span is None { "unexpected end of input, "@ + base } else { base }
    }

    /// The diagnostic's text.
    pub fn message(&self) -> (r: String)
        ensures r@ == self.message_text(),
    {
        let mut out = String::new();
        if self.span.is_none() {
            out.append("unexpected end of input, ");
        }
        let base = match self.kind {
            ArgsErrorKind::ExpectedIdent => "expected identifier",
            ArgsErrorKind::UnsupportedKey => "zk_provable only supports `backend = \"...\"`",
            ArgsErrorKind::ExpectedEq => "expected `=`",
            ArgsErrorKind::ExpectedStr => "expected string literal",
            ArgsErrorKind::Trailing => "unexpected tokens after backend argument",
        };
        out.append(base);
        proof { reveal_strlit("unexpected end of input, "); }
        assert(out@ =~= self.message_text());
        out
    }
}

/// The attribute's parsed arguments.
#[derive(Debug, PartialEq, Eq)]
pub struct ZkProvableArgs {
    /// The backend's name.
    pub backend: String,
}

/// The error at token `i`, or at the end when there is none.
pub open spec fn error_at(t: Seq<ArgToken>, i: int, kind: ArgsErrorKind) -> ArgsError {
    ArgsError { kind, span: if i < t.len() { Some(t[i].spec_span()) } else { None } }
}

/// Why the tokens are not `backend = "<name>"`, checked in reading order.
pub open spec fn args_error(t: Seq<ArgToken>) -> Option<ArgsError> {
    if !(t.len() > 0 && t[0] is Ident) {
        Some(error_at(t, 0, ArgsErrorKind::ExpectedIdent))
    } else if t[0]->Ident_name@ != "backend"@ {
        Some(error_at(t, 0, ArgsErrorKind::UnsupportedKey))
    } else if !(t.len() > 1 && t[1] matches ArgToken::Punct { ch: '=', .. }) {
        Some(error_at(t, 1, ArgsErrorKind::ExpectedEq))
    } else if !(t.len() > 2 && t[2] is Str) {
        Some(error_at(t, 2, ArgsErrorKind::ExpectedStr))
    } else if t.len() > 3 {
        Some(error_at(t, 3, ArgsErrorKind::Trailing))
    } else {
        None
    }
}

fn string_is(s: &String, lit: &str) -> (r: bool)
    ensures r == (s@ == lit@),
{
    String::from_str(lit) == *s
}

/// Parses `backend = "<name>"`, returning the backend's name.
pub fn parse_args(tokens: &[ArgToken]) -> (r: Result<ZkProvableArgs, ArgsError>)
    ensures
        r is Ok <==> args_error(tokens@) is None,
        r matches Err(e) ==> args_error(tokens@) == Some(e),
        r matches Ok(a) ==> a.backend@ == tokens@[2]->Str_value@,
{
    let n = tokens.len();
    let end = |i: usize| -> (s: Option<Span>)
        requires i <= n, n == tokens@.len(),
        ensures s == (if i < tokens@.len() { Some(tokens@[i as int].spec_span()) } else { None }),
    {
        if i < n { Some(tokens[i].span()) } else { None }
    };
    match tokens.first() {
        Some(ArgToken::Ident { name, .. }) => {
            if !string_is(name, "backend") {
                return Err(ArgsError { kind: ArgsErrorKind::UnsupportedKey, span: end(0) });
            }
        },
        _ => { return Err(ArgsError { kind: ArgsErrorKind::ExpectedIdent, span: end(0) }); },
    }
    if !(n > 1 && matches!(tokens[1], ArgToken::Punct { ch: '=', .. })) {
        return Err(ArgsError { kind: ArgsErrorKind::ExpectedEq, span: end(1) });
    }
    let value = if n > 2 {
        match &tokens[2] {
            ArgToken::Str { value, .. } => value,
            _ => { return Err(ArgsError { kind: ArgsErrorKind::ExpectedStr, span: end(2) }); },
        }
    } else {
        return Err(ArgsError { kind: ArgsErrorKind::ExpectedStr, span: end(2) });
    };
    if n > 3 {
        return Err(ArgsError { kind: ArgsErrorKind::Trailing, span: end(3) });
    }
    Ok(ZkProvableArgs { backend: value.clone() })
}


/// The arguments are accepted exactly when they are the three tokens
/// `backend`, `=` and a string literal, whatever the string holds; the
/// backend's name is then that string (as `parse_args` returns it).
pub proof fn law_backend_assignment_is_accepted(t: Seq<ArgToken>)
    ensures
        args_error(t) is None <==> {
            &&& t.len() == 3
            &&& t[0] matches ArgToken::Ident { name, .. } && name@ == seq!['b', 'a', 'c', 'k', 'e', 'n', 'd']
            &&& t[1] matches ArgToken::Punct { ch, .. } && ch == '='
            &&& t[2] is Str
        },
{
    reveal_strlit("backend");
    assert("backend"@ =~= seq!['b', 'a', 'c', 'k', 'e', 'n', 'd']);
}

} // verus!
