use tpt_axiom::args::{parse_args, ArgToken, ArgsError, ArgsErrorKind};

fn ident(name: &str, span: usize) -> ArgToken {
    ArgToken::Ident { name: name.to_string(), span }
}

fn eq(span: usize) -> ArgToken {
    ArgToken::Punct { ch: '=', span }
}

fn string(value: &str, span: usize) -> ArgToken {
    ArgToken::Str { value: value.to_string(), span }
}

#[test]
fn backend_argument_parses() {
    let args = parse_args(&[ident("backend", 0), eq(1), string("halo2", 2)]).unwrap();
    assert_eq!(args.backend, "halo2");
}

#[test]
fn argument_errors_name_the_token_found() {
    assert_eq!(
        parse_args(&[]),
        Err(ArgsError { kind: ArgsErrorKind::ExpectedIdent, span: None })
    );
    assert_eq!(
        parse_args(&[string("halo2", 5)]),
        Err(ArgsError { kind: ArgsErrorKind::ExpectedIdent, span: Some(5) })
    );
    let e = parse_args(&[ident("prover", 6), eq(7), string("halo2", 8)]).unwrap_err();
    assert_eq!(e, ArgsError { kind: ArgsErrorKind::UnsupportedKey, span: Some(6) });
    assert_eq!(e.message(), "zk_provable only supports `backend = \"...\"`");
    assert_eq!(
        parse_args(&[ident("backend", 0)]),
        Err(ArgsError { kind: ArgsErrorKind::ExpectedEq, span: None })
    );
    assert_eq!(
        parse_args(&[ident("backend", 0), ArgToken::Punct { ch: ':', span: 9 }]),
        Err(ArgsError { kind: ArgsErrorKind::ExpectedEq, span: Some(9) })
    );
    let e = parse_args(&[ident("backend", 0), eq(1)]).unwrap_err();
    assert_eq!(e, ArgsError { kind: ArgsErrorKind::ExpectedStr, span: None });
    assert_eq!(e.message(), "unexpected end of input, expected string literal");
    assert_eq!(
        parse_args(&[ident("backend", 0), eq(1), ident("halo2", 10)]),
        Err(ArgsError { kind: ArgsErrorKind::ExpectedStr, span: Some(10) })
    );
    let e = parse_args(&[ident("backend", 0), eq(1), string("halo2", 2), ArgToken::Other { span: 11 }]).unwrap_err();
    assert_eq!(e, ArgsError { kind: ArgsErrorKind::Trailing, span: Some(11) });
    assert_eq!(e.message(), "unexpected tokens after backend argument");
}
