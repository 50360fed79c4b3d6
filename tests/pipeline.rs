use bool_eval::{
    args_to_env, eval_program, lex, parse, parse_decimal, run, Error, ErrorPrinter, Expr, ExprKind,
    ExprTreePrinter, Ident, Program, Span, Token, TokenKind, MAX_ARG_COUNT,
};

fn parse_src(src: &str) -> Result<Program, Error> {
    let tokens = lex(src);
    parse(src, &tokens)
}

fn err_of(src: &str) -> (String, usize, usize) {
    let e = run(src).unwrap_err();
    let span = e.span();
    (e.message().to_string(), span.start, span.end)
}

#[test]
fn and_of_one_and_zero() {
    let p = parse_src("2 1 0 and(A,B)").unwrap();
    assert_eq!(p.args, vec![true, false]);
    assert_eq!(eval_program(&p).unwrap(), false);
}

#[test]
fn or_of_ones() {
    assert_eq!(run("2 1 1 or(A,B)").unwrap(), true);
}

#[test]
fn not_of_one() {
    assert_eq!(run("1 1 not(A)").unwrap(), false);
}

#[test]
fn empty_and_without_arguments() {
    assert_eq!(run("0 and()").unwrap(), true);
}

#[test]
fn undefined_function() {
    let (m, s, e) = err_of("1 1 foo(A)");
    assert_eq!(m, "cannot call undefined function `foo`");
    assert_eq!((s, e), (4, 7));
}

#[test]
fn invalid_bit() {
    let (m, s, e) = err_of("1 2 A");
    assert_eq!(m, "invalid bit, must be `0` or `1`");
    assert_eq!((s, e), (2, 3));
}

#[test]
fn empty_and_or_any_declaration() {
    for src in ["0 and()", "1 0 and()", "3 1 0 1 and()"] {
        assert_eq!(run(src).unwrap(), true);
    }
    for src in ["0 or()", "1 1 or()", "3 1 1 1 or()"] {
        assert_eq!(run(src).unwrap(), false);
    }
}

#[test]
fn not_with_two_arguments() {
    for src in ["2 0 0 not(A,B)", "2 0 1 not(A,B)", "2 1 0 not(A,B)", "2 1 1 not(A,B)"] {
        let (m, s, e) = err_of(src);
        assert_eq!(m, "`not` requires single argument");
        assert_eq!((s, e), (6, 9));
    }
}

#[test]
fn undefined_variable() {
    let (m, s, e) = err_of("0 A");
    assert_eq!(m, "`A` is not defined");
    assert_eq!((s, e), (2, 3));
}

#[test]
fn variable_past_declared_count() {
    let (m, s, e) = err_of("2 1 0 C");
    assert_eq!(m, "`C` is not defined");
    assert_eq!((s, e), (6, 7));
}

#[test]
fn declared_bits_round_trip() {
    for n in 0..=26usize {
        for pattern in 0..3usize {
            let bits: Vec<bool> = (0..n).map(|i| (i * 7 + pattern) % 3 == 0).collect();
            let mut src = n.to_string();
            for b in &bits {
                src.push_str(if *b { " 1" } else { " 0" });
            }
            src.push_str(" A");
            let p = parse_src(&src).unwrap();
            assert_eq!(p.args, bits);
        }
    }
}

#[test]
fn count_over_limit() {
    let (m, s, e) = err_of("27 A");
    assert_eq!(m, "can't declare more than 26 params");
    assert_eq!((s, e), (0, 2));
    let (m, s, e) = err_of("27 1 0 and(A, B)");
    assert_eq!(m, "can't declare more than 26 params");
    assert_eq!((s, e), (0, 2));
}

#[test]
fn count_at_limit() {
    let mut src = String::from("26");
    for _ in 0..26 {
        src.push_str(" 1");
    }
    src.push_str(" Z");
    assert_eq!(run(&src).unwrap(), true);
    assert_eq!(MAX_ARG_COUNT, 26);
}

#[test]
fn lexing_covers_text() {
    let src = "2 1 0  and(A,\tB)";
    let tokens = lex(src);
    let kinds: Vec<TokenKind> = tokens.iter().map(|t| t.kind).collect();
    assert_eq!(
        kinds,
        vec![
            TokenKind::Number,
            TokenKind::Number,
            TokenKind::Number,
            TokenKind::Ident,
            TokenKind::LParen,
            TokenKind::Ident,
            TokenKind::Comma,
            TokenKind::Ident,
            TokenKind::RParen,
            TokenKind::Eof,
        ]
    );
    let texts: Vec<&str> = tokens.iter().map(|t| t.lexme(src)).collect();
    assert_eq!(texts, vec!["2", "1", "0", "and", "(", "A", ",", "B", ")", ""]);
    let last = tokens.last().unwrap();
    assert_eq!((last.span.start, last.span.end), (src.len(), src.len()));
    let mut pos = 0;
    for t in &tokens {
        assert!(src[pos..t.span.start].chars().all(|c| c.is_ascii_whitespace()));
        pos = t.span.end;
    }
    assert_eq!(pos, src.len());
}

#[test]
fn lexing_empty_text() {
    let tokens = lex("");
    assert_eq!(tokens.len(), 1);
    assert_eq!(tokens[0].kind, TokenKind::Eof);
    assert_eq!((tokens[0].span.start, tokens[0].span.end), (0, 0));
}

#[test]
fn lexing_runs_and_unexpected_characters() {
    let src = "abc12é$";
    let tokens = lex(src);
    assert_eq!(tokens.len(), 5);
    assert_eq!(tokens[0].kind, TokenKind::Ident);
    assert_eq!((tokens[0].span.start, tokens[0].span.end), (0, 3));
    assert_eq!(tokens[1].kind, TokenKind::Number);
    assert_eq!((tokens[1].span.start, tokens[1].span.end), (3, 5));
    assert_eq!(tokens[2].kind, TokenKind::ErrorUnexpected('é'));
    assert_eq!((tokens[2].span.start, tokens[2].span.end), (5, 7));
    assert_eq!(tokens[3].kind, TokenKind::ErrorUnexpected('$'));
    assert_eq!((tokens[3].span.start, tokens[3].span.end), (7, 8));
    assert_eq!(tokens[4].kind, TokenKind::Eof);
    assert_eq!((tokens[4].span.start, tokens[4].span.end), (8, 8));
}

#[test]
fn all_arguments_are_evaluated() {
    let (m, s, e) = err_of("1 0 and(A, B)");
    assert_eq!(m, "`B` is not defined");
    assert_eq!((s, e), (11, 12));
    let (m, _, _) = err_of("1 1 or(A, B)");
    assert_eq!(m, "`B` is not defined");
}

#[test]
fn nested_calls() {
    assert_eq!(run("3 1 0 1 or(and(A, B), not(C))").unwrap(), false);
    assert_eq!(run("3 1 1 0 or(and(A, B), not(C))").unwrap(), true);
    assert_eq!(run("2 0 1 and(or(A, B), not(not(B)))").unwrap(), true);
}

#[test]
fn unexpected_character() {
    let (m, s, e) = err_of("1 1 $");
    assert_eq!(m, "expected token of kind `Ident`, instead got `ErrorUnexpected('$')`");
    assert_eq!((s, e), (4, 5));
}

#[test]
fn missing_separator() {
    let (m, s, e) = err_of("1 1 and(A B)");
    assert_eq!(m, "expected token of kind in `[Comma, RParen]`, instead got `Ident`");
    assert_eq!((s, e), (10, 11));
}

#[test]
fn trailing_comma() {
    let (m, s, e) = err_of("1 1 and(A,)");
    assert_eq!(m, "expected token of kind `Ident`, instead got `RParen`");
    assert_eq!((s, e), (10, 11));
}

#[test]
fn unterminated_call() {
    let (m, s, e) = err_of("1 1 and(A");
    assert_eq!(m, "expected token of kind in `[Comma, RParen]`, instead got `Eof`");
    assert_eq!((s, e), (9, 9));
}

#[test]
fn trailing_input() {
    let (m, s, e) = err_of("1 1 A B");
    assert_eq!(m, "expected token of kind `Eof`, instead got `Ident`");
    assert_eq!((s, e), (6, 7));
}

#[test]
fn missing_bit() {
    let (m, s, e) = err_of("2 1 A");
    assert_eq!(m, "expected next bit, instead got token of kind `Ident`");
    assert_eq!((s, e), (4, 5));
}

#[test]
fn unparsable_count() {
    let (m, s, e) = err_of("99999999999999999999999 A");
    assert_eq!(m, "unparsable number");
    assert_eq!((s, e), (0, 23));
}

#[test]
fn empty_program() {
    let (m, s, e) = err_of("");
    assert_eq!(m, "expected token of kind `Number`, instead got `Eof`");
    assert_eq!((s, e), (0, 0));
}

#[test]
fn parse_without_eof_token() {
    let src = "0 A";
    let tokens = lex(src);
    let p = parse(src, &tokens[..2]).unwrap();
    assert!(p.args.is_empty());
}

#[test]
fn decimal_numbers() {
    assert_eq!(parse_decimal("0"), Some(0));
    assert_eq!(parse_decimal("026"), Some(26));
    assert_eq!(parse_decimal("+5"), Some(5));
    assert_eq!(parse_decimal(""), None);
    assert_eq!(parse_decimal("+"), None);
    assert_eq!(parse_decimal("-1"), None);
    assert_eq!(parse_decimal("12a"), None);
    assert_eq!(parse_decimal(&usize::MAX.to_string()), Some(usize::MAX));
    assert_eq!(parse_decimal("99999999999999999999999"), None);
}

#[test]
fn span_operations() {
    let a = Span::new(4, 7);
    let b = Span::new(2, 5);
    let m = a.to(b);
    assert_eq!((m.start, m.end), (2, 7));
    assert_eq!(a.range(), 4..7);
    assert_eq!(m.to_string(), "2..7");
    assert_eq!(Span::new(10, 123).to_string(), "10..123");
}

#[test]
fn error_parts() {
    let e = Error::new(String::from("boom"), Span::new(1, 2));
    assert_eq!(e.to_string(), "boom");
    assert_eq!(e.message(), "boom");
    assert_eq!((e.span().start, e.span().end), (1, 2));
}

#[test]
fn env_binds_letters() {
    let env = args_to_env(&[true, false]);
    assert_eq!(env.get("A"), Some(true));
    assert_eq!(env.get("B"), Some(false));
    assert_eq!(env.get("C"), None);
    assert_eq!(env.get("a"), None);
    assert_eq!(env.get("AB"), None);
}

#[test]
fn children_of_expressions() {
    let p = parse_src("2 1 0 and(A, not(B))").unwrap();
    assert_eq!(p.expr.children().len(), 2);
    assert_eq!(p.expr.children()[0].children().len(), 0);
    assert_eq!(p.expr.children()[1].children().len(), 1);
    match &p.expr.kind {
        ExprKind::App(Ident { ident, span }, args) => {
            assert_eq!(ident, "and");
            assert_eq!((span.start, span.end), (6, 9));
            assert_eq!(args.len(), 2);
        }
        ExprKind::Var(_) => panic!("expected a call"),
    }
    assert_eq!((p.expr.span.start, p.expr.span.end), (6, 20));
}

#[test]
fn token_lexeme() {
    let t = Token::new(TokenKind::Ident, Span::new(2, 5));
    assert_eq!(t.lexme("1 abc"), "abc");
}

#[test]
fn tree_printer() {
    let p = parse_src("1 1 not(A)").unwrap();
    assert_eq!(
        ExprTreePrinter(&p.expr).to_string(),
        "APP (\"not\") @ 4..10\n  VAR (\"A\") @ 8..9\n"
    );
    let leaf = Expr {
        kind: ExprKind::Var(Ident { ident: String::from("B"), span: Span::new(0, 1) }),
        span: Span::new(0, 1),
    };
    assert_eq!(ExprTreePrinter(&leaf).to_string(), "VAR (\"B\") @ 0..1\n");
}

#[test]
fn error_printer() {
    let src = "1 1 foo(A)";
    let e = run(src).unwrap_err();
    let text = ErrorPrinter(&e, src).to_string();
    let expected = "\x1b[34m-->\x1b[0m Error: cannot call undefined function `foo` (at 4..7)\n \x1b[34m|\x1b[0m\n \x1b[34m|\x1b[0m 1 1 \x1b[31mfoo\x1b[0m(A)\n \x1b[34m|\x1b[0m     \x1b[34m^^^\x1b[0m\n \x1b[34m|\x1b[0m\n";
    assert_eq!(text, expected);
}

#[test]
fn error_printer_empty_span() {
    let src = "1 1";
    let e = run(src).unwrap_err();
    let text = ErrorPrinter(&e, src).to_string();
    let expected = "\x1b[34m-->\x1b[0m Error: expected token of kind `Ident`, instead got `Eof` (at 3..3)\n \x1b[34m|\x1b[0m\n \x1b[34m|\x1b[0m 1 1\x1b[31m\x1b[0m\n \x1b[34m|\x1b[0m    \x1b[34m^\x1b[0m\n \x1b[34m|\x1b[0m\n";
    assert_eq!(text, expected);
}

#[test]
fn error_printer_wide_text_and_lines() {
    let src = "1 1\n界 A";
    let e = run(src).unwrap_err();
    assert_eq!(e.message(), "expected token of kind `Ident`, instead got `ErrorUnexpected('界')`");
    assert_eq!((e.span().start, e.span().end), (4, 7));
    let text = ErrorPrinter(&e, src).to_string();
    let expected = "\x1b[34m-->\x1b[0m Error: expected token of kind `Ident`, instead got `ErrorUnexpected('界')` (at 4..7)\n \x1b[34m|\x1b[0m\n \x1b[34m|\x1b[0m \x1b[31m界\x1b[0m A\n \x1b[34m|\x1b[0m \x1b[34m^^\x1b[0m\n \x1b[34m|\x1b[0m\n";
    assert_eq!(text, expected);
}
