//! Tests for the parser.

use luna::syntax::{parse, strip_shebang, ErrorKind, SExpr, TokenKind};

fn sym(s: &str) -> SExpr {
    SExpr::Symbol(s.to_string())
}

fn num(i: i32) -> SExpr {
    SExpr::Int(i)
}

#[test]
fn parse_program() {
    parse("(defn fac [n]\n(fac (minus n 1)))\n\n(print (fac 5))").unwrap();
}

#[test]
fn parse_symbol() {
    parse("hello").unwrap();
    parse("foo bar").unwrap();
    parse("foo\nbar").unwrap();
}

#[test]
fn parse_string() {
    parse("\"foo\"").unwrap();
    parse("\"\\\"bar\\\"\"").unwrap();
}

#[test]
fn parse_int() {
    parse("10").unwrap();
    parse("0 11").unwrap();
    parse("0 -11").unwrap();
}

#[test]
fn parse_bool() {
    parse("true").unwrap();
    parse("false").unwrap();
}

#[test]
fn parse_list() {
    // Can we parse empty lists?
    parse("()").unwrap();
    parse("[]").unwrap();
    parse("{}").unwrap();

    // Can we parse normal lists?
    parse("(1 2 3)").unwrap();
    parse("[1 2 3]").unwrap();
    parse("{1 2 3}").unwrap();

    // Can we parse nested lists?
    parse("(1 [2 {3}])").unwrap();
    parse("{1 [2 3]}").unwrap();
}

#[test]
fn ignore_shebang() {
    let program1 = "#!/usr/bin/env luna\n(define x 10)\n";
    assert_eq!(strip_shebang(program1), "(define x 10)\n");

    let program2 = "#!/usr/bin/env luna";
    assert!(strip_shebang(program2).is_empty());

    let program3 = "#!/usr/bin/env luna\n";
    assert!(strip_shebang(program3).is_empty());
}

#[test]
fn balanced_brackets_mirror_nesting() {
    // A three-element top-level list whose second element is the list [2, 3].
    let tree = parse("(1 (2 3) 4)").unwrap();
    assert_eq!(
        tree,
        vec![SExpr::List(vec![num(1), SExpr::List(vec![num(2), num(3)]), num(4)])]
    );

    let tree = parse("(1 [2 {3}])").unwrap();
    assert_eq!(
        tree,
        vec![SExpr::List(vec![
            num(1),
            SExpr::List(vec![num(2), SExpr::List(vec![num(3)])]),
        ])]
    );
}

#[test]
fn empty_lists_parse_to_empty_list_nodes() {
    assert_eq!(parse("()").unwrap(), vec![SExpr::List(vec![])]);
    assert_eq!(parse("[]").unwrap(), vec![SExpr::List(vec![])]);
    assert_eq!(parse("{}").unwrap(), vec![SExpr::List(vec![])]);
}

#[test]
fn mismatched_closer_is_unexpected_bracket() {
    let input = "(1 2]";
    let error = parse(input).unwrap_err();
    assert_eq!(
        error.kind,
        ErrorKind::UnexpectedBracket { expected: TokenKind::RParen, found: TokenKind::RBracket }
    );
    // The span covers the full extent of the still-open list: from the
    // opener through the last consumed token, not the foreign closer.
    assert_eq!(&input[error.span.start..error.span.end], "(1 2");
}

#[test]
fn unmatched_opener_is_unmatched_bracket() {
    let input = "(1 2";
    let error = parse(input).unwrap_err();
    assert_eq!(error.kind, ErrorKind::UnmatchedBracket { expected: TokenKind::RParen });
    assert_eq!(&input[error.span.start..error.span.end], "(1 2");
}

#[test]
fn toplevel_closer_is_unexpected_token() {
    let input = ")";
    let error = parse(input).unwrap_err();
    assert_eq!(error.kind, ErrorKind::UnexpectedToken { found: TokenKind::RParen });
    assert_eq!(&input[error.span.start..error.span.end], ")");
}

#[test]
fn integer_round_trip() {
    assert_eq!(parse("-11").unwrap(), vec![num(-11)]);
    assert_eq!(parse("+6").unwrap(), vec![num(6)]);
    assert_eq!(parse("0").unwrap(), vec![num(0)]);
    assert_eq!(parse("2147483647").unwrap(), vec![num(2147483647)]);
    assert_eq!(parse("-2147483648").unwrap(), vec![num(-2147483648)]);
}

#[test]
fn integer_overflow_is_invalid_token() {
    let input = "2147483648";
    let error = parse(input).unwrap_err();
    assert_eq!(error.kind, ErrorKind::InvalidToken);
    assert_eq!(&input[error.span.start..error.span.end], "2147483648");

    assert!(parse("-2147483649").is_err());
    assert!(parse("99999999999999999999").is_err());
}

#[test]
fn symbols_parse_as_single_atoms() {
    assert_eq!(parse("eq?").unwrap(), vec![sym("eq?")]);
    assert_eq!(parse("set!").unwrap(), vec![sym("set!")]);
    assert_eq!(parse("+").unwrap(), vec![sym("+")]);
    assert_eq!(parse("long-function-name").unwrap(), vec![sym("long-function-name")]);
    assert_eq!(parse("λ").unwrap(), vec![sym("λ")]);
    // With the Scheme-style Boolean literals, bare `true` is a symbol.
    assert_eq!(parse("true").unwrap(), vec![sym("true")]);
}

#[test]
fn booleans_parse_to_bool_atoms() {
    assert_eq!(parse("#t").unwrap(), vec![SExpr::Bool(true)]);
    assert_eq!(parse("#true").unwrap(), vec![SExpr::Bool(true)]);
    assert_eq!(parse("#f").unwrap(), vec![SExpr::Bool(false)]);
    assert_eq!(parse("#false").unwrap(), vec![SExpr::Bool(false)]);
}

#[test]
fn strings_keep_their_quotes() {
    assert_eq!(
        parse("\"foo\"").unwrap(),
        vec![SExpr::String("\"foo\"".to_string())]
    );
    assert_eq!(
        parse("\"\\\"bar\\\"\"").unwrap(),
        vec![SExpr::String("\"\\\"bar\\\"\"".to_string())]
    );
}

#[test]
fn shebang_stripping_is_idempotent() {
    let with_shebang = "#!/usr/bin/env luna\n(+ 1 2)";
    let once = strip_shebang(with_shebang);
    let twice = strip_shebang(once);
    assert_eq!(once, twice);

    // Stripping is a no-op on text without a leading shebang.
    let plain = "(+ 1 2)";
    assert_eq!(strip_shebang(plain), plain);
}

#[test]
fn parse_skips_shebang_and_keeps_spans_into_the_input() {
    let input = "#!/usr/bin/env luna\n(]";
    let error = parse(input).unwrap_err();
    assert_eq!(
        error.kind,
        ErrorKind::UnexpectedBracket { expected: TokenKind::RParen, found: TokenKind::RBracket }
    );
    // The span indexes the exact string that was passed in.
    assert_eq!(&input[error.span.start..error.span.end], "(");
}

#[test]
fn error_spans_are_byte_accurate_with_multibyte_text() {
    let input = "(λ ]";
    let error = parse(input).unwrap_err();
    assert_eq!(
        error.kind,
        ErrorKind::UnexpectedBracket { expected: TokenKind::RParen, found: TokenKind::RBracket }
    );
    assert_eq!(&input[error.span.start..error.span.end], "(λ");

    let input = "λλ ]";
    let error = parse(input).unwrap_err();
    assert_eq!(error.kind, ErrorKind::UnexpectedToken { found: TokenKind::RBracket });
    assert_eq!(&input[error.span.start..error.span.end], "]");
}

#[test]
fn invalid_characters_are_invalid_tokens() {
    let input = "(,)";
    let error = parse(input).unwrap_err();
    assert_eq!(error.kind, ErrorKind::InvalidToken);
    assert_eq!(&input[error.span.start..error.span.end], ",");

    let input = "#x";
    let error = parse(input).unwrap_err();
    assert_eq!(error.kind, ErrorKind::InvalidToken);
    assert_eq!(&input[error.span.start..error.span.end], "#");

    let input = "\"open";
    let error = parse(input).unwrap_err();
    assert_eq!(error.kind, ErrorKind::InvalidToken);
    assert_eq!(&input[error.span.start..error.span.end], "\"");
}

#[test]
fn whitespace_and_comments_are_invisible() {
    let bare = parse("(1 2)").unwrap();
    assert_eq!(parse(" (\t1 ; a comment\n 2 )\u{2028}").unwrap(), bare);
    assert_eq!(parse("; leading comment\n(1 2)").unwrap(), bare);
    assert_eq!(parse("(1\u{85}2)").unwrap(), bare);

    let nested = parse("(a (b))").unwrap();
    assert_eq!(parse(";x\n( a ;y\n ( b ) ) ;z").unwrap(), nested);
}

#[test]
fn empty_input_parses_to_empty_program() {
    assert_eq!(parse("").unwrap(), vec![]);
    assert_eq!(parse("  ; nothing here\n").unwrap(), vec![]);
}

#[test]
fn first_error_wins() {
    // The error from the nested list is propagated, not recovered from.
    let input = "(a [b} c)";
    let error = parse(input).unwrap_err();
    assert_eq!(
        error.kind,
        ErrorKind::UnexpectedBracket { expected: TokenKind::RBracket, found: TokenKind::RBrace }
    );
    assert_eq!(&input[error.span.start..error.span.end], "[b");
}
