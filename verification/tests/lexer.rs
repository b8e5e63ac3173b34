//! Tests for the lexical analyser.

use luna::syntax::{Lexer, TokenKind};
use luna::syntax::TokenKind::{
    Bool, Int, Invalid, LBrace, LBracket, LParen, RBrace, RBracket, RParen, String, Symbol,
};

/// Check that the whole input lexes as a single token of the given kind.
fn check(input: &str, kind: TokenKind) {
    let mut lexer = Lexer::new(input);

    let token = lexer.next().expect("expected a token");
    assert_eq!(token.kind, kind);
    assert_eq!(token.lexeme, input);
    assert!(lexer.next().is_none());
}

#[test]
fn lex_parens() {
    check("(", LParen);
    check(")", RParen);
}

#[test]
fn lex_brackets() {
    check("[", LBracket);
    check("]", RBracket);
}

#[test]
fn lex_braces() {
    check("{", LBrace);
    check("}", RBrace);
}

#[test]
fn lex_symbol() {
    check("foo", Symbol);
    check("foo123", Symbol);
    check("λ", Symbol);
    check("+", Symbol);
    check("-", Symbol);
    check("*", Symbol);
    check("/", Symbol);
    check("long-function-name", Symbol);
    check("eq?", Symbol);
    check("set!", Symbol);
}

#[test]
fn lex_string() {
    check("\"foo\"", String);
    check("\"\\\"bar\\\"\"", String);
}

#[test]
fn lex_int() {
    check("0", Int);
    check("5", Int);

    check("31", Int);

    check("+6", Int);
    check("-1", Int);
}

#[test]
fn lex_bool() {
    check("#t", Bool);
    check("#f", Bool);
    check("#true", Bool);
    check("#false", Bool);
}

#[test]
fn ignore_whitespace() {
    let mut lexer = Lexer::new(" ");
    assert!(lexer.next().is_none());

    let mut lexer = Lexer::new("    ");
    assert!(lexer.next().is_none());

    let mut lexer = Lexer::new("\n");
    assert!(lexer.next().is_none());

    let mut lexer = Lexer::new("\t \n");
    assert!(lexer.next().is_none());
}

#[test]
fn ignore_comments() {
    let mut lexer = Lexer::new("; Hi!");
    assert!(lexer.next().is_none());

    let mut lexer = Lexer::new("; Hi!\n");
    assert!(lexer.next().is_none());

    let mut lexer = Lexer::new("; Hi!\r\n");
    assert!(lexer.next().is_none());
}

#[test]
fn lex_spans_are_byte_ranges() {
    let input = "(foo 12)";
    let mut lexer = Lexer::new(input);
    let expected = [(LParen, 0, 1), (Symbol, 1, 4), (Int, 5, 7), (RParen, 7, 8)];
    for (kind, start, end) in expected {
        let token = lexer.next().expect("expected a token");
        assert_eq!(token.kind, kind);
        assert_eq!(token.span.start, start);
        assert_eq!(token.span.end, end);
        assert_eq!(&input[token.span.start..token.span.end], token.lexeme);
    }
    assert!(lexer.next().is_none());
}

#[test]
fn lex_peek_is_idempotent() {
    let lexer = Lexer::new("ab cd");
    let first = lexer.peek().expect("expected a token");
    let again = lexer.peek().expect("expected a token");
    assert_eq!(first, again);
    assert_eq!(first.lexeme, "ab");
}

#[test]
fn lex_maximal_munch() {
    // A digit run that continues as a symbol is one symbol token.
    check("12abc", Symbol);
    check("+6a", Symbol);
    // A sign alone is a symbol.
    check("+", Symbol);

    // An unterminated string is an invalid token at the opening quote.
    let mut lexer = Lexer::new("\"oops");
    let token = lexer.next().expect("expected a token");
    assert_eq!(token.kind, Invalid);
    assert_eq!(token.lexeme, "\"");
}

#[test]
fn get_matching_pairs() {
    assert_eq!(luna::syntax::get_matching(LParen), Some(RParen));
    assert_eq!(luna::syntax::get_matching(RBrace), Some(LBrace));
    assert_eq!(luna::syntax::get_matching(RBracket), Some(LBracket));
    assert_eq!(luna::syntax::get_matching(Symbol), None);
    assert_eq!(LParen.closer(), Some(RParen));
    assert_eq!(RParen.opener(), Some(LParen));
    assert_eq!(Int.closer(), None);
    assert_eq!(Int.opener(), None);
}
