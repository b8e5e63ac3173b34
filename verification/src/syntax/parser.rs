//! Parser for Luna source code.
//!
//! The formal grammar for Luna is specified by the following EBNF grammar:
//!
//! ```text
//! <program> -> <datum>*
//! <datum> -> <atom> | <list>
//! <atom> -> <symbol> | <string> | <int> | <bool>
//! <list> -> (<datum>*) | [<datum>*] | {<datum>*}
//! ```
//!
//! The parser is recursive descent: it consumes the token stream of a
//! [`Lexer`] and builds a tree of [`SExpr`] nodes, or reports the first
//! error it encounters, with a byte-accurate span into the input.

use vstd::prelude::*;

use crate::syntax::lexer::{
    byte_off, is_digit_char, is_int_lexeme, next_token, skip_trivia, Lexer, Token, TokenKind,
    lemma_next_token_bounds, lemma_skip_trivia_bounds, lemma_token_shapes,
};
use crate::syntax::{Error, ErrorKind, Span};

verus! {

broadcast use crate::syntax::lexer::Lexer::lemma_wf_position;

/// A symbolic expression.
#[derive(Eq, PartialEq, Debug)]
pub enum SExpr {
    /// A symbol atom.
    Symbol(String),
    /// A string atom; the text includes the delimiting quotes of the
    /// literal.
    String(String),
    /// An integer atom.
    Int(i32),
    /// A Boolean atom.
    Bool(bool),
    /// A list of symbolic expressions.
    List(Vec<SExpr>),
}

/// The mathematical value of a symbolic expression: text as character
/// sequences, integers unbounded, lists as sequences.
pub enum SpecSExpr {
    /// A symbol atom.
    Symbol(Seq<char>),
    /// A string atom.
    String(Seq<char>),
    /// An integer atom.
    Int(int),
    /// A Boolean atom.
    Bool(bool),
    /// A list of symbolic expressions.
    List(Seq<SpecSExpr>),
}

impl View for SExpr {
    type V = SpecSExpr;

    open spec fn view(&self) -> SpecSExpr
        decreases self,
    {
        match self {
            SExpr::Symbol(s) => SpecSExpr::Symbol(s@),
            SExpr::String(s) => SpecSExpr::String(s@),
            SExpr::Int(i) => SpecSExpr::Int(*i as int),
            SExpr::Bool(b) => SpecSExpr::Bool(*b),
            SExpr::List(es) => SpecSExpr::List(views_of(es@)),
        }
    }
}

/// The views of a sequence of symbolic expressions, in order.
pub open spec fn views_of(v: Seq<SExpr>) -> Seq<SpecSExpr>
    decreases v,
{
    if v.len() == 0 {
        Seq::empty()
    } else {
        seq![v[0]@] + views_of(v.drop_first())
    }
}

/// [`views_of`] is the element-wise view.
pub proof fn lemma_views_of(v: Seq<SExpr>)
    ensures
        views_of(v).len() == v.len(),
        forall|i: int| 0 <= i < v.len() ==> #[trigger] views_of(v)[i] == v[i]@,
    decreases v.len(),
{
    if v.len() == 0 {
        assert(views_of(v) =~= Seq::empty());
    } else {
        lemma_views_of(v.drop_first());
        assert(views_of(v) == seq![v[0]@] + views_of(v.drop_first()));
        assert forall|i: int| 0 <= i < v.len() implies #[trigger] views_of(v)[i] == v[i]@ by {
            if i > 0 {
                assert(views_of(v.drop_first())[i - 1] == v.drop_first()[i - 1]@);
            }
        }
    }
}

/// A syntax error at the specification level: an error kind together with
/// the half-open character range it covers in the source sequence.
pub struct SpecError {
    /// The index of the first character of the offending range.
    pub start: int,
    /// The index of the character after the last character of the range.
    pub end: int,
    /// The kind of the error.
    pub kind: ErrorKind,
}

/// The numeric value of a decimal digit character.
pub open spec fn digit_value(c: char) -> int {
    c as int - '0' as int
}

/// The value of a run of decimal digits, read most significant first.
pub open spec fn digits_value(s: Seq<char>) -> int
    decreases s.len(),
{
    if s.len() == 0 {
        0
    } else {
        digits_value(s.drop_last()) * 10 + digit_value(s.last())
    }
}

/// The value of an integer-literal lexeme: an optional sign followed by a
/// run of decimal digits.
pub open spec fn int_lexeme_value(s: Seq<char>) -> int {
    if s.len() > 0 && s[0] == '-' {
        -digits_value(s.drop_first())
    } else if s.len() > 0 && s[0] == '+' {
        digits_value(s.drop_first())
    } else {
        digits_value(s)
    }
}

/// The atom denoted by a token of an atom kind with lexeme `lex`, or `None`
/// when an integer literal's value does not fit the machine integer type of
/// [`SExpr::Int`].
pub open spec fn spec_atom(kind: TokenKind, lex: Seq<char>) -> Option<SpecSExpr> {
    match kind {
        TokenKind::Symbol => Some(SpecSExpr::Symbol(lex)),
        TokenKind::String => Some(SpecSExpr::String(lex)),
        TokenKind::Bool => Some(SpecSExpr::Bool(lex.len() >= 2 && lex[1] == 't')),
        TokenKind::Int => if i32::MIN <= int_lexeme_value(lex) <= i32::MAX {
            Some(SpecSExpr::Int(int_lexeme_value(lex)))
        } else {
            None
        },
        _ => arbitrary(),
    }
}

/// True of the atom token kinds.
pub open spec fn is_atom_kind(kind: TokenKind) -> bool {
    kind == TokenKind::Symbol || kind == TokenKind::String || kind == TokenKind::Int || kind
        == TokenKind::Bool
}

/// The outcome of parsing the items of one list, from just after its opening
/// bracket through its closing bracket.
pub enum SpecListParse {
    /// The list closed properly: its items, and the position just after the
    /// closing bracket.
    Parsed { items: Seq<SpecSExpr>, pos: int },
    /// Parsing failed.
    Failed(SpecError),
}

/// Parse the items of a list at position `pos`, which follows the opening
/// bracket of kind `opener` whose lexeme begins at `op_start`, through the
/// matching closing bracket.
///
/// A closing bracket of the wrong family is an `UnexpectedBracket` error,
/// and exhaustion of the input an `UnmatchedBracket` error; both span the
/// extent of the still-open list, from the opener's start to the end of the
/// last consumed token.
pub open spec fn sp_parse_list(s: Seq<char>, pos: int, opener: TokenKind, op_start: int) -> SpecListParse
    decreases s.len() - pos,
{
    match next_token(s, pos) {
        None => SpecListParse::Failed(
            SpecError {
                start: op_start,
                end: pos,
                kind: ErrorKind::UnmatchedBracket { expected: opener.closer_of() },
            },
        ),
        Some(t) => {
            if t.kind == TokenKind::Invalid {
                SpecListParse::Failed(
                    SpecError { start: t.start, end: t.end, kind: ErrorKind::InvalidToken },
                )
            } else if t.kind.is_closer() {
                if t.kind == opener.closer_of() {
                    SpecListParse::Parsed { items: Seq::empty(), pos: t.end }
                } else {
                    SpecListParse::Failed(
                        SpecError {
                            start: op_start,
                            end: pos,
                            kind: ErrorKind::UnexpectedBracket {
                                expected: opener.closer_of(),
                                found: t.kind,
                            },
                        },
                    )
                }
            } else if t.kind.is_opener() {
                if pos < t.end <= s.len() {
                    match sp_parse_list(s, t.end, t.kind, t.start) {
                        SpecListParse::Parsed { items: sub, pos: p2 } => {
                            if pos < p2 <= s.len() {
                                match sp_parse_list(s, p2, opener, op_start) {
                                    SpecListParse::Parsed { items: rest, pos: p3 } =>
                                        SpecListParse::Parsed {
                                            items: seq![SpecSExpr::List(sub)] + rest,
                                            pos: p3,
                                        },
                                    failed => failed,
                                }
                            } else {
                                arbitrary()
                            }
                        },
                        failed => failed,
                    }
                } else {
                    arbitrary()
                }
            } else {
                match spec_atom(t.kind, s.subrange(t.start, t.end)) {
                    None => SpecListParse::Failed(
                        SpecError { start: t.start, end: t.end, kind: ErrorKind::InvalidToken },
                    ),
                    Some(a) => {
                        if pos < t.end <= s.len() {
                            match sp_parse_list(s, t.end, opener, op_start) {
                                SpecListParse::Parsed { items: rest, pos: p3 } =>
                                    SpecListParse::Parsed { items: seq![a] + rest, pos: p3 },
                                failed => failed,
                            }
                        } else {
                            arbitrary()
                        }
                    },
                }
            }
        },
    }
}

/// Parse a run of top-level data beginning at position `pos`, through the
/// end of the input.
///
/// A closing bracket at top level is an `UnexpectedToken` error at that
/// token's span; an invalid token is an `InvalidToken` error at its span.
pub open spec fn sp_parse_program(s: Seq<char>, pos: int) -> Result<Seq<SpecSExpr>, SpecError>
    decreases s.len() - pos,
{
    match next_token(s, pos) {
        None => Ok(Seq::empty()),
        Some(t) => {
            if t.kind == TokenKind::Invalid {
                Err(SpecError { start: t.start, end: t.end, kind: ErrorKind::InvalidToken })
            } else if t.kind.is_closer() {
                Err(
                    SpecError {
                        start: t.start,
                        end: t.end,
                        kind: ErrorKind::UnexpectedToken { found: t.kind },
                    },
                )
            } else if t.kind.is_opener() {
                if pos < t.end <= s.len() {
                    match sp_parse_list(s, t.end, t.kind, t.start) {
                        SpecListParse::Parsed { items: sub, pos: p2 } => {
                            if pos < p2 <= s.len() {
                                match sp_parse_program(s, p2) {
                                    Ok(rest) => Ok(seq![SpecSExpr::List(sub)] + rest),
                                    Err(se) => Err(se),
                                }
                            } else {
                                arbitrary()
                            }
                        },
                        SpecListParse::Failed(se) => Err(se),
                    }
                } else {
                    arbitrary()
                }
            } else {
                match spec_atom(t.kind, s.subrange(t.start, t.end)) {
                    None => Err(
                        SpecError { start: t.start, end: t.end, kind: ErrorKind::InvalidToken },
                    ),
                    Some(a) => {
                        if pos < t.end <= s.len() {
                            match sp_parse_program(s, t.end) {
                                Ok(rest) => Ok(seq![a] + rest),
                                Err(se) => Err(se),
                            }
                        } else {
                            arbitrary()
                        }
                    },
                }
            }
        },
    }
}

/// The position after the first line-feed at or after `pos`, or the end of
/// the input when none follows.
pub open spec fn after_line(s: Seq<char>, pos: int) -> int
    decreases s.len() - pos,
{
    if pos < 0 || pos >= s.len() {
        s.len() as int
    } else if s[pos] == '\n' {
        pos + 1
    } else {
        after_line(s, pos + 1)
    }
}

/// True when the text begins with a shebang line.
pub open spec fn has_shebang(s: Seq<char>) -> bool {
    s.len() >= 2 && s[0] == '#' && s[1] == '!'
}

/// The index of the first character after the leading shebang line, or `0`
/// when the text has none.
pub open spec fn shebang_end(s: Seq<char>) -> int {
    if has_shebang(s) {
        after_line(s, 2)
    } else {
        0
    }
}

/// The result of parsing an input, at the specification level: the leading
/// shebang line, if any, is skipped, and parsing proceeds from there.
pub open spec fn spec_parse(s: Seq<char>) -> Result<Seq<SpecSExpr>, SpecError> {
    sp_parse_program(s, shebang_end(s))
}

/// [`after_line`] stays within bounds.
pub proof fn lemma_after_line_bounds(s: Seq<char>, pos: int)
    requires
        0 <= pos <= s.len(),
    ensures
        pos <= after_line(s, pos) <= s.len(),
    decreases s.len() - pos,
{
    if pos < s.len() && s[pos] != '\n' {
        lemma_after_line_bounds(s, pos + 1);
    }
}

/// Find the character index just past the leading shebang line, or `0` when
/// there is none.
#[verifier::loop_isolation(false)]
fn find_shebang_end(input: &str) -> (r: usize)
    ensures
        r as int == shebang_end(input@),
        r <= input@.len(),
{
    let n = input.unicode_len();
    if n >= 2 && input.get_char(0) == '#' && input.get_char(1) == '!' {
        let mut i: usize = 2;
        loop
            invariant
                2 <= i <= n,
                n == input@.len(),
                has_shebang(input@),
                after_line(input@, 2) == after_line(input@, i as int),
            decreases n - i,
        {
            if i >= n {
                return i;
            }
            if input.get_char(i) == '\n' {
                return i + 1;
            }
            i = i + 1;
        }
    } else {
        0
    }
}

/// Strip the shebang line from a string if one is present.
///
/// The result is the suffix of the input that follows the first line when
/// the input begins with `#!`, and the whole input otherwise.
pub fn strip_shebang(input: &str) -> (r: &str)
    ensures
        r@ == input@.subrange(shebang_end(input@), input@.len() as int),
{
    let n = input.unicode_len();
    let sb = find_shebang_end(input);
    proof {
        if has_shebang(input@) {
            lemma_after_line_bounds(input@, 2);
        }
    }
    input.substring_char(sb, n)
}

/// Parse the given source code into an abstract syntax tree.
///
/// A leading shebang line is skipped.  On success the result holds the
/// top-level data in source order; on failure it holds the first error met,
/// whose span is a byte range into `input`.
#[verifier::loop_isolation(false)]
#[verifier::rlimit(100)]
pub fn parse(input: &str) -> (r: Result<Vec<SExpr>, Error>)
    ensures
        match r {
            Ok(prog) => spec_parse(input@) == Result::<Seq<SpecSExpr>, SpecError>::Ok(
                views_of(prog@),
            ),
            Err(e) => {
                &&& spec_parse(input@) matches Err(se)
                &&& e.kind == se.kind
                &&& e.span.start == byte_off(input@, se.start)
                &&& e.span.end == byte_off(input@, se.end)
            },
        },
{
    let ghost src = input@;
    let sb = find_shebang_end(input);
    proof {
        if has_shebang(src) {
            lemma_after_line_bounds(src, 2);
        }
    }
    let mut lexer = Lexer::new(input);
    lexer.advance_to(sb);
    let mut program: Vec<SExpr> = Vec::new();
    proof {
        match sp_parse_program(src, sb as int) {
            Ok(rest) => {
                assert(views_of(program@) + rest =~= rest);
            },
            Err(_) => {},
        }
    }
    loop
        invariant
            lexer.wf(),
            lexer.src() == src,
            0 <= lexer.position() <= src.len(),
            match sp_parse_program(src, lexer.position()) {
                Ok(rest) => spec_parse(src) == Result::<Seq<SpecSExpr>, SpecError>::Ok(
                    views_of(program@) + rest,
                ),
                Err(se) => spec_parse(src) == Result::<Seq<SpecSExpr>, SpecError>::Err(se),
            },
        decreases src.len() - lexer.position(),
    {
        let ghost cur = lexer.position();
        proof {
            lemma_next_token_bounds(src, cur);
            lemma_skip_trivia_bounds(src, cur);
            if skip_trivia(src, cur) < src.len() {
                lemma_token_shapes(src, skip_trivia(src, cur));
            }
        }
        match lexer.next() {
            None => {
                proof {
                    assert(views_of(program@) + Seq::<SpecSExpr>::empty() =~= views_of(program@));
                }
                return Ok(program);
            },
            Some(tok) => {
                match tok.kind {
                    TokenKind::LParen | TokenKind::LBracket | TokenKind::LBrace => {
                        let sub_kind = tok.kind;
                        let sub_start_b = tok.span.start;
                        let sub_end_b = tok.span.end;
                        proof {
                            lemma_sp_parse_list_advances(
                                src,
                                lexer.position(),
                                sub_kind,
                                skip_trivia(src, cur),
                            );
                        }
                        let rr = parse_list(
                            lexer,
                            sub_kind,
                            sub_start_b,
                            Ghost(skip_trivia(src, cur)),
                            sub_end_b,
                        );
                        lexer = rr.0;
                        match rr.1 {
                            Ok((sub, _eb2)) => {
                                let ghost items0 = program@;
                                let ghost av = SpecSExpr::List(views_of(sub@));
                                program.push(SExpr::List(sub));
                                proof {
                                    lemma_views_of(items0);
                                    lemma_views_of(program@);
                                    assert(views_of(program@) =~= views_of(items0).push(av));
                                    match sp_parse_program(src, lexer.position()) {
                                        Ok(rest2) => {
                                            assert(views_of(items0) + (seq![av] + rest2)
                                                =~= views_of(items0).push(av) + rest2);
                                        },
                                        Err(_) => {},
                                    }
                                }
                            },
                            Err(e) => {
                                return Err(e);
                            },
                        }
                    },
                    TokenKind::RParen | TokenKind::RBracket | TokenKind::RBrace => {
                        return Err(
                            Error {
                                span: tok.span,
                                kind: ErrorKind::UnexpectedToken { found: tok.kind },
                            },
                        );
                    },
                    TokenKind::Invalid => {
                        return Err(Error { span: tok.span, kind: ErrorKind::InvalidToken });
                    },
                    _ => {
                        let tok_span = tok.span;
                        match atom_token(tok) {
                            Some(e) => {
                                let ghost items0 = program@;
                                let ghost av = e@;
                                program.push(e);
                                proof {
                                    lemma_views_of(items0);
                                    lemma_views_of(program@);
                                    assert(views_of(program@) =~= views_of(items0).push(av));
                                    match sp_parse_program(src, lexer.position()) {
                                        Ok(rest2) => {
                                            assert(views_of(items0) + (seq![av] + rest2)
                                                =~= views_of(items0).push(av) + rest2);
                                        },
                                        Err(_) => {},
                                    }
                                }
                            },
                            None => {
                                return Err(
                                    Error { span: tok_span, kind: ErrorKind::InvalidToken },
                                );
                            },
                        }
                    },
                }
            },
        }
    }
}

/// The value of a run of digits is never negative.
proof fn lemma_digits_value_nonneg(s: Seq<char>)
    requires
        forall|i: int| 0 <= i < s.len() ==> is_digit_char(#[trigger] s[i]),
    ensures
        digits_value(s) >= 0,
    decreases s.len(),
{
    if s.len() > 0 {
        lemma_digits_value_nonneg(s.drop_last());
    }
}

/// The value of a run of digits is at least the value of any of its
/// prefixes.
proof fn lemma_digits_value_mono(s: Seq<char>, k: int)
    requires
        0 <= k <= s.len(),
        forall|i: int| 0 <= i < s.len() ==> is_digit_char(#[trigger] s[i]),
    ensures
        digits_value(s.take(k)) <= digits_value(s),
    decreases s.len() - k,
{
    if k < s.len() {
        assert(s.take(k) =~= s.drop_last().take(k));
        lemma_digits_value_mono(s.drop_last(), k);
        lemma_digits_value_nonneg(s.drop_last());
    } else {
        assert(s.take(k) =~= s);
    }
}

/// Parse an integer-literal lexeme into a machine integer, or report that
/// its value does not fit.
#[verifier::loop_isolation(false)]
fn parse_int_lexeme(lex: &str) -> (r: Option<i32>)
    requires
        is_int_lexeme(lex@),
    ensures
        i32::MIN <= int_lexeme_value(lex@) <= i32::MAX ==> (r matches Some(x) && x as int
            == int_lexeme_value(lex@)),
        !(i32::MIN <= int_lexeme_value(lex@) <= i32::MAX) ==> r is None,
{
    let n = lex.unicode_len();
    let c0 = lex.get_char(0);
    let neg = c0 == '-';
    let signed: bool = neg || c0 == '+';
    let start: usize = if signed {
        1
    } else {
        0
    };
    let ghost d = lex@.subrange(start as int, n as int);
    proof {
        assert(lex@.drop_first() =~= lex@.subrange(1, n as int));
        assert(lex@.subrange(0, n as int) =~= lex@);
    }
    let mut acc: u64 = 0;
    let mut k: usize = start;
    while k < n
        invariant
            n == lex@.len(),
            start <= k <= n,
            start <= 1 < n || start == 0,
            d == lex@.subrange(start as int, n as int),
            forall|i: int| start <= i < n ==> is_digit_char(#[trigger] lex@[i]),
            acc as int == digits_value(lex@.subrange(start as int, k as int)),
            acc <= 0x8000_0000,
        decreases n - k,
    {
        let c = lex.get_char(k);
        let dv: u32 = (c as u32) - 48;
        let acc2: u64 = acc * 10 + (dv as u64);
        proof {
            assert(lex@.subrange(start as int, k + 1).drop_last() =~= lex@.subrange(
                start as int,
                k as int,
            ));
            assert(acc2 as int == digits_value(lex@.subrange(start as int, k + 1)));
        }
        if acc2 > 0x8000_0000 {
            proof {
                assert(lex@.subrange(start as int, k + 1) =~= d.take(k + 1 - start));
                assert(forall|i: int| 0 <= i < d.len() ==> is_digit_char(#[trigger] d[i]));
                lemma_digits_value_mono(d, k + 1 - start);
                assert(digits_value(d) >= acc2 as int);
                if signed {
                    assert(d =~= lex@.drop_first());
                } else {
                    assert(d =~= lex@);
                }
                assert(!(i32::MIN <= int_lexeme_value(lex@) <= i32::MAX));
            }
            return None;
        }
        acc = acc2;
        k = k + 1;
    }
    proof {
        assert(lex@.subrange(start as int, n as int) == d);
        if signed {
            assert(d =~= lex@.drop_first());
        } else {
            assert(d =~= lex@);
        }
        assert(digits_value(d) == acc as int);
    }
    if neg {
        let v: i64 = -(acc as i64);
        proof {
            assert(int_lexeme_value(lex@) == -(acc as int));
        }
        Some(v as i32)
    } else {
        if acc > 0x7fff_ffff {
            proof {
                assert(int_lexeme_value(lex@) == acc as int);
            }
            None
        } else {
            proof {
                assert(int_lexeme_value(lex@) == acc as int);
            }
            Some(acc as i32)
        }
    }
}

/// Turn a consumed atom token into its expression, or report an integer
/// literal whose value does not fit [`SExpr::Int`].
fn atom_token(tok: Token) -> (r: Option<SExpr>)
    requires
        is_atom_kind(tok.kind),
        tok.kind == TokenKind::Int ==> is_int_lexeme(tok.lexeme@),
        tok.kind == TokenKind::Bool ==> tok.lexeme@.len() >= 2,
    ensures
        match spec_atom(tok.kind, tok.lexeme@) {
            Some(v) => r matches Some(e) && e@ == v,
            None => r is None,
        },
{
    match tok.kind {
        TokenKind::Symbol => Some(SExpr::Symbol(tok.lexeme)),
        TokenKind::String => Some(SExpr::String(tok.lexeme)),
        TokenKind::Bool => {
            let c = tok.lexeme.as_str().get_char(1);
            Some(SExpr::Bool(c == 't'))
        },
        TokenKind::Int => {
            match parse_int_lexeme(tok.lexeme.as_str()) {
                Some(v) => Some(SExpr::Int(v)),
                None => None,
            }
        },
        _ => {
            proof {
                assert(false);
            }
            None
        },
    }
}

/// Parse the items of one list, from just after its consumed opening
/// bracket through the matching closing bracket; on success, also return the
/// byte offset of the end of the closing bracket.
#[verifier::loop_isolation(false)]
fn parse_list(
    lexer: Lexer,
    opener_kind: TokenKind,
    op_start_b: usize,
    Ghost(op_start): Ghost<int>,
    cur_end_b: usize,
) -> (r: (Lexer, Result<(Vec<SExpr>, usize), Error>))
    requires
        lexer.wf(),
        opener_kind.is_opener(),
        op_start_b == byte_off(lexer.src(), op_start),
        cur_end_b == byte_off(lexer.src(), lexer.position()),
    ensures
        r.0.wf(),
        r.0.src() == lexer.src(),
        match sp_parse_list(lexer.src(), lexer.position(), opener_kind, op_start) {
            SpecListParse::Parsed { items, pos } => {
                &&& r.1 matches Ok((v, eb))
                &&& views_of(v@) == items
                &&& r.0.position() == pos
                &&& eb == byte_off(lexer.src(), pos)
            },
            SpecListParse::Failed(se) => {
                &&& r.1 matches Err(e)
                &&& e.kind == se.kind
                &&& e.span.start == byte_off(lexer.src(), se.start)
                &&& e.span.end == byte_off(lexer.src(), se.end)
            },
        },
    decreases lexer.src().len() - lexer.position(),
{
    let ghost src = lexer.src();
    let ghost pos0 = lexer.position();
    let mut lexer = lexer;
    let closer = match opener_kind.closer() {
        Some(c) => c,
        None => {
            proof {
                assert(false);
            }
            opener_kind
        },
    };
    let mut items: Vec<SExpr> = Vec::new();
    let mut end_b: usize = cur_end_b;
    proof {
        match sp_parse_list(src, pos0, opener_kind, op_start) {
            SpecListParse::Parsed { items: rest, pos } => {
                assert(views_of(items@) + rest =~= rest);
            },
            SpecListParse::Failed(_) => {},
        }
    }
    loop
        invariant
            lexer.wf(),
            lexer.src() == src,
            0 <= pos0 <= lexer.position() <= src.len(),
            opener_kind.is_opener(),
            closer == opener_kind.closer_of(),
            op_start_b == byte_off(src, op_start),
            end_b == byte_off(src, lexer.position()),
            match sp_parse_list(src, lexer.position(), opener_kind, op_start) {
                SpecListParse::Parsed { items: rest, pos } => sp_parse_list(
                    src,
                    pos0,
                    opener_kind,
                    op_start,
                ) == (SpecListParse::Parsed { items: views_of(items@) + rest, pos }),
                SpecListParse::Failed(se) => sp_parse_list(src, pos0, opener_kind, op_start)
                    == SpecListParse::Failed(se),
            },
        decreases src.len() - lexer.position(),
    {
        let ghost cur = lexer.position();
        proof {
            lemma_next_token_bounds(src, cur);
            lemma_skip_trivia_bounds(src, cur);
            if skip_trivia(src, cur) < src.len() {
                lemma_token_shapes(src, skip_trivia(src, cur));
            }
        }
        match lexer.next() {
            None => {
                return (
                    lexer,
                    Err(
                        Error {
                            span: Span { start: op_start_b, end: end_b },
                            kind: ErrorKind::UnmatchedBracket { expected: closer },
                        },
                    ),
                );
            },
            Some(tok) => {
                match tok.kind {
                    TokenKind::LParen | TokenKind::LBracket | TokenKind::LBrace => {
                        let sub_kind = tok.kind;
                        let sub_start_b = tok.span.start;
                        let sub_end_b = tok.span.end;
                        proof {
                            lemma_sp_parse_list_advances(
                                src,
                                lexer.position(),
                                sub_kind,
                                skip_trivia(src, cur),
                            );
                        }
                        let rr = parse_list(
                            lexer,
                            sub_kind,
                            sub_start_b,
                            Ghost(skip_trivia(src, cur)),
                            sub_end_b,
                        );
                        lexer = rr.0;
                        match rr.1 {
                            Ok((sub, eb2)) => {
                                let ghost items0 = items@;
                                let ghost av = SpecSExpr::List(views_of(sub@));
                                items.push(SExpr::List(sub));
                                end_b = eb2;
                                proof {
                                    lemma_views_of(items0);
                                    lemma_views_of(items@);
                                    assert(views_of(items@) =~= views_of(items0).push(av));
                                    match sp_parse_list(
                                        src,
                                        lexer.position(),
                                        opener_kind,
                                        op_start,
                                    ) {
                                        SpecListParse::Parsed { items: rest2, pos: p } => {
                                            assert(views_of(items0) + (seq![av] + rest2)
                                                =~= views_of(items0).push(av) + rest2);
                                        },
                                        SpecListParse::Failed(_) => {},
                                    }
                                }
                            },
                            Err(e) => {
                                return (lexer, Err(e));
                            },
                        }
                    },
                    TokenKind::RParen | TokenKind::RBracket | TokenKind::RBrace => {
                        if tok.kind == closer {
                            proof {
                                assert(views_of(items@) + Seq::<SpecSExpr>::empty() =~= views_of(
                                    items@,
                                ));
                            }
                            return (lexer, Ok((items, tok.span.end)));
                        } else {
                            return (
                                lexer,
                                Err(
                                    Error {
                                        span: Span { start: op_start_b, end: end_b },
                                        kind: ErrorKind::UnexpectedBracket {
                                            expected: closer,
                                            found: tok.kind,
                                        },
                                    },
                                ),
                            );
                        }
                    },
                    TokenKind::Invalid => {
                        return (
                            lexer,
                            Err(Error { span: tok.span, kind: ErrorKind::InvalidToken }),
                        );
                    },
                    _ => {
                        let tok_span = tok.span;
                        match atom_token(tok) {
                            Some(e) => {
                                let ghost items0 = items@;
                                let ghost av = e@;
                                items.push(e);
                                end_b = tok_span.end;
                                proof {
                                    lemma_views_of(items0);
                                    lemma_views_of(items@);
                                    assert(views_of(items@) =~= views_of(items0).push(av));
                                    match sp_parse_list(
                                        src,
                                        lexer.position(),
                                        opener_kind,
                                        op_start,
                                    ) {
                                        SpecListParse::Parsed { items: rest2, pos: p } => {
                                            assert(views_of(items0) + (seq![av] + rest2)
                                                =~= views_of(items0).push(av) + rest2);
                                        },
                                        SpecListParse::Failed(_) => {},
                                    }
                                }
                            },
                            None => {
                                return (
                                    lexer,
                                    Err(Error { span: tok_span, kind: ErrorKind::InvalidToken }),
                                );
                            },
                        }
                    },
                }
            },
        }
    }
}

/// A successfully parsed list ends strictly after the position where its
/// items begin.
pub proof fn lemma_sp_parse_list_advances(s: Seq<char>, pos: int, opener: TokenKind, op_start: int)
    requires
        0 <= pos <= s.len(),
    ensures
        sp_parse_list(s, pos, opener, op_start) matches SpecListParse::Parsed { items, pos: p }
            ==> pos < p <= s.len(),
    decreases s.len() - pos,
{
    lemma_next_token_bounds(s, pos);
    match next_token(s, pos) {
        None => {},
        Some(t) => {
            if t.kind == TokenKind::Invalid {
            } else if t.kind.is_closer() {
            } else if t.kind.is_opener() {
                lemma_sp_parse_list_advances(s, t.end, t.kind, t.start);
                match sp_parse_list(s, t.end, t.kind, t.start) {
                    SpecListParse::Parsed { items: sub, pos: p2 } => {
                        lemma_sp_parse_list_advances(s, p2, opener, op_start);
                    },
                    SpecListParse::Failed(_) => {},
                }
            } else {
                lemma_sp_parse_list_advances(s, t.end, opener, op_start);
            }
        },
    }
}

} // verus!
