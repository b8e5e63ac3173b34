//! Lexical analyser for Luna source code.

use vstd::prelude::*;
use vstd::utf8::{encode_scalar, encode_utf8};

use crate::syntax::Span;

verus! {

broadcast use vstd::utf8::char_is_scalar;

/// The lexical category of a [`Token`].
#[derive(Copy, Clone, Eq, PartialEq, Structural, Debug)]
pub enum TokenKind {
    /// A left bracket `(` character.
    LParen,
    /// A right bracket `)` character.
    RParen,
    /// A left square bracket `[` character.
    LBracket,
    /// A right square bracket `]` character.
    RBracket,
    /// A left brace `{` character.
    LBrace,
    /// A right brace `}` character.
    RBrace,
    /// A symbol (an interned kind of string).
    Symbol,
    /// A string literal.
    String,
    /// An integer literal.
    Int,
    /// A Boolean literal.
    Bool,
    /// A 'token' used for indicating errors encountered during lexical
    /// analysis.
    Invalid,
}

impl TokenKind {
    /// True for the three kinds of opening bracket.
    pub open spec fn is_opener(self) -> bool {
        self == TokenKind::LParen || self == TokenKind::LBracket || self == TokenKind::LBrace
    }

    /// True for the three kinds of closing bracket.
    pub open spec fn is_closer(self) -> bool {
        self == TokenKind::RParen || self == TokenKind::RBracket || self == TokenKind::RBrace
    }

    /// The opening bracket whose closing bracket is `self`, for the three
    /// closing kinds.
    pub open spec fn opener_of(self) -> TokenKind
        recommends
            self.is_closer(),
    {
        match self {
            TokenKind::RParen => TokenKind::LParen,
            TokenKind::RBracket => TokenKind::LBracket,
            _ => TokenKind::LBrace,
        }
    }

    /// The closing bracket whose opening bracket is `self`, for the three
    /// opening kinds.
    pub open spec fn closer_of(self) -> TokenKind
        recommends
            self.is_opener(),
    {
        match self {
            TokenKind::LParen => TokenKind::RParen,
            TokenKind::LBracket => TokenKind::RBracket,
            _ => TokenKind::RBrace,
        }
    }

    /// Get the opening token for this token if it has one.
    pub fn opener(&self) -> (r: Option<TokenKind>)
        ensures
            r == if self.is_closer() {
                Some(self.opener_of())
            } else {
                None::<TokenKind>
            },
    {
        match self {
            TokenKind::RParen => Some(TokenKind::LParen),
            TokenKind::RBracket => Some(TokenKind::LBracket),
            TokenKind::RBrace => Some(TokenKind::LBrace),
            _ => None,
        }
    }

    /// Get the closing token for this token if it has one.
    pub fn closer(&self) -> (r: Option<TokenKind>)
        ensures
            r == if self.is_opener() {
                Some(self.closer_of())
            } else {
                None::<TokenKind>
            },
    {
        match self {
            TokenKind::LParen => Some(TokenKind::RParen),
            TokenKind::LBracket => Some(TokenKind::RBracket),
            TokenKind::LBrace => Some(TokenKind::RBrace),
            _ => None,
        }
    }
}

/// Get the matching bracket for a given bracket token kind, in either
/// direction, or `None` when the kind is not a bracket.
pub fn get_matching(token_kind: TokenKind) -> (r: Option<TokenKind>)
    ensures
        token_kind.is_opener() ==> r == Some(token_kind.closer_of()),
        token_kind.is_closer() ==> r == Some(token_kind.opener_of()),
        !token_kind.is_opener() && !token_kind.is_closer() ==> r == None::<TokenKind>,
{
    match token_kind {
        TokenKind::LParen => Some(TokenKind::RParen),
        TokenKind::LBracket => Some(TokenKind::RBracket),
        TokenKind::LBrace => Some(TokenKind::RBrace),
        TokenKind::RParen => Some(TokenKind::LParen),
        TokenKind::RBracket => Some(TokenKind::LBracket),
        TokenKind::RBrace => Some(TokenKind::LBrace),
        _ => None,
    }
}

/// True of the eleven characters with the Unicode `Pattern_White_Space`
/// property; runs of these separate tokens and are never part of one.
pub open spec fn is_whitespace_char(c: char) -> bool {
    c == '\u{0009}' || c == '\u{000A}' || c == '\u{000B}' || c == '\u{000C}' || c == '\u{000D}'
        || c == '\u{0020}' || c == '\u{0085}' || c == '\u{200E}' || c == '\u{200F}'
        || c == '\u{2028}' || c == '\u{2029}'
}

/// Whether a character has the Unicode `XID_Continue` property.  The property
/// is defined by the Unicode character database; only its restriction to
/// non-ASCII characters is consulted by the lexer, through
/// [`non_ascii_xid_continue`].
pub uninterp spec fn xid_continue(c: char) -> bool;

/// Relies on `unicode_ident::is_xid_continue`: whether a character has the
/// Unicode `XID_Continue` property, a pure table lookup on the character
/// alone.
#[verifier::external_body]
fn non_ascii_xid_continue(c: char) -> (r: bool)
    ensures
        r == xid_continue(c),
{
    unicode_ident::is_xid_continue(c)
}

/// The extended symbol-constituent characters, beyond identifier
/// continuation characters, that may appear in a symbol.
pub open spec fn is_extended_symbol_char(c: char) -> bool {
    c == '!' || c == '$' || c == '%' || c == '*' || c == '+' || c == '-' || c == '.' || c == '/'
        || c == ':' || c == '<' || c == '=' || c == '>' || c == '?' || c == '@' || c == '^'
        || c == '_' || c == '~'
}

/// True of the ASCII characters with the `XID_Continue` property: the
/// alphanumeric characters and the underscore.
pub open spec fn is_ascii_identifier_char(c: char) -> bool {
    ('0' <= c && c <= '9') || ('a' <= c && c <= 'z') || ('A' <= c && c <= 'Z') || c == '_'
}

/// True of the characters that may make up a symbol token: Unicode
/// identifier-continuation characters together with the extended
/// symbol-constituent set.  Whitespace never counts as a symbol character.
pub open spec fn is_symbol_char(c: char) -> bool {
    if (c as u32) < 128 {
        is_ascii_identifier_char(c) || is_extended_symbol_char(c)
    } else {
        !is_whitespace_char(c) && xid_continue(c)
    }
}

/// True of the ASCII decimal digits.
pub open spec fn is_digit_char(c: char) -> bool {
    '0' <= c && c <= '9'
}

/// Decide [`is_whitespace_char`].
fn whitespace_char(c: char) -> (r: bool)
    ensures
        r == is_whitespace_char(c),
{
    c == '\u{0009}' || c == '\u{000A}' || c == '\u{000B}' || c == '\u{000C}' || c == '\u{000D}'
        || c == '\u{0020}' || c == '\u{0085}' || c == '\u{200E}' || c == '\u{200F}'
        || c == '\u{2028}' || c == '\u{2029}'
}

/// Decide [`is_symbol_char`].
fn symbol_char(c: char) -> (r: bool)
    ensures
        r == is_symbol_char(c),
{
    if (c as u32) < 128 {
        ('0' <= c && c <= '9') || ('a' <= c && c <= 'z') || ('A' <= c && c <= 'Z') || c == '_'
            || c == '!' || c == '$' || c == '%' || c == '*' || c == '+' || c == '-' || c == '.'
            || c == '/' || c == ':' || c == '<' || c == '=' || c == '>' || c == '?' || c == '@'
            || c == '^' || c == '~'
    } else {
        !whitespace_char(c) && non_ascii_xid_continue(c)
    }
}

/// Decide [`is_digit_char`].
fn digit_char(c: char) -> (r: bool)
    ensures
        r == is_digit_char(c),
{
    '0' <= c && c <= '9'
}

/// The number of bytes in the UTF-8 encoding of a character.
pub open spec fn char_width(c: char) -> int {
    encode_scalar(c as u32).len() as int
}

/// The byte offset at which the `i`th character of `s` begins within the
/// UTF-8 encoding of `s` (for `i == s.len()`, the total byte length).
pub open spec fn byte_off(s: Seq<char>, i: int) -> int
    decreases i,
{
    if i <= 0 {
        0
    } else {
        byte_off(s, i - 1) + char_width(s[i - 1])
    }
}

/// Every character occupies between one and four bytes in UTF-8.
pub proof fn lemma_char_width_bounds(c: char)
    ensures
        1 <= char_width(c) <= 4,
{
}

/// Byte offsets grow with the character index.
pub proof fn lemma_byte_off_mono(s: Seq<char>, i: int, j: int)
    requires
        i <= j,
    ensures
        byte_off(s, i) <= byte_off(s, j),
    decreases j - i,
{
    if i < j {
        lemma_byte_off_mono(s, i, j - 1);
        lemma_char_width_bounds(s[j - 1]);
    }
}

/// Encoding a sequence extended by one character appends that character's
/// encoding.
proof fn lemma_encode_utf8_push(s: Seq<char>, c: char)
    ensures
        encode_utf8(s.push(c)) == encode_utf8(s) + encode_scalar(c as u32),
    decreases s.len(),
{
    if s.len() == 0 {
        assert(s.push(c).drop_first() =~= s);
        assert(encode_utf8(s.push(c)) =~= encode_utf8(s) + encode_scalar(c as u32));
    } else {
        assert(s.push(c).drop_first() =~= s.drop_first().push(c));
        lemma_encode_utf8_push(s.drop_first(), c);
        assert(encode_utf8(s.push(c)) =~= encode_utf8(s) + encode_scalar(c as u32));
    }
}

/// The byte offset of character `i` is the length of the UTF-8 encoding of
/// the first `i` characters.
pub proof fn lemma_byte_off_is_encoded_len(s: Seq<char>, i: int)
    requires
        0 <= i <= s.len(),
    ensures
        byte_off(s, i) == encode_utf8(s.take(i)).len(),
    decreases i,
{
    if i == 0 {
        assert(s.take(0) =~= Seq::<char>::empty());
    } else {
        lemma_byte_off_is_encoded_len(s, i - 1);
        assert(s.take(i) =~= s.take(i - 1).push(s[i - 1]));
        lemma_encode_utf8_push(s.take(i - 1), s[i - 1]);
    }
}

/// Compute [`char_width`].
fn char_width_exec(c: char) -> (r: usize)
    ensures
        r as int == char_width(c),
{
    let u = c as u32;
    if u < 0x80 {
        1
    } else if u < 0x800 {
        2
    } else if u < 0x10000 {
        3
    } else {
        4
    }
}

/// A token at the specification level: its kind together with the half-open
/// range of character indices it covers in the source sequence.
pub struct SpecToken {
    /// The lexical category of the token.
    pub kind: TokenKind,
    /// The index of the first character of the lexeme.
    pub start: int,
    /// The index of the character after the last character of the lexeme.
    pub end: int,
}

/// The first position at or after `pos` that is not inside a run of
/// whitespace or a line comment, or the length of `s` if only such trivia
/// remains.
pub open spec fn skip_trivia(s: Seq<char>, pos: int) -> int
    decreases s.len() - pos,
{
    if pos < 0 || pos >= s.len() {
        s.len() as int
    } else if is_whitespace_char(s[pos]) {
        skip_trivia(s, pos + 1)
    } else if s[pos] == ';' {
        skip_comment(s, pos + 1)
    } else {
        pos
    }
}

/// Continue [`skip_trivia`] from inside a line comment: everything up to the
/// next line break belongs to the comment.
pub open spec fn skip_comment(s: Seq<char>, pos: int) -> int
    decreases s.len() - pos,
{
    if pos < 0 || pos >= s.len() {
        s.len() as int
    } else if s[pos] == '\n' || s[pos] == '\r' {
        skip_trivia(s, pos + 1)
    } else {
        skip_comment(s, pos + 1)
    }
}

/// The end of the run of decimal digits beginning at `pos`.
pub open spec fn digits_end(s: Seq<char>, pos: int) -> int
    decreases s.len() - pos,
{
    if 0 <= pos < s.len() && is_digit_char(s[pos]) {
        digits_end(s, pos + 1)
    } else {
        pos
    }
}

/// The end of the run of symbol characters beginning at `pos`.
pub open spec fn symbol_end(s: Seq<char>, pos: int) -> int
    decreases s.len() - pos,
{
    if 0 <= pos < s.len() && is_symbol_char(s[pos]) {
        symbol_end(s, pos + 1)
    } else {
        pos
    }
}

/// Scanning the body of a string literal from `pos` (a position inside the
/// literal, after the opening quote): the position after the closing quote,
/// or `None` when the literal is unterminated.  A backslash escapes the
/// character that follows it.
pub open spec fn string_body_end(s: Seq<char>, pos: int) -> Option<int>
    decreases s.len() - pos,
{
    if pos < 0 || pos >= s.len() {
        None
    } else if s[pos] == '"' {
        Some(pos + 1)
    } else if s[pos] == '\\' {
        if pos + 1 >= s.len() {
            None
        } else {
            string_body_end(s, pos + 2)
        }
    } else {
        string_body_end(s, pos + 1)
    }
}

/// The end of the Boolean literal beginning at position `pos` (which holds a
/// `#`), if one of `#false`, `#true`, `#t`, `#f` begins there; the longest
/// match wins.
pub open spec fn bool_token_end(s: Seq<char>, pos: int) -> Option<int> {
    if pos + 6 <= s.len() && s[pos + 1] == 'f' && s[pos + 2] == 'a' && s[pos + 3] == 'l'
        && s[pos + 4] == 's' && s[pos + 5] == 'e' {
        Some(pos + 6)
    } else if pos + 5 <= s.len() && s[pos + 1] == 't' && s[pos + 2] == 'r' && s[pos + 3] == 'u'
        && s[pos + 4] == 'e' {
        Some(pos + 5)
    } else if pos + 2 <= s.len() && (s[pos + 1] == 't' || s[pos + 1] == 'f') {
        Some(pos + 2)
    } else {
        None
    }
}

/// The token beginning at position `pos`, which must hold a character that
/// is neither whitespace nor starts a comment.  Classification follows
/// maximal munch; a digit run that could extend to a longer symbol lexes as
/// that symbol, and otherwise integers take priority over symbols.
pub open spec fn scan_token(s: Seq<char>, pos: int) -> SpecToken
    recommends
        0 <= pos < s.len(),
{
    let c = s[pos];
    if c == '(' {
        SpecToken { kind: TokenKind::LParen, start: pos, end: pos + 1 }
    } else if c == ')' {
        SpecToken { kind: TokenKind::RParen, start: pos, end: pos + 1 }
    } else if c == '[' {
        SpecToken { kind: TokenKind::LBracket, start: pos, end: pos + 1 }
    } else if c == ']' {
        SpecToken { kind: TokenKind::RBracket, start: pos, end: pos + 1 }
    } else if c == '{' {
        SpecToken { kind: TokenKind::LBrace, start: pos, end: pos + 1 }
    } else if c == '}' {
        SpecToken { kind: TokenKind::RBrace, start: pos, end: pos + 1 }
    } else if c == '"' {
        match string_body_end(s, pos + 1) {
            Some(e) => SpecToken { kind: TokenKind::String, start: pos, end: e },
            None => SpecToken { kind: TokenKind::Invalid, start: pos, end: pos + 1 },
        }
    } else if c == '#' {
        match bool_token_end(s, pos) {
            Some(e) => SpecToken { kind: TokenKind::Bool, start: pos, end: e },
            None => SpecToken { kind: TokenKind::Invalid, start: pos, end: pos + 1 },
        }
    } else if is_digit_char(c) {
        let ie = digits_end(s, pos);
        let se = symbol_end(s, pos);
        if se > ie {
            SpecToken { kind: TokenKind::Symbol, start: pos, end: se }
        } else {
            SpecToken { kind: TokenKind::Int, start: pos, end: ie }
        }
    } else if c == '+' || c == '-' {
        if pos + 1 < s.len() && is_digit_char(s[pos + 1]) {
            let ie = digits_end(s, pos + 1);
            let se = symbol_end(s, pos);
            if se > ie {
                SpecToken { kind: TokenKind::Symbol, start: pos, end: se }
            } else {
                SpecToken { kind: TokenKind::Int, start: pos, end: ie }
            }
        } else {
            SpecToken { kind: TokenKind::Symbol, start: pos, end: symbol_end(s, pos) }
        }
    } else if is_symbol_char(c) {
        SpecToken { kind: TokenKind::Symbol, start: pos, end: symbol_end(s, pos) }
    } else {
        SpecToken { kind: TokenKind::Invalid, start: pos, end: pos + 1 }
    }
}

/// The first token at or after position `pos`, after skipping whitespace and
/// comments, or `None` when only trivia remains.
pub open spec fn next_token(s: Seq<char>, pos: int) -> Option<SpecToken> {
    let p = skip_trivia(s, pos);
    if p >= s.len() {
        None
    } else {
        Some(scan_token(s, p))
    }
}

/// [`skip_trivia`] stays within bounds and stops at a token-start character.
pub proof fn lemma_skip_trivia_bounds(s: Seq<char>, pos: int)
    requires
        0 <= pos <= s.len(),
    ensures
        pos <= skip_trivia(s, pos) <= s.len(),
        skip_trivia(s, pos) < s.len() ==> !is_whitespace_char(s[skip_trivia(s, pos)]) && s[
            skip_trivia(s, pos)
        ] != ';',
    decreases s.len() - pos,
{
    if pos < s.len() {
        if is_whitespace_char(s[pos]) {
            lemma_skip_trivia_bounds(s, pos + 1);
        } else if s[pos] == ';' {
            lemma_skip_comment_bounds(s, pos + 1);
        }
    }
}

/// [`skip_comment`] stays within bounds and stops at a token-start character.
pub proof fn lemma_skip_comment_bounds(s: Seq<char>, pos: int)
    requires
        0 <= pos <= s.len(),
    ensures
        pos <= skip_comment(s, pos) <= s.len(),
        skip_comment(s, pos) < s.len() ==> !is_whitespace_char(s[skip_comment(s, pos)]) && s[
            skip_comment(s, pos)
        ] != ';',
    decreases s.len() - pos,
{
    if pos < s.len() {
        if s[pos] == '\n' || s[pos] == '\r' {
            lemma_skip_trivia_bounds(s, pos + 1);
        } else {
            lemma_skip_comment_bounds(s, pos + 1);
        }
    }
}

/// [`digits_end`] stays within bounds.
pub proof fn lemma_digits_end_bounds(s: Seq<char>, pos: int)
    requires
        0 <= pos <= s.len(),
    ensures
        pos <= digits_end(s, pos) <= s.len(),
    decreases s.len() - pos,
{
    if pos < s.len() && is_digit_char(s[pos]) {
        lemma_digits_end_bounds(s, pos + 1);
    }
}

/// [`symbol_end`] stays within bounds.
pub proof fn lemma_symbol_end_bounds(s: Seq<char>, pos: int)
    requires
        0 <= pos <= s.len(),
    ensures
        pos <= symbol_end(s, pos) <= s.len(),
    decreases s.len() - pos,
{
    if pos < s.len() && is_symbol_char(s[pos]) {
        lemma_symbol_end_bounds(s, pos + 1);
    }
}

/// [`string_body_end`] stays within bounds.
pub proof fn lemma_string_body_end_bounds(s: Seq<char>, pos: int)
    requires
        0 <= pos <= s.len(),
    ensures
        string_body_end(s, pos) matches Some(e) ==> pos < e <= s.len(),
    decreases s.len() - pos,
{
    if pos < s.len() {
        if s[pos] == '"' {
        } else if s[pos] == '\\' {
            if pos + 1 < s.len() {
                lemma_string_body_end_bounds(s, pos + 2);
            }
        } else {
            lemma_string_body_end_bounds(s, pos + 1);
        }
    }
}

/// Every token covers a non-empty in-bounds character range beginning where
/// the scan began.
pub proof fn lemma_scan_token_bounds(s: Seq<char>, pos: int)
    requires
        0 <= pos < s.len(),
    ensures
        scan_token(s, pos).start == pos,
        pos < scan_token(s, pos).end <= s.len(),
{
    let c = s[pos];
    if c == '"' {
        lemma_string_body_end_bounds(s, pos + 1);
    } else {
        lemma_digits_end_bounds(s, pos, );
        lemma_symbol_end_bounds(s, pos);
        if pos + 1 <= s.len() {
            lemma_digits_end_bounds(s, pos + 1);
        }
        if is_symbol_char(c) {
            assert(symbol_end(s, pos) == symbol_end(s, pos + 1));
            lemma_symbol_end_bounds(s, pos + 1);
        }
    }
}

/// A digit run over which every character is a digit reaches the end of the
/// input.
pub proof fn lemma_digits_end_all(s: Seq<char>, pos: int)
    requires
        0 <= pos <= s.len(),
        forall|i: int| pos <= i < s.len() ==> is_digit_char(#[trigger] s[i]),
    ensures
        digits_end(s, pos) == s.len(),
    decreases s.len() - pos,
{
    if pos < s.len() {
        lemma_digits_end_all(s, pos + 1);
    }
}

/// A symbol run over which every character is a symbol character reaches the
/// end of the input.
pub proof fn lemma_symbol_end_all(s: Seq<char>, pos: int)
    requires
        0 <= pos <= s.len(),
        forall|i: int| pos <= i < s.len() ==> is_symbol_char(#[trigger] s[i]),
    ensures
        symbol_end(s, pos) == s.len(),
    decreases s.len() - pos,
{
    if pos < s.len() {
        lemma_symbol_end_all(s, pos + 1);
    }
}

/// A digit run stops exactly at the first position that does not hold a
/// digit.
pub proof fn lemma_digits_end_stop(s: Seq<char>, pos: int, end: int)
    requires
        0 <= pos <= end <= s.len(),
        forall|i: int| pos <= i < end ==> is_digit_char(#[trigger] s[i]),
        end < s.len() ==> !is_digit_char(s[end]),
    ensures
        digits_end(s, pos) == end,
    decreases end - pos,
{
    if pos < end {
        lemma_digits_end_stop(s, pos + 1, end);
    }
}

/// A symbol run stops exactly at the first position that does not hold a
/// symbol character.
pub proof fn lemma_symbol_end_stop(s: Seq<char>, pos: int, end: int)
    requires
        0 <= pos <= end <= s.len(),
        forall|i: int| pos <= i < end ==> is_symbol_char(#[trigger] s[i]),
        end < s.len() ==> !is_symbol_char(s[end]),
    ensures
        symbol_end(s, pos) == end,
    decreases end - pos,
{
    if pos < end {
        lemma_symbol_end_stop(s, pos + 1, end);
    }
}

/// Scanning a string-literal body embedded in a larger text mirrors the
/// scan of the literal itself.
pub proof fn lemma_string_body_embedded(l: Seq<char>, s: Seq<char>, pos: int, j: int)
    requires
        0 <= j <= l.len(),
        0 <= pos,
        pos + l.len() <= s.len(),
        s.subrange(pos, pos + l.len()) == l,
        string_body_end(l, j) == Some(l.len() as int),
    ensures
        string_body_end(s, pos + j) == Some(pos + l.len()),
    decreases l.len() - j,
{
    assert(s[pos + j] == l[j]) by {
        assert(l[j] == s.subrange(pos, pos + l.len())[j]);
    }
    if l[j] == '"' {
    } else if l[j] == '\\' {
        lemma_string_body_embedded(l, s, pos, j + 2);
    } else {
        lemma_string_body_embedded(l, s, pos, j + 1);
    }
}

/// The shape of an integer-literal lexeme: an optional sign followed by at
/// least one decimal digit, and nothing else.
pub open spec fn is_int_lexeme(l: Seq<char>) -> bool {
    if l.len() > 0 && (l[0] == '+' || l[0] == '-') {
        l.len() >= 2 && forall|i: int| 1 <= i < l.len() ==> is_digit_char(#[trigger] l[i])
    } else {
        l.len() >= 1 && forall|i: int| 0 <= i < l.len() ==> is_digit_char(#[trigger] l[i])
    }
}

/// Every character of a digit run is a digit.
pub proof fn lemma_digits_end_chars(s: Seq<char>, pos: int)
    requires
        0 <= pos <= s.len(),
    ensures
        forall|i: int| pos <= i < digits_end(s, pos) ==> is_digit_char(#[trigger] s[i]),
    decreases s.len() - pos,
{
    if pos < s.len() && is_digit_char(s[pos]) {
        lemma_digits_end_chars(s, pos + 1);
        lemma_digits_end_bounds(s, pos + 1);
    }
}

/// Every character of a symbol run is a symbol character.
pub proof fn lemma_symbol_end_chars(s: Seq<char>, pos: int)
    requires
        0 <= pos <= s.len(),
    ensures
        forall|i: int| pos <= i < symbol_end(s, pos) ==> is_symbol_char(#[trigger] s[i]),
    decreases s.len() - pos,
{
    if pos < s.len() && is_symbol_char(s[pos]) {
        lemma_symbol_end_chars(s, pos + 1);
        lemma_symbol_end_bounds(s, pos + 1);
    }
}

/// The lexemes of integer and Boolean tokens have the shapes their kinds
/// promise: an integer token's lexeme is a signed digit run, and a Boolean
/// token's lexeme has at least two characters, the second deciding its
/// value.
pub proof fn lemma_token_shapes(s: Seq<char>, pos: int)
    requires
        0 <= pos < s.len(),
    ensures
        scan_token(s, pos).kind == TokenKind::Int ==> is_int_lexeme(
            s.subrange(scan_token(s, pos).start, scan_token(s, pos).end),
        ),
        scan_token(s, pos).kind == TokenKind::Bool ==> scan_token(s, pos).end - scan_token(
            s,
            pos,
        ).start >= 2,
{
    let t = scan_token(s, pos);
    lemma_scan_token_bounds(s, pos);
    if t.kind == TokenKind::Int {
        let c = s[pos];
        let lex = s.subrange(t.start, t.end);
        if is_digit_char(c) {
            lemma_digits_end_bounds(s, pos);
            lemma_digits_end_chars(s, pos);
            assert forall|i: int| 0 <= i < lex.len() implies is_digit_char(#[trigger] lex[i]) by {
                assert(lex[i] == s[pos + i]);
            }
            assert(is_int_lexeme(lex));
        } else {
            // A sign followed by at least one digit.
            assert(digits_end(s, pos + 1) == digits_end(s, pos + 2));
            lemma_digits_end_bounds(s, pos + 2);
            lemma_digits_end_chars(s, pos + 1);
            assert forall|i: int| 1 <= i < lex.len() implies is_digit_char(#[trigger] lex[i]) by {
                assert(lex[i] == s[pos + i]);
            }
            assert(is_int_lexeme(lex));
        }
    }
}

/// A digit run that stops short of the end of the input stops at a
/// non-digit.
pub proof fn lemma_digits_end_char(s: Seq<char>, pos: int)
    requires
        0 <= pos <= s.len(),
    ensures
        digits_end(s, pos) < s.len() ==> !is_digit_char(s[digits_end(s, pos)]),
    decreases s.len() - pos,
{
    if pos < s.len() && is_digit_char(s[pos]) {
        lemma_digits_end_char(s, pos + 1);
    }
}

/// A symbol run that stops short of the end of the input stops at a
/// non-symbol character.
pub proof fn lemma_symbol_end_char(s: Seq<char>, pos: int)
    requires
        0 <= pos <= s.len(),
    ensures
        symbol_end(s, pos) < s.len() ==> !is_symbol_char(s[symbol_end(s, pos)]),
    decreases s.len() - pos,
{
    if pos < s.len() && is_symbol_char(s[pos]) {
        lemma_symbol_end_char(s, pos + 1);
    }
}

/// Two texts that agree below a bound hold the same characters at every
/// position under it.
pub open spec fn agree_below(s1: Seq<char>, s2: Seq<char>, m: int) -> bool {
    &&& m <= s1.len()
    &&& m <= s2.len()
    &&& forall|k: int| 0 <= k < m ==> s1[k] == #[trigger] s2[k]
}

/// Skipping trivia that ends below the agreement bound behaves the same in
/// both texts.
pub proof fn lemma_skip_trivia_agree(s1: Seq<char>, s2: Seq<char>, q: int, m: int)
    requires
        agree_below(s1, s2, m),
        0 <= q <= m,
        skip_trivia(s1, q) < m,
    ensures
        skip_trivia(s2, q) == skip_trivia(s1, q),
    decreases m - q,
{
    lemma_skip_trivia_bounds(s1, q);
    if is_whitespace_char(s1[q]) {
        lemma_skip_trivia_bounds(s1, q + 1);
        lemma_skip_trivia_agree(s1, s2, q + 1, m);
    } else if s1[q] == ';' {
        lemma_skip_comment_agree(s1, s2, q + 1, m);
    }
}

/// Skipping a comment that ends below the agreement bound behaves the same
/// in both texts.
pub proof fn lemma_skip_comment_agree(s1: Seq<char>, s2: Seq<char>, q: int, m: int)
    requires
        agree_below(s1, s2, m),
        0 <= q <= m,
        skip_comment(s1, q) < m,
    ensures
        skip_comment(s2, q) == skip_comment(s1, q),
    decreases m - q,
{
    lemma_skip_comment_bounds(s1, q);
    if s1[q] == '\n' || s1[q] == '\r' {
        lemma_skip_trivia_agree(s1, s2, q + 1, m);
    } else {
        lemma_skip_comment_agree(s1, s2, q + 1, m);
    }
}

/// A string-literal body scan that closes below the agreement bound behaves
/// the same in both texts.
pub proof fn lemma_string_body_agree(s1: Seq<char>, s2: Seq<char>, q: int, m: int)
    requires
        agree_below(s1, s2, m),
        0 <= q <= m,
        string_body_end(s1, q) matches Some(e) && e <= m,
    ensures
        string_body_end(s2, q) == string_body_end(s1, q),
    decreases m - q,
{
    lemma_string_body_end_bounds(s1, q);
    if s1[q] == '"' {
    } else if s1[q] == '\\' {
        lemma_string_body_end_bounds(s1, q + 2);
        lemma_string_body_agree(s1, s2, q + 2, m);
    } else {
        lemma_string_body_agree(s1, s2, q + 1, m);
    }
}

/// Scanning a token that ends at or below the agreement bound of two texts,
/// where the second text continues with whitespace, a comment, or nothing,
/// finds the same token in both.
pub proof fn lemma_scan_token_agree(s1: Seq<char>, s2: Seq<char>, q: int, m: int)
    requires
        agree_below(s1, s2, m),
        0 <= q < m,
        scan_token(s1, q).end <= m,
        m < s2.len() ==> is_whitespace_char(s2[m]) || s2[m] == ';',
        // An unterminated string literal can capture inserted text, so it is
        // left out.
        !(scan_token(s1, q).kind == TokenKind::Invalid && s1[q] == '"'),
    ensures
        scan_token(s2, q) == scan_token(s1, q),
{
    lemma_scan_token_bounds(s1, q);
    let t = scan_token(s1, q);
    let c = s1[q];
    if c == '(' || c == ')' || c == '[' || c == ']' || c == '{' || c == '}' {
    } else if c == '"' {
        match string_body_end(s1, q + 1) {
            Some(e) => {
                lemma_string_body_agree(s1, s2, q + 1, m);
            },
            None => {
                assert(false);
            },
        }
    } else if c == '#' {
        assert(bool_token_end(s2, q) == bool_token_end(s1, q)) by {
            lemma_bool_token_end_agree(s1, s2, q, m);
        }
    } else if is_digit_char(c) {
        lemma_run_ends_agree(s1, s2, q, m);
    } else if c == '+' || c == '-' {
        lemma_run_ends_agree(s1, s2, q, m);
        if q + 1 < s1.len() && is_digit_char(s1[q + 1]) {
            assert(is_symbol_char(s1[q]));
            assert(is_symbol_char(s1[q + 1]));
            lemma_digits_end_bounds(s1, q + 2);
            lemma_symbol_end_bounds(s1, q + 2);
            assert(digits_end(s1, q + 1) >= q + 2);
            assert(symbol_end(s1, q) == symbol_end(s1, q + 1));
            assert(symbol_end(s1, q + 1) == symbol_end(s1, q + 2));
            assert(symbol_end(s1, q) >= q + 2);
            assert(q + 1 < t.end);
            assert(q + 1 < m);
            assert(q + 1 < s2.len() && is_digit_char(s2[q + 1]));
        } else {
            // The sign is not followed by a digit in the second text either.
            if q + 1 < s2.len() && is_digit_char(s2[q + 1]) {
                if q + 1 < m {
                    assert(s1[q + 1] == s2[q + 1]);
                    assert(false);
                } else {
                    assert(q + 1 == m);
                    assert(false);
                }
            }
        }
    } else if is_symbol_char(c) {
        lemma_run_ends_agree(s1, s2, q, m);
    }
}

/// Digit and symbol runs below the agreement bound end at the same place in
/// both texts.
proof fn lemma_run_ends_agree(s1: Seq<char>, s2: Seq<char>, q: int, m: int)
    requires
        agree_below(s1, s2, m),
        0 <= q < m,
        scan_token(s1, q).end <= m,
        m < s2.len() ==> is_whitespace_char(s2[m]) || s2[m] == ';',
        is_digit_char(s1[q]) || is_symbol_char(s1[q]) || s1[q] == '+' || s1[q] == '-',
    ensures
        symbol_end(s1, q) <= m ==> symbol_end(s2, q) == symbol_end(s1, q),
        digits_end(s1, q) <= m ==> digits_end(s2, q) == digits_end(s1, q),
        q + 1 <= m && digits_end(s1, q + 1) <= m ==> digits_end(s2, q + 1) == digits_end(
            s1,
            q + 1,
        ),
{
    lemma_symbol_end_bounds(s1, q);
    lemma_symbol_end_chars(s1, q);
    lemma_symbol_end_char(s1, q);
    lemma_digits_end_bounds(s1, q);
    lemma_digits_end_chars(s1, q);
    lemma_digits_end_char(s1, q);
    if symbol_end(s1, q) <= m {
        let e = symbol_end(s1, q);
        assert forall|i: int| q <= i < e implies is_symbol_char(#[trigger] s2[i]) by {
            assert(s1[i] == s2[i]);
        }
        if e < s2.len() {
            if e < m {
                assert(s2[e] == s1[e]);
                assert(e < s1.len());
            }
            assert(!is_symbol_char(s2[e]));
        }
        lemma_symbol_end_stop(s2, q, e);
    }
    if digits_end(s1, q) <= m {
        let e = digits_end(s1, q);
        assert forall|i: int| q <= i < e implies is_digit_char(#[trigger] s2[i]) by {
            assert(s1[i] == s2[i]);
        }
        if e < s2.len() {
            if e < m {
                assert(s2[e] == s1[e]);
                assert(e < s1.len());
            }
            assert(!is_digit_char(s2[e]));
        }
        lemma_digits_end_stop(s2, q, e);
    }
    if q + 1 <= m && digits_end(s1, q + 1) <= m {
        lemma_digits_end_bounds(s1, q + 1);
        lemma_digits_end_chars(s1, q + 1);
        lemma_digits_end_char(s1, q + 1);
        let e = digits_end(s1, q + 1);
        assert forall|i: int| q + 1 <= i < e implies is_digit_char(#[trigger] s2[i]) by {
            assert(s1[i] == s2[i]);
        }
        if e < s2.len() {
            if e < m {
                assert(s2[e] == s1[e]);
                assert(e < s1.len());
            }
            assert(!is_digit_char(s2[e]));
        }
        lemma_digits_end_stop(s2, q + 1, e);
    }
}

/// The Boolean literal checks read the same characters in both texts: they
/// match the same alternative, or none.
proof fn lemma_bool_token_end_agree(s1: Seq<char>, s2: Seq<char>, q: int, m: int)
    requires
        agree_below(s1, s2, m),
        0 <= q < m,
        s1[q] == '#',
        scan_token(s1, q).end <= m,
        m < s2.len() ==> is_whitespace_char(s2[m]) || s2[m] == ';',
    ensures
        bool_token_end(s2, q) == bool_token_end(s1, q),
{
    lemma_scan_token_bounds(s1, q);
    assert forall|k: int| 0 <= k < m implies s1[k] == #[trigger] s2[k] by {}
    if m < s2.len() {
        assert(s2[m] != 'a' && s2[m] != 'l' && s2[m] != 's' && s2[m] != 'e' && s2[m] != 'r'
            && s2[m] != 'u' && s2[m] != 't' && s2[m] != 'f');
    }
}

/// Two scan positions see the same text ahead: the characters from `p1` on
/// in `s1` are exactly the characters from `p2` on in `s2`.
pub open spec fn same_suffix(s1: Seq<char>, p1: int, s2: Seq<char>, p2: int) -> bool {
    &&& 0 <= p1 <= s1.len()
    &&& 0 <= p2 <= s2.len()
    &&& s1.len() - p1 == s2.len() - p2
    &&& forall|k: int| 0 <= k < s1.len() - p1 ==> s1[p1 + k] == #[trigger] s2[p2 + k]
}

/// Advancing both positions equally preserves the same-text-ahead relation.
pub proof fn lemma_same_suffix_advance(s1: Seq<char>, p1: int, s2: Seq<char>, p2: int, d: int)
    requires
        same_suffix(s1, p1, s2, p2),
        0 <= d <= s1.len() - p1,
    ensures
        same_suffix(s1, p1 + d, s2, p2 + d),
{
    assert forall|k: int|
        0 <= k < s1.len() - (p1 + d) implies s1[p1 + d + k] == #[trigger] s2[p2 + d + k] by {
        assert(s1[p1 + (d + k)] == s2[p2 + (d + k)]);
    }
}

/// Skipping trivia looks only at the text ahead.
pub proof fn lemma_skip_trivia_shift(s1: Seq<char>, p1: int, s2: Seq<char>, p2: int)
    requires
        same_suffix(s1, p1, s2, p2),
    ensures
        skip_trivia(s1, p1) - p1 == skip_trivia(s2, p2) - p2,
    decreases s1.len() - p1,
{
    if p1 < s1.len() {
        assert(s1[p1 + 0] == s2[p2 + 0]);
        lemma_same_suffix_advance(s1, p1, s2, p2, 1);
        if is_whitespace_char(s1[p1]) {
            lemma_skip_trivia_shift(s1, p1 + 1, s2, p2 + 1);
        } else if s1[p1] == ';' {
            lemma_skip_comment_shift(s1, p1 + 1, s2, p2 + 1);
        }
    }
}

/// Skipping a comment looks only at the text ahead.
pub proof fn lemma_skip_comment_shift(s1: Seq<char>, p1: int, s2: Seq<char>, p2: int)
    requires
        same_suffix(s1, p1, s2, p2),
    ensures
        skip_comment(s1, p1) - p1 == skip_comment(s2, p2) - p2,
    decreases s1.len() - p1,
{
    if p1 < s1.len() {
        assert(s1[p1 + 0] == s2[p2 + 0]);
        lemma_same_suffix_advance(s1, p1, s2, p2, 1);
        if s1[p1] == '\n' || s1[p1] == '\r' {
            lemma_skip_trivia_shift(s1, p1 + 1, s2, p2 + 1);
        } else {
            lemma_skip_comment_shift(s1, p1 + 1, s2, p2 + 1);
        }
    }
}

/// A digit run looks only at the text ahead.
pub proof fn lemma_digits_end_shift(s1: Seq<char>, p1: int, s2: Seq<char>, p2: int)
    requires
        same_suffix(s1, p1, s2, p2),
    ensures
        digits_end(s1, p1) - p1 == digits_end(s2, p2) - p2,
    decreases s1.len() - p1,
{
    if p1 < s1.len() {
        assert(s1[p1 + 0] == s2[p2 + 0]);
        if is_digit_char(s1[p1]) {
            lemma_same_suffix_advance(s1, p1, s2, p2, 1);
            lemma_digits_end_shift(s1, p1 + 1, s2, p2 + 1);
        }
    }
}

/// A symbol run looks only at the text ahead.
pub proof fn lemma_symbol_end_shift(s1: Seq<char>, p1: int, s2: Seq<char>, p2: int)
    requires
        same_suffix(s1, p1, s2, p2),
    ensures
        symbol_end(s1, p1) - p1 == symbol_end(s2, p2) - p2,
    decreases s1.len() - p1,
{
    if p1 < s1.len() {
        assert(s1[p1 + 0] == s2[p2 + 0]);
        if is_symbol_char(s1[p1]) {
            lemma_same_suffix_advance(s1, p1, s2, p2, 1);
            lemma_symbol_end_shift(s1, p1 + 1, s2, p2 + 1);
        }
    }
}

/// Scanning a string-literal body looks only at the text ahead.
pub proof fn lemma_string_body_end_shift(s1: Seq<char>, p1: int, s2: Seq<char>, p2: int)
    requires
        same_suffix(s1, p1, s2, p2),
    ensures
        match (string_body_end(s1, p1), string_body_end(s2, p2)) {
            (Some(e1), Some(e2)) => e1 - p1 == e2 - p2,
            (None, None) => true,
            _ => false,
        },
    decreases s1.len() - p1,
{
    if p1 < s1.len() {
        assert(s1[p1 + 0] == s2[p2 + 0]);
        if s1[p1] == '"' {
        } else if s1[p1] == '\\' {
            if p1 + 1 < s1.len() {
                assert(s1[p1 + 1] == s2[p2 + 1]);
                lemma_same_suffix_advance(s1, p1, s2, p2, 2);
                lemma_string_body_end_shift(s1, p1 + 2, s2, p2 + 2);
            }
        } else {
            lemma_same_suffix_advance(s1, p1, s2, p2, 1);
            lemma_string_body_end_shift(s1, p1 + 1, s2, p2 + 1);
        }
    }
}

/// Scanning a token looks only at the text ahead: the kind is the same and
/// the extent is the same relative to the scan position.
pub proof fn lemma_scan_token_shift(s1: Seq<char>, p1: int, s2: Seq<char>, p2: int)
    requires
        same_suffix(s1, p1, s2, p2),
        p1 < s1.len(),
    ensures
        scan_token(s1, p1).kind == scan_token(s2, p2).kind,
        scan_token(s1, p1).start == p1 && scan_token(s2, p2).start == p2,
        scan_token(s1, p1).end - p1 == scan_token(s2, p2).end - p2,
{
    assert(s1[p1 + 0] == s2[p2 + 0]);
    let c = s1[p1];
    if c == '"' {
        lemma_same_suffix_advance(s1, p1, s2, p2, 1);
        lemma_string_body_end_shift(s1, p1 + 1, s2, p2 + 1);
    } else if c == '#' {
        if p1 + 1 < s1.len() {
            assert(s1[p1 + 1] == s2[p2 + 1]);
        }
        if p1 + 2 < s1.len() {
            assert(s1[p1 + 2] == s2[p2 + 2]);
        }
        if p1 + 3 < s1.len() {
            assert(s1[p1 + 3] == s2[p2 + 3]);
        }
        if p1 + 4 < s1.len() {
            assert(s1[p1 + 4] == s2[p2 + 4]);
        }
        if p1 + 5 < s1.len() {
            assert(s1[p1 + 5] == s2[p2 + 5]);
        }
        assert(bool_token_end(s1, p1) matches Some(e1) ==> (bool_token_end(s2, p2) matches Some(
            e2,
        ) && e1 - p1 == e2 - p2));
        assert(bool_token_end(s2, p2) matches Some(e2) ==> (bool_token_end(s1, p1) matches Some(
            e1,
        ) && e1 - p1 == e2 - p2));
    } else if is_digit_char(c) {
        lemma_digits_end_shift(s1, p1, s2, p2);
        lemma_symbol_end_shift(s1, p1, s2, p2);
    } else if c == '+' || c == '-' {
        if p1 + 1 < s1.len() {
            assert(s1[p1 + 1] == s2[p2 + 1]);
            lemma_same_suffix_advance(s1, p1, s2, p2, 1);
            lemma_digits_end_shift(s1, p1 + 1, s2, p2 + 1);
        }
        lemma_symbol_end_shift(s1, p1, s2, p2);
    } else if is_symbol_char(c) {
        lemma_symbol_end_shift(s1, p1, s2, p2);
    }
}

/// The token stream looks only at the text ahead: from two positions with
/// the same text ahead, the same kinds and lexemes follow.
pub proof fn lemma_token_list_shift(s1: Seq<char>, p1: int, s2: Seq<char>, p2: int)
    requires
        same_suffix(s1, p1, s2, p2),
    ensures
        token_list(s1, p1) == token_list(s2, p2),
    decreases s1.len() - p1,
{
    lemma_skip_trivia_shift(s1, p1, s2, p2);
    lemma_skip_trivia_bounds(s1, p1);
    lemma_skip_trivia_bounds(s2, p2);
    let q1 = skip_trivia(s1, p1);
    let q2 = skip_trivia(s2, p2);
    if q1 < s1.len() {
        lemma_same_suffix_advance(s1, p1, s2, p2, q1 - p1);
        lemma_scan_token_shift(s1, q1, s2, q2);
        let t1 = scan_token(s1, q1);
        let t2 = scan_token(s2, q2);
        lemma_scan_token_bounds(s1, q1);
        lemma_scan_token_bounds(s2, q2);
        lemma_same_suffix_advance(s1, q1, s2, q2, t1.end - q1);
        lemma_token_list_shift(s1, t1.end, s2, t2.end);
        assert forall|k: int|
            0 <= k < t1.end - t1.start implies s1.subrange(t1.start, t1.end)[k] == s2.subrange(
            t2.start,
            t2.end,
        )[k] by {
            assert(s1[q1 + k] == s2[q2 + k]);
        }
        assert(s1.subrange(t1.start, t1.end) =~= s2.subrange(t2.start, t2.end));
        assert(token_list(s1, p1) =~= token_list(s2, p2));
    } else {
        assert(token_list(s1, p1) =~= token_list(s2, p2));
    }
}

/// The sequence of tokens of the input from `pos` on, each given as its
/// kind together with its lexeme.  Positions and trivia are abstracted
/// away: only what the parser consumes remains.
pub open spec fn token_list(s: Seq<char>, pos: int) -> Seq<(TokenKind, Seq<char>)>
    decreases s.len() - pos,
{
    match next_token(s, pos) {
        None => Seq::empty(),
        Some(t) => {
            if pos < t.end <= s.len() {
                seq![(t.kind, s.subrange(t.start, t.end))] + token_list(s, t.end)
            } else {
                arbitrary()
            }
        },
    }
}

/// The token delivered by [`next_token`] covers a non-empty character range
/// at or after the search position.
pub proof fn lemma_next_token_bounds(s: Seq<char>, pos: int)
    requires
        0 <= pos <= s.len(),
    ensures
        next_token(s, pos) matches Some(t) ==> pos <= t.start < t.end <= s.len(),
        next_token(s, pos) is None ==> skip_trivia(s, pos) == s.len(),
{
    lemma_skip_trivia_bounds(s, pos);
    let p = skip_trivia(s, pos);
    if p < s.len() {
        lemma_scan_token_bounds(s, p);
    }
}

/// A token produced by a [`Lexer`].
#[derive(Clone, Eq, PartialEq, Debug)]
pub struct Token {
    /// The lexical category of this token.
    pub kind: TokenKind,
    /// The lexeme that matched the pattern for this token.
    pub lexeme: String,
    /// The span of text in the source code that covers the lexeme.
    pub span: Span,
}

/// Relies on `String: FromIterator<char>`: collecting characters builds the
/// string of exactly those characters.
#[verifier::external_body]
fn chars_to_string(v: &Vec<char>) -> (r: String)
    ensures
        r@ == v@,
{
    v.iter().collect()
}

/// The lexical analyser for Luna source code.
///
/// This struct is, in essence, a representation of some source code as a
/// peekable iterator of [`Token`]s.
pub struct Lexer {
    /// The characters of the source code.
    chars: Vec<char>,
    /// `offs[i]` is the byte offset of character `i` in the source code;
    /// the final entry is the total byte length.
    offs: Vec<usize>,
    /// The index of the character at which the next token search begins.
    pos: usize,
}

impl Lexer {
    /// The character sequence being lexed.
    pub closed spec fn src(&self) -> Seq<char> {
        self.chars@
    }

    /// The current character position of the lexer.
    pub closed spec fn position(&self) -> int {
        self.pos as int
    }

    /// The lexer's internal tables are consistent with [`Lexer::src`].
    pub closed spec fn wf(&self) -> bool {
        &&& self.offs@.len() == self.chars@.len() + 1
        &&& forall|i: int|
            0 <= i <= self.chars@.len() ==> #[trigger] self.offs@[i] == byte_off(self.chars@, i)
        &&& self.pos <= self.chars@.len()
    }

    /// A well-formed lexer's position lies within its source.
    pub broadcast proof fn lemma_wf_position(&self)
        ensures
            #[trigger] self.wf() ==> 0 <= self.position() <= self.src().len(),
    {
    }

    /// Create a new lexer over a given input string.
    pub fn new(input: &str) -> (l: Lexer)
        ensures
            l.wf(),
            l.src() == input@,
            l.position() == 0,
    {
        let bytes: &[u8] = input.as_bytes();
        let total: usize = bytes.len();
        proof {
            lemma_byte_off_is_encoded_len(input@, input@.len() as int);
            assert(input@.take(input@.len() as int) =~= input@);
        }
        let n = input.unicode_len();
        let mut chars: Vec<char> = Vec::new();
        let mut offs: Vec<usize> = Vec::new();
        offs.push(0);
        let mut i: usize = 0;
        while i < n
            invariant
                n == input@.len(),
                total == byte_off(input@, n as int),
                i <= n,
                chars@ =~= input@.take(i as int),
                offs@.len() == i + 1,
                forall|j: int| 0 <= j <= i ==> #[trigger] offs@[j] == byte_off(input@, j),
            decreases n - i,
    {
            let c = input.get_char(i);
            chars.push(c);
            let w = char_width_exec(c);
            let prev = offs[i];
            proof {
                lemma_byte_off_mono(input@, i + 1, n as int);
            }
            offs.push(prev + w);
            i = i + 1;
        }
        proof {
            assert(chars@ =~= input@);
            assert(forall|j: int|
                0 <= j <= chars@.len() ==> byte_off(chars@, j) == byte_off(input@, j)) by {
                assert forall|j: int|
                    0 <= j <= chars@.len() implies byte_off(chars@, j) == byte_off(input@, j) by {
                    lemma_byte_off_same_prefix(chars@, input@, j);
                }
            }
        }
        Lexer { chars, offs, pos: 0 }
    }

    /// The end of the run of decimal digits beginning at `from`.
    fn run_digits(&self, from: usize) -> (r: usize)
        requires
            self.wf(),
            from <= self.src().len(),
        ensures
            r as int == digits_end(self.src(), from as int),
            from <= r <= self.src().len(),
    {
        let n = self.chars.len();
        let mut i = from;
        loop
            invariant
                self.wf(),
                from <= i <= n,
                n == self.src().len(),
                digits_end(self.src(), from as int) == digits_end(self.src(), i as int),
            decreases n - i,
        {
            if i >= n {
                return i;
            }
            if !digit_char(self.chars[i]) {
                return i;
            }
            i = i + 1;
        }
    }

    /// The end of the run of symbol characters beginning at `from`.
    fn run_symbol(&self, from: usize) -> (r: usize)
        requires
            self.wf(),
            from <= self.src().len(),
        ensures
            r as int == symbol_end(self.src(), from as int),
            from <= r <= self.src().len(),
    {
        let n = self.chars.len();
        let mut i = from;
        loop
            invariant
                self.wf(),
                from <= i <= n,
                n == self.src().len(),
                symbol_end(self.src(), from as int) == symbol_end(self.src(), i as int),
            decreases n - i,
        {
            if i >= n {
                return i;
            }
            if !symbol_char(self.chars[i]) {
                return i;
            }
            i = i + 1;
        }
    }

    /// Skip whitespace and comments: the position where the next token
    /// begins, or the end of the input.
    fn skip(&self) -> (r: usize)
        requires
            self.wf(),
        ensures
            r as int == skip_trivia(self.src(), self.position()),
            self.position() <= r <= self.src().len(),
    {
        let ghost src = self.src();
        let ghost start = self.position();
        let n = self.chars.len();
        let mut p = self.pos;
        loop
            invariant
                self.wf(),
                src == self.src(),
                start == self.position(),
                start <= p <= n,
                n == src.len(),
                skip_trivia(src, start) == skip_trivia(src, p as int),
            decreases n - p,
        {
            if p >= n {
                return p;
            }
            let c = self.chars[p];
            if whitespace_char(c) {
                p = p + 1;
            } else if c == ';' {
                p = p + 1;
                let ghost p_comment = p as int;
                loop
                    invariant
                        self.wf(),
                        src == self.src(),
                        start == self.position(),
                        start < p <= n,
                        p_comment <= p,
                        n == src.len(),
                        skip_trivia(src, start) == skip_comment(src, p as int),
                    ensures
                        start < p <= n,
                        p_comment < p + 1,
                        skip_trivia(src, start) == skip_trivia(src, p as int),
                    decreases n - p,
                {
                    if p >= n {
                        return p;
                    }
                    let c2 = self.chars[p];
                    if c2 == '\n' || c2 == '\r' {
                        // The line break is itself whitespace, so resuming the
                        // outer scan at it reaches the same position.
                        assert(skip_comment(src, p as int) == skip_trivia(src, p + 1));
                        assert(skip_trivia(src, p as int) == skip_trivia(src, p + 1));
                        break;
                    }
                    p = p + 1;
                }
            } else {
                return p;
            }
        }
    }

    /// Scan the body of a string literal whose opening quote sits just
    /// before `from`; the result is the position after the closing quote, or
    /// `None` when the literal is unterminated.
    fn scan_string_body(&self, from: usize) -> (r: Option<usize>)
        requires
            self.wf(),
            from <= self.src().len(),
        ensures
            match string_body_end(self.src(), from as int) {
                Some(e) => r == Some(e as usize),
                None => r is None,
            },
    {
        let n = self.chars.len();
        let mut i = from;
        loop
            invariant
                self.wf(),
                from <= i <= n,
                n == self.src().len(),
                string_body_end(self.src(), from as int) == string_body_end(
                    self.src(),
                    i as int,
                ),
            decreases n - i,
        {
            if i >= n {
                return None;
            }
            let c = self.chars[i];
            if c == '"' {
                proof {
                    lemma_string_body_end_bounds(self.src(), i as int);
                }
                return Some(i + 1);
            }
            if c == '\\' {
                if i + 1 >= n {
                    return None;
                }
                i = i + 2;
            } else {
                i = i + 1;
            }
        }
    }

    /// Scan the Boolean literal beginning at `at` (which holds a `#`), if
    /// one of `#false`, `#true`, `#t`, `#f` begins there.
    fn scan_bool(&self, at: usize) -> (r: Option<usize>)
        requires
            self.wf(),
            at < self.src().len(),
        ensures
            match bool_token_end(self.src(), at as int) {
                Some(e) => r == Some(e as usize),
                None => r is None,
            },
    {
        let n = self.chars.len();
        if n - at >= 6 && self.chars[at + 1] == 'f' && self.chars[at + 2] == 'a'
            && self.chars[at + 3] == 'l' && self.chars[at + 4] == 's' && self.chars[at + 5]
            == 'e' {
            Some(at + 6)
        } else if n - at >= 5 && self.chars[at + 1] == 't' && self.chars[at + 2] == 'r'
            && self.chars[at + 3] == 'u' && self.chars[at + 4] == 'e' {
            Some(at + 5)
        } else if n - at >= 2 && (self.chars[at + 1] == 't' || self.chars[at + 1] == 'f') {
            Some(at + 2)
        } else {
            None
        }
    }

    /// Find the kind and character extent of the next token, without
    /// consuming it.
    fn scan(&self) -> (r: Option<(TokenKind, usize, usize)>)
        requires
            self.wf(),
        ensures
            match next_token(self.src(), self.position()) {
                None => r is None,
                Some(t) => r == Some((t.kind, t.start as usize, t.end as usize)),
            },
    {
        let ghost src = self.src();
        let n = self.chars.len();
        let p = self.skip();
        if p >= n {
            return None;
        }
        let c = self.chars[p];
        if c == '(' {
            Some((TokenKind::LParen, p, p + 1))
        } else if c == ')' {
            Some((TokenKind::RParen, p, p + 1))
        } else if c == '[' {
            Some((TokenKind::LBracket, p, p + 1))
        } else if c == ']' {
            Some((TokenKind::RBracket, p, p + 1))
        } else if c == '{' {
            Some((TokenKind::LBrace, p, p + 1))
        } else if c == '}' {
            Some((TokenKind::RBrace, p, p + 1))
        } else if c == '"' {
            match self.scan_string_body(p + 1) {
                Some(e) => Some((TokenKind::String, p, e)),
                None => Some((TokenKind::Invalid, p, p + 1)),
            }
        } else if c == '#' {
            match self.scan_bool(p) {
                Some(e) => Some((TokenKind::Bool, p, e)),
                None => Some((TokenKind::Invalid, p, p + 1)),
            }
        } else if digit_char(c) {
            let ie = self.run_digits(p);
            let se = self.run_symbol(p);
            if se > ie {
                Some((TokenKind::Symbol, p, se))
            } else {
                Some((TokenKind::Int, p, ie))
            }
        } else if c == '+' || c == '-' {
            if p + 1 < n && digit_char(self.chars[p + 1]) {
                let ie = self.run_digits(p + 1);
                let se = self.run_symbol(p);
                if se > ie {
                    Some((TokenKind::Symbol, p, se))
                } else {
                    Some((TokenKind::Int, p, ie))
                }
            } else {
                let se = self.run_symbol(p);
                Some((TokenKind::Symbol, p, se))
            }
        } else if symbol_char(c) {
            let se = self.run_symbol(p);
            Some((TokenKind::Symbol, p, se))
        } else {
            Some((TokenKind::Invalid, p, p + 1))
        }
    }

    /// Build the [`Token`] for the character range `[a, b)` of kind `kind`.
    fn token_at(&self, kind: TokenKind, a: usize, b: usize) -> (r: Token)
        requires
            self.wf(),
            a <= b <= self.src().len(),
        ensures
            r.kind == kind,
            r.lexeme@ == self.src().subrange(a as int, b as int),
            r.span.start == byte_off(self.src(), a as int),
            r.span.end == byte_off(self.src(), b as int),
    {
        let mut v: Vec<char> = Vec::new();
        let mut i = a;
        while i < b
            invariant
                self.wf(),
                a <= i <= b <= self.src().len(),
                v@ =~= self.src().subrange(a as int, i as int),
            decreases b - i,
        {
            v.push(self.chars[i]);
            i = i + 1;
        }
        proof {
            assert(v@ =~= self.src().subrange(a as int, b as int));
        }
        let lexeme = chars_to_string(&v);
        let span = Span { start: self.offs[a], end: self.offs[b] };
        Token { kind, lexeme, span }
    }

    /// Return the next token without consuming it; repeated peeks return the
    /// same token until the lexer advances.
    pub fn peek(&self) -> (r: Option<Token>)
        requires
            self.wf(),
        ensures
            match next_token(self.src(), self.position()) {
                None => r is None,
                Some(t) => {
                    &&& r matches Some(tok)
                    &&& tok.kind == t.kind
                    &&& tok.lexeme@ == self.src().subrange(t.start, t.end)
                    &&& tok.span.start == byte_off(self.src(), t.start)
                    &&& tok.span.end == byte_off(self.src(), t.end)
                },
            },
    {
        proof {
            vstd::std_specs::vec::axiom_spec_len(&self.chars);
            lemma_next_token_bounds(self.src(), self.position());
        }
        match self.scan() {
            None => None,
            Some((kind, a, b)) => Some(self.token_at(kind, a, b)),
        }
    }

    /// Produce the next token and advance past it, or return `None` at the
    /// end of the input.
    pub fn next(&mut self) -> (r: Option<Token>)
        requires
            old(self).wf(),
        ensures
            final(self).wf(),
            final(self).src() == old(self).src(),
            match next_token(old(self).src(), old(self).position()) {
                None => r is None && final(self).position() == old(self).src().len(),
                Some(t) => {
                    &&& r matches Some(tok)
                    &&& tok.kind == t.kind
                    &&& tok.lexeme@ == old(self).src().subrange(t.start, t.end)
                    &&& tok.span.start == byte_off(old(self).src(), t.start)
                    &&& tok.span.end == byte_off(old(self).src(), t.end)
                    &&& final(self).position() == t.end
                },
            },
    {
        let n = self.chars.len();
        proof {
            lemma_next_token_bounds(self.src(), self.position());
        }
        match self.scan() {
            None => {
                self.pos = n;
                None
            },
            Some((kind, a, b)) => {
                let tok = self.token_at(kind, a, b);
                self.pos = b;
                Some(tok)
            },
        }
    }

    /// Move the lexer to a given character position.
    pub(crate) fn advance_to(&mut self, p: usize)
        requires
            old(self).wf(),
            p <= old(self).src().len(),
        ensures
            final(self).wf(),
            final(self).src() == old(self).src(),
            final(self).position() == p,
    {
        self.pos = p;
    }
}

/// [`byte_off`] only consults characters below the index.
proof fn lemma_byte_off_same_prefix(s1: Seq<char>, s2: Seq<char>, i: int)
    requires
        0 <= i <= s1.len(),
        i <= s2.len(),
        forall|j: int| 0 <= j < i ==> s1[j] == s2[j],
    ensures
        byte_off(s1, i) == byte_off(s2, i),
    decreases i,
{
    if i > 0 {
        lemma_byte_off_same_prefix(s1, s2, i - 1);
    }
}

} // verus!
