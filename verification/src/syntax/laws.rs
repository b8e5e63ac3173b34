//! General laws of the lexer and the parser, stated over the specification
//! functions that the executable functions are proved against.

use vstd::prelude::*;

use crate::syntax::lexer::{
    is_digit_char, is_int_lexeme, is_symbol_char, is_whitespace_char, lemma_digits_end_all,
    lemma_digits_end_stop, lemma_next_token_bounds, lemma_scan_token_agree,
    lemma_scan_token_bounds, lemma_skip_comment_shift, lemma_skip_trivia_agree,
    lemma_skip_trivia_bounds, lemma_skip_trivia_shift, lemma_string_body_embedded,
    lemma_symbol_end_all, lemma_symbol_end_stop, lemma_token_list_shift, next_token,
    same_suffix, scan_token, skip_comment, skip_trivia, string_body_end, token_list, SpecToken,
    TokenKind,
};
use crate::syntax::ErrorKind;
use crate::syntax::parser::{
    digit_value, digits_value, has_shebang, int_lexeme_value, lemma_after_line_bounds,
    lemma_sp_parse_list_advances, shebang_end, sp_parse_list, sp_parse_program, spec_atom,
    spec_parse, SpecError, SpecListParse, SpecSExpr,
};

verus! {

/// Stripping a shebang line is a no-op on text that has none.
pub proof fn lemma_strip_shebang_noop(s: Seq<char>)
    requires
        !has_shebang(s),
    ensures
        shebang_end(s) == 0,
        s.subrange(shebang_end(s), s.len() as int) == s,
{
    assert(s.subrange(0, s.len() as int) =~= s);
}

/// Stripping a shebang line twice is the same as stripping it once, for
/// every input whose first strip does not uncover a second shebang line.
pub proof fn lemma_strip_shebang_idempotent(s: Seq<char>)
    requires
        !has_shebang(s.subrange(shebang_end(s), s.len() as int)),
    ensures
        ({
            let once = s.subrange(shebang_end(s), s.len() as int);
            once.subrange(shebang_end(once), once.len() as int) == once
        }),
{
    let once = s.subrange(shebang_end(s), s.len() as int);
    lemma_strip_shebang_noop(once);
}

/// Integer round-trip: an input that is exactly an integer literal—an
/// optional sign followed by a run of decimal digits—parses to the single
/// integer atom whose value is the value of the literal, whenever that value
/// fits the machine integer type of the tree.
pub proof fn lemma_integer_round_trip(s: Seq<char>)
    requires
        is_int_lexeme(s),
        i32::MIN <= int_lexeme_value(s) <= i32::MAX,
    ensures
        spec_parse(s) == Result::<Seq<SpecSExpr>, SpecError>::Ok(
            seq![SpecSExpr::Int(int_lexeme_value(s))],
        ),
{
    let n = s.len() as int;
    assert(s.subrange(0, n) =~= s);
    assert(forall|i: int|
        0 <= i < n && is_digit_char(#[trigger] s[i]) ==> is_symbol_char(s[i]));
    if s[0] == '+' || s[0] == '-' {
        lemma_digits_end_all(s, 1);
        lemma_symbol_end_all(s, 1);
        assert(is_symbol_char(s[0]));
    } else {
        lemma_digits_end_all(s, 0);
        lemma_symbol_end_all(s, 0);
    }
    assert(sp_parse_program(s, n) == Result::<Seq<SpecSExpr>, SpecError>::Ok(
        Seq::<SpecSExpr>::empty(),
    ));
    assert(seq![SpecSExpr::Int(int_lexeme_value(s))] + Seq::<SpecSExpr>::empty()
        =~= seq![SpecSExpr::Int(int_lexeme_value(s))]);
}

/// Symbol acceptance: an input consisting solely of symbol-constituent
/// characters—one that does not begin with a digit, is not a sign followed
/// by a digit, and does not begin with a whitespace character—parses to a
/// single symbol atom holding exactly that text.
pub proof fn lemma_symbol_round_trip(s: Seq<char>)
    requires
        s.len() > 0,
        forall|i: int| 0 <= i < s.len() ==> is_symbol_char(#[trigger] s[i]),
        !is_whitespace_char(s[0]),
        !is_digit_char(s[0]),
        (s[0] == '+' || s[0] == '-') && s.len() > 1 ==> !is_digit_char(s[1]),
    ensures
        spec_parse(s) == Result::<Seq<SpecSExpr>, SpecError>::Ok(
            seq![SpecSExpr::Symbol(s)],
        ),
{
    let n = s.len() as int;
    assert(s.subrange(0, n) =~= s);
    lemma_symbol_end_all(s, 0);
    assert(sp_parse_program(s, n) == Result::<Seq<SpecSExpr>, SpecError>::Ok(
        Seq::<SpecSExpr>::empty(),
    ));
    assert(seq![SpecSExpr::Symbol(s)] + Seq::<SpecSExpr>::empty()
        =~= seq![SpecSExpr::Symbol(s)]);
}

/// The digit character denoting a value below ten.
pub open spec fn char_of_digit(d: int) -> char {
    if d == 0 {
        '0'
    } else if d == 1 {
        '1'
    } else if d == 2 {
        '2'
    } else if d == 3 {
        '3'
    } else if d == 4 {
        '4'
    } else if d == 5 {
        '5'
    } else if d == 6 {
        '6'
    } else if d == 7 {
        '7'
    } else if d == 8 {
        '8'
    } else {
        '9'
    }
}

/// The decimal digits of a non-negative integer, most significant first.
pub open spec fn digits_of(n: int) -> Seq<char>
    decreases n,
{
    if n < 10 {
        seq![char_of_digit(n)]
    } else {
        digits_of(n / 10).push(char_of_digit(n % 10))
    }
}

/// The decimal rendering of an integer.
pub open spec fn render_int(v: int) -> Seq<char> {
    if v < 0 {
        seq!['-'] + digits_of(-v)
    } else {
        digits_of(v)
    }
}

/// [`digits_of`] produces a non-empty digit run denoting its argument.
pub proof fn lemma_digits_of(n: int)
    requires
        0 <= n,
    ensures
        digits_of(n).len() >= 1,
        forall|i: int| 0 <= i < digits_of(n).len() ==> is_digit_char(#[trigger] digits_of(n)[i]),
        digits_value(digits_of(n)) == n,
    decreases n,
{
    if n < 10 {
        assert(seq![char_of_digit(n)].drop_last() =~= Seq::<char>::empty());
        assert(digit_value(char_of_digit(n)) == n);
        assert(is_digit_char(char_of_digit(n)));
        assert(digits_value(digits_of(n)) == digits_value(
            seq![char_of_digit(n)].drop_last(),
        ) * 10 + digit_value(seq![char_of_digit(n)].last()));
        assert(digits_value(digits_of(n)) == n);
    } else {
        lemma_digits_of(n / 10);
        vstd::arithmetic::div_mod::lemma_fundamental_div_mod(n, 10);
        assert(digits_of(n).drop_last() =~= digits_of(n / 10));
        assert(digits_of(n).last() == char_of_digit(n % 10));
        assert(digit_value(char_of_digit(n % 10)) == n % 10);
        assert(digits_value(digits_of(n)) == (n / 10) * 10 + n % 10);
        assert forall|i: int|
            0 <= i < digits_of(n).len() implies is_digit_char(#[trigger] digits_of(n)[i]) by {
            if i < digits_of(n).len() - 1 {
                assert(digits_of(n)[i] == digits_of(n / 10)[i]);
            } else {
                assert(digits_of(n)[i] == char_of_digit(n % 10));
                assert(is_digit_char(char_of_digit(n % 10)));
            }
        }
    }
}

/// The decimal rendering of an integer is an integer lexeme denoting it.
pub proof fn lemma_render_int(v: int)
    ensures
        is_int_lexeme(render_int(v)),
        int_lexeme_value(render_int(v)) == v,
{
    if v < 0 {
        lemma_digits_of(-v);
        assert(render_int(v).drop_first() =~= digits_of(-v));
        assert(render_int(v)[0] == '-');
        assert(forall|i: int|
            1 <= i < render_int(v).len() ==> is_digit_char(#[trigger] render_int(v)[i]));
    } else {
        lemma_digits_of(v);
        assert(render_int(v) =~= digits_of(v));
        assert(!(render_int(v)[0] == '+' || render_int(v)[0] == '-'));
    }
}

/// Well-formed symbol text: non-empty, made of symbol characters, and not
/// mistakable for another kind of token.
pub open spec fn wf_symbol_text(l: Seq<char>) -> bool {
    &&& l.len() > 0
    &&& forall|i: int| 0 <= i < l.len() ==> is_symbol_char(#[trigger] l[i])
    &&& !is_whitespace_char(l[0])
    &&& !is_digit_char(l[0])
    &&& !((l[0] == '+' || l[0] == '-') && l.len() > 1 && is_digit_char(l[1]))
}

/// Well-formed string-literal text: delimited by quotes, with a valid
/// escape structure in between.
pub open spec fn wf_string_text(l: Seq<char>) -> bool {
    &&& l.len() >= 2
    &&& l[0] == '"'
    &&& string_body_end(l, 1) == Some(l.len() as int)
}

/// A well-formed tree: one whose every atom denotes a valid lexeme of its
/// kind.
pub open spec fn wf_datum(e: SpecSExpr) -> bool
    decreases e,
{
    match e {
        SpecSExpr::Symbol(l) => wf_symbol_text(l),
        SpecSExpr::String(l) => wf_string_text(l),
        SpecSExpr::Int(v) => i32::MIN <= v <= i32::MAX,
        SpecSExpr::Bool(_) => true,
        SpecSExpr::List(items) => wf_data(items),
    }
}

/// Every tree of a sequence is well-formed.
pub open spec fn wf_data(items: Seq<SpecSExpr>) -> bool
    decreases items,
{
    if items.len() == 0 {
        true
    } else {
        wf_datum(items[0]) && wf_data(items.drop_first())
    }
}

/// The canonical rendering of a tree as source text, each list written with
/// parentheses.
pub open spec fn render_datum(e: SpecSExpr) -> Seq<char>
    decreases e,
{
    match e {
        SpecSExpr::Symbol(l) => l,
        SpecSExpr::String(l) => l,
        SpecSExpr::Int(v) => render_int(v),
        SpecSExpr::Bool(b) => if b {
            seq!['#', 't']
        } else {
            seq!['#', 'f']
        },
        SpecSExpr::List(items) => seq!['('] + render_items(items) + seq![')'],
    }
}

/// The canonical rendering of a sequence of trees, each datum followed by a
/// single space.
pub open spec fn render_items(items: Seq<SpecSExpr>) -> Seq<char>
    decreases items,
{
    if items.len() == 0 {
        Seq::empty()
    } else {
        render_datum(items[0]) + seq![' '] + render_items(items.drop_first())
    }
}

/// A rendered tree is non-empty and begins with a character that neither
/// whitespace skipping nor comment skipping consumes.
pub proof fn lemma_render_head(e: SpecSExpr)
    requires
        wf_datum(e),
    ensures
        render_datum(e).len() > 0,
        !is_whitespace_char(render_datum(e)[0]),
        render_datum(e)[0] != ';',
    decreases e,
{
    match e {
        SpecSExpr::Symbol(l) => {
            assert(is_symbol_char(l[0]));
        },
        SpecSExpr::String(_) => {},
        SpecSExpr::Int(v) => {
            if v < 0 {
            } else {
                lemma_digits_of(v);
                assert(is_digit_char(render_int(v)[0]));
            }
        },
        SpecSExpr::Bool(_) => {},
        SpecSExpr::List(_) => {},
    }
}

/// Whether a tree is an atom.
pub open spec fn is_atom(e: SpecSExpr) -> bool {
    !(e is List)
}

/// The kind of the token that begins the rendering of a tree.
pub open spec fn token_kind_of(e: SpecSExpr) -> TokenKind {
    match e {
        SpecSExpr::Symbol(_) => TokenKind::Symbol,
        SpecSExpr::String(_) => TokenKind::String,
        SpecSExpr::Int(_) => TokenKind::Int,
        SpecSExpr::Bool(_) => TokenKind::Bool,
        SpecSExpr::List(_) => TokenKind::LParen,
    }
}

/// The length of the first token of a rendered tree: the whole rendering
/// for an atom, the opening bracket for a list.
pub open spec fn datum_token_len(e: SpecSExpr) -> int {
    if e is List {
        1
    } else {
        render_datum(e).len() as int
    }
}

/// Scanning a rendered tree embedded in a larger text, before a space or a
/// closing parenthesis, finds exactly the tree's first token; for an atom
/// that token denotes the tree itself, and for a list the bracketed items
/// parse back to the list's items.
pub proof fn lemma_render_datum_scans(s: Seq<char>, b: int, e: SpecSExpr)
    requires
        wf_datum(e),
        0 <= b,
        b + render_datum(e).len() < s.len(),
        s.subrange(b, b + render_datum(e).len() as int) == render_datum(e),
        s[b + render_datum(e).len()] == ' ' || s[b + render_datum(e).len()] == ')',
    ensures
        skip_trivia(s, b) == b,
        next_token(s, b) == Some(
            SpecToken { kind: token_kind_of(e), start: b, end: b + datum_token_len(e) },
        ),
        is_atom(e) ==> spec_atom(token_kind_of(e), s.subrange(b, b + datum_token_len(e)))
            == Some(e),
        forall|op: int|
            e matches SpecSExpr::List(items) ==> #[trigger] sp_parse_list(
                s,
                b + 1,
                TokenKind::LParen,
                op,
            ) == (SpecListParse::Parsed { items, pos: b + render_datum(e).len() }),
    decreases e,
{
    let rd = render_datum(e);
    let n = rd.len() as int;
    let stop = s[b + n];
    assert forall|i: int| 0 <= i < n implies s[b + i] == rd[i] by {
        assert(rd[i] == s.subrange(b, b + n)[i]);
    }
    lemma_render_head(e);
    assert(s[b] == rd[0]);
    assert(skip_trivia(s, b) == b);
    match e {
        SpecSExpr::Symbol(l) => {
            assert(!is_symbol_char(stop));
            assert forall|i: int| b <= i < b + n implies is_symbol_char(#[trigger] s[i]) by {
                assert(s[i] == rd[i - b]);
            }
            lemma_symbol_end_stop(s, b, b + n);
            if l[0] == '+' || l[0] == '-' {
                assert(!is_digit_char(s[b + 1]));
            }
            assert(scan_token(s, b) == SpecToken { kind: TokenKind::Symbol, start: b, end: b + n });
            assert(s.subrange(b, b + n) =~= l);
        },
        SpecSExpr::String(l) => {
            lemma_string_body_embedded(l, s, b, 1);
            assert(scan_token(s, b) == SpecToken { kind: TokenKind::String, start: b, end: b + n });
            assert(s.subrange(b, b + n) =~= l);
        },
        SpecSExpr::Int(v) => {
            lemma_render_int(v);
            assert(!is_digit_char(stop));
            assert(!is_symbol_char(stop));
            assert forall|i: int| b <= i < b + n implies is_symbol_char(#[trigger] s[i]) by {
                assert(s[i] == rd[i - b]);
                if v < 0 {
                    lemma_digits_of(-v);
                    if i > b {
                        assert(rd[i - b] == digits_of(-v)[i - b - 1]);
                        assert(is_digit_char(rd[i - b]));
                    } else {
                        assert(rd[0] == '-');
                    }
                } else {
                    lemma_digits_of(v);
                    assert(rd[i - b] == digits_of(v)[i - b]);
                    assert(is_digit_char(rd[i - b]));
                }
            }
            lemma_symbol_end_stop(s, b, b + n);
            if v < 0 {
                lemma_digits_of(-v);
                assert(s[b] == '-');
                assert forall|i: int| b + 1 <= i < b + n implies is_digit_char(#[trigger] s[i]) by {
                    assert(s[i] == rd[i - b]);
                    assert(rd[i - b] == digits_of(-v)[i - b - 1]);
                }
                lemma_digits_end_stop(s, b + 1, b + n);
                assert(is_digit_char(s[b + 1]));
            } else {
                lemma_digits_of(v);
                assert forall|i: int| b <= i < b + n implies is_digit_char(#[trigger] s[i]) by {
                    assert(s[i] == rd[i - b]);
                    assert(rd[i - b] == digits_of(v)[i - b]);
                }
                lemma_digits_end_stop(s, b, b + n);
            }
            assert(scan_token(s, b) == SpecToken { kind: TokenKind::Int, start: b, end: b + n });
            assert(s.subrange(b, b + n) =~= render_int(v));
        },
        SpecSExpr::Bool(bv) => {
            assert(n == 2);
            assert(s[b] == '#');
            assert(s[b + 1] == rd[1]);
            assert(stop != 'a' && stop != 'r');
            assert(scan_token(s, b) == SpecToken { kind: TokenKind::Bool, start: b, end: b + 2 });
            assert(s.subrange(b, b + 2) =~= rd);
            assert(s.subrange(b, b + 2)[1] == rd[1]);
        },
        SpecSExpr::List(items) => {
            let ri = render_items(items);
            assert(rd == seq!['('] + ri + seq![')']);
            assert(s[b] == '(');
            assert(scan_token(s, b) == SpecToken { kind: TokenKind::LParen, start: b, end: b + 1 });
            assert(rd.len() == 1 + ri.len() + 1);
            assert forall|j: int| 0 <= j < ri.len() implies s.subrange(
                b + 1,
                b + 1 + ri.len() as int,
            )[j] == ri[j] by {
                assert(s.subrange(b + 1, b + 1 + ri.len() as int)[j] == s[b + 1 + j]);
                assert(s[b + (1 + j)] == rd[1 + j]);
                assert(rd[1 + j] == ri[j]);
            }
            assert(s.subrange(b + 1, b + 1 + ri.len() as int) =~= ri);
            assert(rd[n - 1] == ')');
            assert(s[b + (n - 1)] == rd[n - 1]);
            assert(b + 1 + ri.len() == b + (n - 1));
            assert(s[b + 1 + ri.len()] == ')');
            assert forall|op: int| #[trigger] sp_parse_list(s, b + 1, TokenKind::LParen, op)
                == (SpecListParse::Parsed { items, pos: b + n }) by {
                if items.len() == 0 {
                    assert(skip_trivia(s, b + 1) == b + 1);
                } else {
                    assert(wf_datum(items[0]));
                    lemma_render_head(items[0]);
                    assert(ri[0] == render_datum(items[0])[0]);
                    assert(s[b + 1] == ri[0]);
                    assert(skip_trivia(s, b + 1) == b + 1);
                }
                lemma_render_items_in_list(s, b + 1, b + 1, items, op);
            }
        },
    }
}

/// Rendered items followed by a closing parenthesis parse back, inside a
/// parenthesised list, to exactly those items.
pub proof fn lemma_render_items_in_list(s: Seq<char>, q: int, b: int, items: Seq<SpecSExpr>, op: int)
    requires
        wf_data(items),
        0 <= q <= s.len(),
        0 <= b,
        b + render_items(items).len() < s.len(),
        s.subrange(b, b + render_items(items).len() as int) == render_items(items),
        s[b + render_items(items).len()] == ')',
        skip_trivia(s, q) == b,
    ensures
        sp_parse_list(s, q, TokenKind::LParen, op) == (SpecListParse::Parsed {
            items,
            pos: b + render_items(items).len() + 1,
        }),
    decreases items,
{
    lemma_skip_trivia_bounds(s, q);
    let ri = render_items(items);
    if items.len() == 0 {
        assert(s[b] == ')');
        assert(scan_token(s, b) == SpecToken { kind: TokenKind::RParen, start: b, end: b + 1 });
        assert(items =~= Seq::<SpecSExpr>::empty());
    } else {
        let h = items[0];
        let rest = items.drop_first();
        let rd = render_datum(h);
        let rr = render_items(rest);
        assert(ri == rd + seq![' '] + rr);
        assert(ri.len() == rd.len() + 1 + rr.len());
        assert forall|i: int| 0 <= i < ri.len() implies s[b + i] == ri[i] by {
            assert(ri[i] == s.subrange(b, b + ri.len() as int)[i]);
        }
        assert(wf_datum(h));
        assert forall|j: int| 0 <= j < rd.len() implies s.subrange(
            b,
            b + rd.len() as int,
        )[j] == rd[j] by {
            assert(s.subrange(b, b + rd.len() as int)[j] == s[b + j]);
            assert(s[b + j] == ri[j]);
            assert(ri[j] == rd[j]);
        }
        assert(s.subrange(b, b + rd.len() as int) =~= rd);
        assert(ri[rd.len() as int] == ' ');
        assert(s[b + rd.len()] == ri[rd.len() as int]);
        lemma_render_datum_scans(s, b, h);
        let b2 = b + rd.len() + 1;
        assert(b2 + rr.len() == b + ri.len());
        assert(s[b + ri.len()] == ')');
        if rest.len() == 0 {
            assert(b2 == b + ri.len());
            assert(s[b2] == ')');
        } else {
            assert(wf_data(rest));
            assert(wf_datum(rest[0]));
            lemma_render_head(rest[0]);
            assert(rr[0] == render_datum(rest[0])[0]);
            assert(s[b + (b2 - b)] == ri[b2 - b]);
            assert((rd + seq![' '] + rr)[b2 - b] == rr[b2 - b - (rd.len() + 1)]);
            assert(ri[b2 - b] == rr[0]);
        }
        assert(skip_trivia(s, b2) == b2);
        assert(skip_trivia(s, b + rd.len() as int) == b2);
        assert forall|j: int| 0 <= j < rr.len() implies s.subrange(
            b2,
            b2 + rr.len() as int,
        )[j] == rr[j] by {
            assert(s.subrange(b2, b2 + rr.len() as int)[j] == s[b2 + j]);
            assert(s[b + (b2 - b + j)] == ri[b2 - b + j]);
            assert((rd + seq![' '] + rr)[b2 - b + j] == rr[b2 - b + j - (rd.len() + 1)]);
            assert(ri[b2 - b + j] == rr[j]);
        }
        assert(s.subrange(b2, b2 + rr.len() as int) =~= rr);
        assert(s[b2 + rr.len()] == ')');
        assert(wf_data(rest));
        lemma_render_items_in_list(s, b + rd.len() as int, b2, rest, op);
        assert(seq![h] + rest =~= items);
        match h {
            SpecSExpr::List(hitems) => {
                assert(sp_parse_list(s, b + 1, TokenKind::LParen, b) == (SpecListParse::Parsed {
                    items: hitems,
                    pos: b + rd.len(),
                }));
                assert(sp_parse_list(s, q, TokenKind::LParen, op) == (SpecListParse::Parsed {
                    items,
                    pos: b + ri.len() + 1,
                }));
            },
            _ => {
                assert(sp_parse_list(s, q, TokenKind::LParen, op) == (SpecListParse::Parsed {
                    items,
                    pos: b + ri.len() + 1,
                }));
            },
        }
    }
}

/// Rendered items that reach the end of the input parse back, at top level,
/// to exactly those items.
pub proof fn lemma_render_items_at_top(s: Seq<char>, q: int, b: int, items: Seq<SpecSExpr>)
    requires
        wf_data(items),
        0 <= q <= s.len(),
        0 <= b,
        b + render_items(items).len() == s.len(),
        s.subrange(b, b + render_items(items).len() as int) == render_items(items),
        skip_trivia(s, q) == b,
    ensures
        sp_parse_program(s, q) == Result::<Seq<SpecSExpr>, SpecError>::Ok(items),
    decreases items,
{
    lemma_skip_trivia_bounds(s, q);
    let ri = render_items(items);
    if items.len() == 0 {
        assert(items =~= Seq::<SpecSExpr>::empty());
    } else {
        let h = items[0];
        let rest = items.drop_first();
        let rd = render_datum(h);
        let rr = render_items(rest);
        assert(ri == rd + seq![' '] + rr);
        assert(ri.len() == rd.len() + 1 + rr.len());
        assert forall|i: int| 0 <= i < ri.len() implies s[b + i] == ri[i] by {
            assert(ri[i] == s.subrange(b, b + ri.len() as int)[i]);
        }
        assert(wf_datum(h));
        assert forall|j: int| 0 <= j < rd.len() implies s.subrange(
            b,
            b + rd.len() as int,
        )[j] == rd[j] by {
            assert(s.subrange(b, b + rd.len() as int)[j] == s[b + j]);
            assert(s[b + j] == ri[j]);
            assert(ri[j] == rd[j]);
        }
        assert(s.subrange(b, b + rd.len() as int) =~= rd);
        assert(ri[rd.len() as int] == ' ');
        assert(s[b + rd.len()] == ri[rd.len() as int]);
        lemma_render_datum_scans(s, b, h);
        let b2 = b + rd.len() + 1;
        assert(b2 + rr.len() == b + ri.len());
        if rest.len() == 0 {
            assert(b2 == s.len());
            assert(skip_trivia(s, b2) == b2);
        } else {
            assert(wf_data(rest));
            assert(wf_datum(rest[0]));
            lemma_render_head(rest[0]);
            assert(rr[0] == render_datum(rest[0])[0]);
            assert(s[b + (b2 - b)] == ri[b2 - b]);
            assert((rd + seq![' '] + rr)[b2 - b] == rr[b2 - b - (rd.len() + 1)]);
            assert(ri[b2 - b] == rr[0]);
            assert(skip_trivia(s, b2) == b2);
        }
        assert(skip_trivia(s, b + rd.len() as int) == b2);
        assert forall|j: int| 0 <= j < rr.len() implies s.subrange(
            b2,
            b2 + rr.len() as int,
        )[j] == rr[j] by {
            assert(s.subrange(b2, b2 + rr.len() as int)[j] == s[b2 + j]);
            assert(s[b + (b2 - b + j)] == ri[b2 - b + j]);
            assert((rd + seq![' '] + rr)[b2 - b + j] == rr[b2 - b + j - (rd.len() + 1)]);
            assert(ri[b2 - b + j] == rr[j]);
        }
        assert(s.subrange(b2, b2 + rr.len() as int) =~= rr);
        assert(wf_data(rest));
        lemma_render_items_at_top(s, b + rd.len() as int, b2, rest);
        assert(seq![h] + rest =~= items);
    }
}

/// A canonical rendering never begins with a shebang line.
proof fn lemma_render_no_shebang(prog: Seq<SpecSExpr>)
    requires
        wf_data(prog),
    ensures
        shebang_end(render_items(prog)) == 0,
{
    let s = render_items(prog);
    if prog.len() > 0 {
        let h = prog[0];
        let rd = render_datum(h);
        assert(wf_datum(h));
        lemma_render_head(h);
        assert forall|i: int| 0 <= i < rd.len() implies s[i] == rd[i] by {
            assert(s[i] == (rd + seq![' '] + render_items(prog.drop_first()))[i]);
        }
        if has_shebang(s) {
            // The renderings that begin with `#` are the Boolean literals,
            // whose second character is never `!`.
            assert(s[0] == rd[0]);
            assert(s[0] == '#');
            match h {
                SpecSExpr::Symbol(l) => {
                    assert(is_symbol_char(l[0]));
                    assert(false);
                },
                SpecSExpr::String(_) => {
                    assert(false);
                },
                SpecSExpr::Int(v) => {
                    lemma_render_int(v);
                    assert(false);
                },
                SpecSExpr::Bool(_) => {
                    assert(rd.len() == 2);
                    assert(s[1] == rd[1]);
                    assert(false);
                },
                SpecSExpr::List(_) => {
                    assert(false);
                },
            }
        }
    }
}

/// Balanced round trip: the canonical rendering of any well-formed tree
/// sequence—lists bracketed, data separated by spaces—parses back to
/// exactly that sequence, mirroring its nesting depth and order.
pub proof fn lemma_balanced_round_trip(prog: Seq<SpecSExpr>)
    requires
        wf_data(prog),
    ensures
        spec_parse(render_items(prog)) == Result::<Seq<SpecSExpr>, SpecError>::Ok(prog),
{
    let s = render_items(prog);
    lemma_render_no_shebang(prog);
    if prog.len() == 0 {
        assert(s =~= Seq::<char>::empty());
        assert(prog =~= Seq::<SpecSExpr>::empty());
    } else {
        let h = prog[0];
        let rd = render_datum(h);
        assert(wf_datum(h));
        lemma_render_head(h);
        assert forall|i: int| 0 <= i < rd.len() implies s[i] == rd[i] by {
            assert(s[i] == (rd + seq![' '] + render_items(prog.drop_first()))[i]);
        }
        assert(s[0] == rd[0]);
        assert(skip_trivia(s, 0) == 0);
        assert(s.subrange(0, s.len() as int) =~= s);
        lemma_render_items_at_top(s, 0, 0, prog);
    }
}

/// Balanced inputs parse to mirroring trees: any input that carries the
/// same tokens as the canonical rendering of a well-formed tree
/// sequence—whatever whitespace and comments lie between them—parses to
/// exactly that sequence, its nesting depth and order mirrored.
pub proof fn lemma_balanced_input_parses(s: Seq<char>, prog: Seq<SpecSExpr>)
    requires
        wf_data(prog),
        token_list(s, shebang_end(s)) == token_list(render_items(prog), 0),
    ensures
        spec_parse(s) == Result::<Seq<SpecSExpr>, SpecError>::Ok(prog),
{
    lemma_balanced_round_trip(prog);
    lemma_render_no_shebang(prog);
    lemma_same_tokens_same_parse(s, render_items(prog));
}

/// Inside a list with a given opener, two inputs carrying the same tokens
/// from the given positions parse to the same items and keep carrying the
/// same tokens, or fail with errors of the same kind.
proof fn lemma_token_list_determines_list(
    s1: Seq<char>,
    p1: int,
    s2: Seq<char>,
    p2: int,
    opener: TokenKind,
    o1: int,
    o2: int,
)
    requires
        0 <= p1 <= s1.len(),
        0 <= p2 <= s2.len(),
        token_list(s1, p1) == token_list(s2, p2),
    ensures
        match (sp_parse_list(s1, p1, opener, o1), sp_parse_list(s2, p2, opener, o2)) {
            (
                SpecListParse::Parsed { items: a, pos: q1 },
                SpecListParse::Parsed { items: b, pos: q2 },
            ) => a == b && 0 <= q1 <= s1.len() && 0 <= q2 <= s2.len() && token_list(s1, q1)
                == token_list(s2, q2),
            (SpecListParse::Failed(e1), SpecListParse::Failed(e2)) => e1.kind == e2.kind,
            _ => false,
        },
    decreases s1.len() - p1,
{
    lemma_next_token_bounds(s1, p1);
    lemma_next_token_bounds(s2, p2);
    match (next_token(s1, p1), next_token(s2, p2)) {
        (None, None) => {},
        (Some(t1), Some(t2)) => {
            let lex1 = s1.subrange(t1.start, t1.end);
            let lex2 = s2.subrange(t2.start, t2.end);
            let rest1 = token_list(s1, t1.end);
            let rest2 = token_list(s2, t2.end);
            assert(token_list(s1, p1) == seq![(t1.kind, lex1)] + rest1);
            assert(token_list(s2, p2) == seq![(t2.kind, lex2)] + rest2);
            assert((seq![(t1.kind, lex1)] + rest1)[0] == (t1.kind, lex1));
            assert((seq![(t2.kind, lex2)] + rest2)[0] == (t2.kind, lex2));
            assert(t1.kind == t2.kind && lex1 == lex2);
            assert(rest1.len() == rest2.len());
            assert forall|j: int| 0 <= j < rest1.len() implies rest1[j] == rest2[j] by {
                assert((seq![(t1.kind, lex1)] + rest1)[j + 1] == rest1[j]);
                assert((seq![(t2.kind, lex2)] + rest2)[j + 1] == rest2[j]);
            }
            assert(rest1 =~= rest2);
            if t1.kind == TokenKind::Invalid {
            } else if t1.kind.is_closer() {
            } else if t1.kind.is_opener() {
                lemma_token_list_determines_list(s1, t1.end, s2, t2.end, t1.kind, t1.start, t2.start);
                match (
                    sp_parse_list(s1, t1.end, t1.kind, t1.start),
                    sp_parse_list(s2, t2.end, t2.kind, t2.start),
                ) {
                    (
                        SpecListParse::Parsed { items: a1, pos: q1 },
                        SpecListParse::Parsed { items: a2, pos: q2 },
                    ) => {
                        lemma_sp_parse_list_advances(s1, t1.end, t1.kind, t1.start);
                        lemma_sp_parse_list_advances(s2, t2.end, t2.kind, t2.start);
                        lemma_token_list_determines_list(s1, q1, s2, q2, opener, o1, o2);
                    },
                    (SpecListParse::Failed(_), SpecListParse::Failed(_)) => {},
                    _ => {
                        assert(false);
                    },
                }
            } else {
                assert(spec_atom(t1.kind, lex1) == spec_atom(t2.kind, lex2));
                match spec_atom(t1.kind, lex1) {
                    None => {},
                    Some(_) => {
                        lemma_token_list_determines_list(s1, t1.end, s2, t2.end, opener, o1, o2);
                    },
                }
            }
        },
        (None, Some(t2)) => {
            assert(token_list(s2, p2).len() >= 1);
            assert(false);
        },
        (Some(t1), None) => {
            assert(token_list(s1, p1).len() >= 1);
            assert(false);
        },
    }
}

/// At top level, two inputs carrying the same tokens from the given
/// positions parse to the same trees, or fail with errors of the same kind.
proof fn lemma_token_list_determines_program(s1: Seq<char>, p1: int, s2: Seq<char>, p2: int)
    requires
        0 <= p1 <= s1.len(),
        0 <= p2 <= s2.len(),
        token_list(s1, p1) == token_list(s2, p2),
    ensures
        match (sp_parse_program(s1, p1), sp_parse_program(s2, p2)) {
            (Ok(a), Ok(b)) => a == b,
            (Err(e1), Err(e2)) => e1.kind == e2.kind,
            _ => false,
        },
    decreases s1.len() - p1,
{
    lemma_next_token_bounds(s1, p1);
    lemma_next_token_bounds(s2, p2);
    match (next_token(s1, p1), next_token(s2, p2)) {
        (None, None) => {},
        (Some(t1), Some(t2)) => {
            let lex1 = s1.subrange(t1.start, t1.end);
            let lex2 = s2.subrange(t2.start, t2.end);
            let rest1 = token_list(s1, t1.end);
            let rest2 = token_list(s2, t2.end);
            assert(token_list(s1, p1) == seq![(t1.kind, lex1)] + rest1);
            assert(token_list(s2, p2) == seq![(t2.kind, lex2)] + rest2);
            assert((seq![(t1.kind, lex1)] + rest1)[0] == (t1.kind, lex1));
            assert((seq![(t2.kind, lex2)] + rest2)[0] == (t2.kind, lex2));
            assert(t1.kind == t2.kind && lex1 == lex2);
            assert(rest1.len() == rest2.len());
            assert forall|j: int| 0 <= j < rest1.len() implies rest1[j] == rest2[j] by {
                assert((seq![(t1.kind, lex1)] + rest1)[j + 1] == rest1[j]);
                assert((seq![(t2.kind, lex2)] + rest2)[j + 1] == rest2[j]);
            }
            assert(rest1 =~= rest2);
            if t1.kind == TokenKind::Invalid {
            } else if t1.kind.is_closer() {
            } else if t1.kind.is_opener() {
                lemma_token_list_determines_list(s1, t1.end, s2, t2.end, t1.kind, t1.start, t2.start);
                match (
                    sp_parse_list(s1, t1.end, t1.kind, t1.start),
                    sp_parse_list(s2, t2.end, t2.kind, t2.start),
                ) {
                    (
                        SpecListParse::Parsed { items: a1, pos: q1 },
                        SpecListParse::Parsed { items: a2, pos: q2 },
                    ) => {
                        lemma_sp_parse_list_advances(s1, t1.end, t1.kind, t1.start);
                        lemma_sp_parse_list_advances(s2, t2.end, t2.kind, t2.start);
                        lemma_token_list_determines_program(s1, q1, s2, q2);
                    },
                    (SpecListParse::Failed(_), SpecListParse::Failed(_)) => {},
                    _ => {
                        assert(false);
                    },
                }
            } else {
                assert(spec_atom(t1.kind, lex1) == spec_atom(t2.kind, lex2));
                match spec_atom(t1.kind, lex1) {
                    None => {},
                    Some(_) => {
                        lemma_token_list_determines_program(s1, t1.end, s2, t2.end);
                    },
                }
            }
        },
        (None, Some(t2)) => {
            assert(token_list(s2, p2).len() >= 1);
            assert(false);
        },
        (Some(t1), None) => {
            assert(token_list(s1, p1).len() >= 1);
            assert(false);
        },
    }
}

/// Whitespace and comment invisibility: two inputs that carry the same
/// tokens—the same kinds with the same lexemes, wherever they sit—parse to
/// equal trees, or fail with errors of the same kind.  Inserting runs of
/// whitespace or line comments between tokens leaves the token list
/// unchanged, so it never changes the parsed tree; only the spans move.
pub proof fn lemma_same_tokens_same_parse(s1: Seq<char>, s2: Seq<char>)
    requires
        token_list(s1, shebang_end(s1)) == token_list(s2, shebang_end(s2)),
    ensures
        match (spec_parse(s1), spec_parse(s2)) {
            (Ok(a), Ok(b)) => a == b,
            (Err(e1), Err(e2)) => e1.kind == e2.kind,
            _ => false,
        },
{
    lemma_shebang_end_bounds(s1);
    lemma_shebang_end_bounds(s2);
    lemma_token_list_determines_program(s1, shebang_end(s1), s2, shebang_end(s2));
}

/// The shebang boundary lies within the input.
pub proof fn lemma_shebang_end_bounds(s: Seq<char>)
    ensures
        0 <= shebang_end(s) <= s.len(),
{
    if has_shebang(s) {
        lemma_after_line_bounds(s, 2);
    }
}

/// A run of trivia: whitespace characters and line comments, each comment
/// closed by a line break inside the run.
pub open spec fn is_trivia_run(w: Seq<char>) -> bool
    decreases w.len(), 0int,
{
    ||| w.len() == 0
    ||| (is_whitespace_char(w[0]) && is_trivia_run(w.drop_first()))
    ||| (w[0] == ';' && is_comment_rest(w.drop_first()))
}

/// The remainder of a line comment inside a trivia run: characters up to a
/// line break at which the run resumes.
pub open spec fn is_comment_rest(w: Seq<char>) -> bool
    decreases w.len(), 1int,
{
    &&& w.len() > 0
    &&& if w[0] == '\n' || w[0] == '\r' {
        is_trivia_run(w)
    } else {
        is_comment_rest(w.drop_first())
    }
}

/// Trivia runs concatenate into trivia runs: inserting several runs in
/// sequence at one gap is the same as inserting one.
pub proof fn lemma_trivia_run_concat(w1: Seq<char>, w2: Seq<char>)
    requires
        is_trivia_run(w1),
        is_trivia_run(w2),
    ensures
        is_trivia_run(w1 + w2),
    decreases w1.len(), 0int,
{
    if w1.len() == 0 {
        assert(w1 + w2 =~= w2);
    } else {
        assert((w1 + w2)[0] == w1[0]);
        assert((w1 + w2).drop_first() =~= w1.drop_first() + w2);
        if is_whitespace_char(w1[0]) {
            lemma_trivia_run_concat(w1.drop_first(), w2);
        } else {
            lemma_comment_rest_concat(w1.drop_first(), w2);
        }
    }
}

/// The remainder of a comment followed by a further trivia run is still the
/// remainder of a comment within a run.
proof fn lemma_comment_rest_concat(w1: Seq<char>, w2: Seq<char>)
    requires
        is_comment_rest(w1),
        is_trivia_run(w2),
    ensures
        is_comment_rest(w1 + w2),
    decreases w1.len(), 1int,
{
    assert((w1 + w2)[0] == w1[0]);
    assert((w1 + w2).drop_first() =~= w1.drop_first() + w2);
    if w1[0] == '\n' || w1[0] == '\r' {
        lemma_trivia_run_concat(w1, w2);
    } else {
        lemma_comment_rest_concat(w1.drop_first(), w2);
    }
}

/// A trivia run prepended to any text is wholly skipped.
proof fn lemma_trivia_run_skip(w: Seq<char>, s: Seq<char>)
    requires
        is_trivia_run(w),
    ensures
        skip_trivia(w + s, 0) == w.len() + skip_trivia(s, 0),
    decreases w.len(), 0int,
{
    if w.len() == 0 {
        assert(w + s =~= s);
        lemma_skip_trivia_shift(w + s, 0, s, 0);
    } else {
        assert((w + s)[0] == w[0]);
        assert(w.drop_first() + s =~= (w + s).skip(1));
        assert(same_suffix(w + s, 1, w.drop_first() + s, 0)) by {
            assert(forall|k: int|
                0 <= k < (w + s).len() - 1 ==> (w + s)[1 + k] == #[trigger] (w.drop_first()
                    + s)[0 + k]);
        }
        if is_whitespace_char(w[0]) {
            lemma_skip_trivia_shift(w + s, 1, w.drop_first() + s, 0);
            lemma_trivia_run_skip(w.drop_first(), s);
        } else {
            lemma_skip_comment_shift(w + s, 1, w.drop_first() + s, 0);
            lemma_comment_rest_skip(w.drop_first(), s);
        }
    }
}

/// The remainder of a comment prepended to any text is wholly skipped.
proof fn lemma_comment_rest_skip(w: Seq<char>, s: Seq<char>)
    requires
        is_comment_rest(w),
    ensures
        skip_comment(w + s, 0) == w.len() + skip_trivia(s, 0),
    decreases w.len(), 1int,
{
    assert((w + s)[0] == w[0]);
    assert(w.drop_first() + s =~= (w + s).skip(1));
    assert(same_suffix(w + s, 1, w.drop_first() + s, 0)) by {
        assert(forall|k: int|
            0 <= k < (w + s).len() - 1 ==> (w + s)[1 + k] == #[trigger] (w.drop_first() + s)[0
                + k]);
    }
    if w[0] == '\n' || w[0] == '\r' {
        // The line break is itself whitespace, and the rest of the run
        // follows it.
        assert(is_trivia_run(w));
        assert(is_whitespace_char(w[0]));
        assert(is_trivia_run(w.drop_first()));
        lemma_skip_trivia_shift(w + s, 1, w.drop_first() + s, 0);
        lemma_trivia_run_skip(w.drop_first(), s);
    } else {
        lemma_skip_comment_shift(w + s, 1, w.drop_first() + s, 0);
        lemma_comment_rest_skip(w.drop_first(), s);
    }
}

/// Leading trivia is invisible to the token stream: prepending a run of
/// whitespace and line comments to an input leaves its tokens—kinds and
/// lexemes—unchanged.
pub proof fn lemma_leading_trivia_tokens(w: Seq<char>, s: Seq<char>)
    requires
        is_trivia_run(w),
    ensures
        token_list(w + s, 0) == token_list(s, 0),
{
    lemma_trivia_run_skip(w, s);
    lemma_skip_trivia_bounds(s, 0);
    assert(same_suffix(w + s, w.len() as int, s, 0)) by {
        assert(forall|k: int|
            0 <= k < s.len() ==> (w + s)[w.len() + k] == #[trigger] s[0 + k]);
    }
    lemma_skip_trivia_shift(w + s, w.len() as int, s, 0);
    lemma_token_list_shift(w + s, w.len() as int, s, 0);
    // The scans from the start and from the end of the run meet at the same
    // position, so they find the same tokens.
    assert(skip_trivia(w + s, 0) == skip_trivia(w + s, w.len() as int));
    lemma_skip_trivia_bounds(w + s, 0);
    let q = skip_trivia(w + s, 0);
    if q < (w + s).len() {
        lemma_scan_token_bounds(w + s, q);
        assert(token_list(w + s, 0) == token_list(w + s, w.len() as int));
    } else {
        assert(token_list(w + s, 0) == token_list(w + s, w.len() as int));
    }
}

/// Leading trivia is invisible to the parser: an input without a shebang
/// line parses to the same tree, or fails with the same kind of error, after
/// any run of whitespace and line comments is put in front of it.
pub proof fn lemma_leading_trivia_invisible(w: Seq<char>, s: Seq<char>)
    requires
        is_trivia_run(w),
        !has_shebang(s),
    ensures
        match (spec_parse(w + s), spec_parse(s)) {
            (Ok(a), Ok(b)) => a == b,
            (Err(e1), Err(e2)) => e1.kind == e2.kind,
            _ => false,
        },
{
    if w.len() == 0 {
        assert(w + s =~= s);
    }
    assert(!has_shebang(w + s)) by {
        if w.len() > 0 && has_shebang(w + s) {
            assert((w + s)[0] == w[0]);
            assert(!is_comment_rest(Seq::<char>::empty()));
        }
    }
    lemma_leading_trivia_tokens(w, s);
    lemma_same_tokens_same_parse(w + s, s);
}

/// `p` is a gap of the input scanned from `q`: it is `q` itself, or the end
/// of a token found on the way, with no unterminated string literal before
/// it (such a literal would capture text inserted after it).
pub open spec fn gap_at(s: Seq<char>, q: int, p: int) -> bool
    decreases s.len() - q,
{
    ||| q == p
    ||| (match next_token(s, q) {
        None => false,
        Some(t) => q < t.end <= s.len() && !(t.kind == TokenKind::Invalid && s[t.start] == '"')
            && t.end <= p && gap_at(s, t.end, p),
    })
}

/// Inserting a trivia run at a gap leaves every token found from any
/// position before the gap unchanged.
proof fn lemma_insert_trivia_from(s: Seq<char>, p: int, w: Seq<char>, q: int)
    requires
        is_trivia_run(w),
        0 <= q <= p <= s.len(),
        gap_at(s, q, p),
    ensures
        token_list(s.take(p) + w + s.skip(p), q) == token_list(s, q),
    decreases s.len() - q,
{
    let s2 = s.take(p) + w + s.skip(p);
    assert(s2.len() == s.len() + w.len());
    assert forall|k: int| 0 <= k < p implies s[k] == #[trigger] s2[k] by {
        assert(s2[k] == s.take(p)[k]);
    }
    if w.len() == 0 {
        assert(s2 =~= s);
    } else if q == p {
        // The run sits at the scan position itself and is skipped whole.
        assert(s2.skip(p) =~= w + s.skip(p));
        lemma_token_list_shift(s2, p, w + s.skip(p), 0);
        lemma_leading_trivia_tokens(w, s.skip(p));
        assert(s.skip(p) =~= s.skip(p));
        lemma_token_list_shift(s, p, s.skip(p), 0);
    } else {
        lemma_next_token_bounds(s, q);
        let t = next_token(s, q).unwrap();
        lemma_skip_trivia_bounds(s, q);
        assert(skip_trivia(s, q) == t.start);
        // The skip and the scan stay below the gap and behave alike in both
        // texts.
        lemma_skip_trivia_agree(s, s2, q, p);
        assert(w[0] == s2[p]) by {
            assert(s2[p] == (w + s.skip(p))[0]);
        }
        assert(is_whitespace_char(s2[p]) || s2[p] == ';') by {
            assert(!is_comment_rest(Seq::<char>::empty()));
        }
        lemma_scan_token_agree(s, s2, t.start, p);
        assert(next_token(s2, q) == Some(t));
        lemma_insert_trivia_from(s, p, w, t.end);
        assert(s2.subrange(t.start, t.end) =~= s.subrange(t.start, t.end)) by {
            assert(forall|k: int|
                0 <= k < t.end - t.start ==> s2.subrange(t.start, t.end)[k] == s2[t.start + k]
                    && #[trigger] s.subrange(t.start, t.end)[k] == s[t.start + k]);
        }
        assert(token_list(s2, q) =~= token_list(s, q));
    }
}

/// Whitespace and comment invisibility, lexically: inserting a run of
/// whitespace and line comments at a gap between tokens leaves the token
/// stream unchanged.
pub proof fn lemma_insert_trivia_tokens(s: Seq<char>, p: int, w: Seq<char>)
    requires
        is_trivia_run(w),
        0 <= p <= s.len(),
        gap_at(s, 0, p),
    ensures
        token_list(s.take(p) + w + s.skip(p), 0) == token_list(s, 0),
{
    lemma_insert_trivia_from(s, p, w, 0);
}

/// Whitespace and comment invisibility: inserting a run of whitespace and
/// line comments at a gap between tokens of an input without a shebang line
/// never changes the parsed tree—only the spans move—and failing inputs keep
/// failing with the same kind of error.
pub proof fn lemma_insert_trivia_invisible(s: Seq<char>, p: int, w: Seq<char>)
    requires
        is_trivia_run(w),
        0 <= p <= s.len(),
        gap_at(s, 0, p),
        !has_shebang(s),
    ensures
        match (spec_parse(s.take(p) + w + s.skip(p)), spec_parse(s)) {
            (Ok(a), Ok(b)) => a == b,
            (Err(e1), Err(e2)) => e1.kind == e2.kind,
            _ => false,
        },
{
    let s2 = s.take(p) + w + s.skip(p);
    assert(!has_shebang(s2)) by {
        if w.len() == 0 {
            assert(s2 =~= s);
        } else if has_shebang(s2) {
            assert(!is_comment_rest(Seq::<char>::empty()));
            if p == 0 {
                assert(s2[0] == (w + s.skip(0))[0]);
                assert(s2[0] == w[0]);
            } else if p == 1 {
                assert(s2[0] == s.take(1)[0]);
                assert(s2[1] == (w + s.skip(1))[0]);
                assert(s2[1] == w[0]);
            } else {
                assert(s2[0] == s.take(p)[0] && s2[1] == s.take(p)[1]);
            }
        }
    }
    lemma_insert_trivia_tokens(s, p, w);
    lemma_same_tokens_same_parse(s2, s);
}

/// The range `[a, b)` is the extent of some token of the input: slicing the
/// input by it yields exactly that token's lexeme.
pub open spec fn spans_a_token(s: Seq<char>, a: int, b: int) -> bool {
    exists|p: int|
        0 <= p <= s.len() && ((#[trigger] next_token(s, p)) matches Some(t) && t.start == a
            && t.end == b)
}

/// A token of kind `k` begins at position `a` of the input.
pub open spec fn token_starts_at(s: Seq<char>, a: int, k: TokenKind) -> bool {
    exists|p: int|
        0 <= p <= s.len() && ((#[trigger] next_token(s, p)) matches Some(t) && t.start == a
            && t.kind == k)
}

/// Some token of the input ends at position `x`.
pub open spec fn ends_a_token(s: Seq<char>, x: int) -> bool {
    exists|p: int|
        0 <= p <= s.len() && ((#[trigger] next_token(s, p)) matches Some(t) && t.end == x)
}

/// What an error's character range designates, by kind: for a lexical or
/// unexpected token the offending token's own extent; for either bracket
/// error the extent of the still-open list, from its opening bracket's
/// start to the end of the last token taken into it.
pub open spec fn error_span_ok(s: Seq<char>, se: SpecError) -> bool {
    match se.kind {
        ErrorKind::InvalidToken => spans_a_token(s, se.start, se.end),
        ErrorKind::UnexpectedToken { found } => spans_a_token(s, se.start, se.end)
            && token_starts_at(s, se.start, found),
        ErrorKind::UnexpectedBracket { expected, found } => token_starts_at(
            s,
            se.start,
            expected.opener_of(),
        ) && ends_a_token(s, se.end),
        ErrorKind::UnmatchedBracket { expected } => token_starts_at(
            s,
            se.start,
            expected.opener_of(),
        ) && ends_a_token(s, se.end),
    }
}

/// Errors raised inside a list have spans on token boundaries.
proof fn lemma_list_error_spans(s: Seq<char>, pos: int, opener: TokenKind, op_start: int)
    requires
        0 <= op_start < pos <= s.len(),
        opener.is_opener(),
        token_starts_at(s, op_start, opener),
        ends_a_token(s, pos),
    ensures
        sp_parse_list(s, pos, opener, op_start) matches SpecListParse::Failed(se) ==> 0 <= se.start
            <= se.end <= s.len() && error_span_ok(s, se),
    decreases s.len() - pos,
{
    lemma_next_token_bounds(s, pos);
    assert(opener.closer_of().opener_of() == opener);
    match next_token(s, pos) {
        None => {},
        Some(t) => {
            if t.kind == TokenKind::Invalid {
                assert(spans_a_token(s, t.start, t.end));
            } else if t.kind.is_closer() {
                // A mismatched closer reports the span ending at `pos`, the
                // end of the last consumed token, which the premises give.
            } else if t.kind.is_opener() {
                assert(token_starts_at(s, t.start, t.kind));
                assert(ends_a_token(s, t.end));
                lemma_list_error_spans(s, t.end, t.kind, t.start);
                match sp_parse_list(s, t.end, t.kind, t.start) {
                    SpecListParse::Parsed { items: _, pos: p2 } => {
                        lemma_sp_parse_list_advances(s, t.end, t.kind, t.start);
                        lemma_sp_parse_list_ends_token(s, t.end, t.kind, t.start);
                        lemma_list_error_spans(s, p2, opener, op_start);
                    },
                    SpecListParse::Failed(_) => {},
                }
            } else {
                match spec_atom(t.kind, s.subrange(t.start, t.end)) {
                    None => {
                        assert(spans_a_token(s, t.start, t.end));
                    },
                    Some(_) => {
                        assert(ends_a_token(s, t.end));
                        lemma_list_error_spans(s, t.end, opener, op_start);
                    },
                }
            }
        },
    }
}

/// The position after a successfully parsed list is the end of its closing
/// bracket token.
proof fn lemma_sp_parse_list_ends_token(s: Seq<char>, pos: int, opener: TokenKind, op_start: int)
    requires
        0 <= pos <= s.len(),
    ensures
        sp_parse_list(s, pos, opener, op_start) matches SpecListParse::Parsed { items: _, pos: p }
            ==> ends_a_token(s, p),
    decreases s.len() - pos,
{
    lemma_next_token_bounds(s, pos);
    match next_token(s, pos) {
        None => {},
        Some(t) => {
            if t.kind == TokenKind::Invalid {
            } else if t.kind.is_closer() {
                assert(ends_a_token(s, t.end));
            } else if t.kind.is_opener() {
                match sp_parse_list(s, t.end, t.kind, t.start) {
                    SpecListParse::Parsed { items: _, pos: p2 } => {
                        lemma_sp_parse_list_advances(s, t.end, t.kind, t.start);
                        lemma_sp_parse_list_ends_token(s, p2, opener, op_start);
                    },
                    SpecListParse::Failed(_) => {},
                }
            } else {
                match spec_atom(t.kind, s.subrange(t.start, t.end)) {
                    None => {},
                    Some(_) => {
                        lemma_sp_parse_list_ends_token(s, t.end, opener, op_start);
                    },
                }
            }
        },
    }
}

/// Errors raised at top level have spans on token boundaries.
proof fn lemma_program_error_spans(s: Seq<char>, pos: int)
    requires
        0 <= pos <= s.len(),
    ensures
        sp_parse_program(s, pos) matches Err(se) ==> 0 <= se.start <= se.end <= s.len()
            && error_span_ok(s, se),
    decreases s.len() - pos,
{
    lemma_next_token_bounds(s, pos);
    match next_token(s, pos) {
        None => {},
        Some(t) => {
            if t.kind == TokenKind::Invalid {
                assert(spans_a_token(s, t.start, t.end));
            } else if t.kind.is_closer() {
                assert(spans_a_token(s, t.start, t.end));
                assert(token_starts_at(s, t.start, t.kind));
            } else if t.kind.is_opener() {
                assert(token_starts_at(s, t.start, t.kind));
                assert(ends_a_token(s, t.end));
                lemma_list_error_spans(s, t.end, t.kind, t.start);
                match sp_parse_list(s, t.end, t.kind, t.start) {
                    SpecListParse::Parsed { items: _, pos: p2 } => {
                        lemma_sp_parse_list_advances(s, t.end, t.kind, t.start);
                        lemma_program_error_spans(s, p2);
                    },
                    SpecListParse::Failed(_) => {},
                }
            } else {
                match spec_atom(t.kind, s.subrange(t.start, t.end)) {
                    None => {
                        assert(spans_a_token(s, t.start, t.end));
                    },
                    Some(_) => {
                        lemma_program_error_spans(s, t.end);
                    },
                }
            }
        },
    }
}

/// Span correctness: every error reports a character range on token
/// boundaries of the input—the offending token's own extent for a lexical
/// or unexpected token, and the extent of the still-open list, from its
/// opening bracket onward, for a bracket error.  Slicing the input by the
/// range therefore yields the offending lexeme, or the open list's text.
pub proof fn lemma_error_spans_correct(s: Seq<char>)
    ensures
        spec_parse(s) matches Err(se) ==> 0 <= se.start <= se.end <= s.len() && error_span_ok(
            s,
            se,
        ),
{
    lemma_shebang_end_bounds(s);
    lemma_program_error_spans(s, shebang_end(s));
}

} // verus!
