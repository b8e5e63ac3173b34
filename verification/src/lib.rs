//! Lexing and parsing of Luna source code.
//!
//! Luna is a small Scheme-like surface syntax.  The library turns a source
//! string into a tree of symbolic expressions ([`syntax::SExpr`]), or into a
//! structured error ([`syntax::Error`]) that carries a byte-accurate span
//! into the input together with the kind of the failure.

pub mod syntax;
