//! Reading typed expression trees from text.
//!
//! Parsing is split in two so that the grammar is written once and each
//! expression type only decides what it can represent: the text is parsed
//! into an untyped [`Ast`] with the type's [`Grammar`], and [`FromAst`]
//! lowers that into the expression tree, rejecting the syntax the type has
//! no node for.
use vstd::prelude::*;
use crate::ast::{Ast, AstView};
use crate::grammar::{Grammar, GrammarView};
use crate::integer::{bigint_from_decimal, Z};
use crate::parse_error::ParseError;
use crate::parser::parse_text;
use crate::symbol::chars_of;
use crate::text::{framed, push_text};

verus! {

/// Lowers an untyped [`Ast`] into a typed expression tree.
///
/// Implementations are structural: every syntax node maps to one tree node,
/// and syntax the type cannot represent is an error rather than being
/// rewritten into something else.
pub trait FromAst: Sized {
    /// The operators the type's text is read with.
    spec fn spec_grammar() -> GrammarView;

    /// Whether `r` is what lowering `ast` gives.
    spec fn lowers_to(ast: AstView, r: Result<Self, ParseError>) -> bool;

    /// The operators the type's text is read with.
    fn grammar() -> (g: Grammar)
        ensures
            g@ == Self::spec_grammar(),
    ;

    /// Lowers `ast`.
    fn from_ast(ast: Ast) -> (r: Result<Self, ParseError>)
        ensures
            Self::lowers_to(ast@, r),
    ;
}

/// Parses `src` with `T`'s grammar and lowers it into `T`.
pub fn parse<T: FromAst>(src: &str) -> (r: Result<T, ParseError>)
    ensures
        match parse_text(T::spec_grammar(), src@) {
            Ok(ast) => T::lowers_to(ast, r),
            Err((message, at)) => r matches Err(e) && e@ == (message, Some(at as usize)),
        },
{
    let grammar = T::grammar();
    match grammar.parse(src) {
        Ok(ast) => T::from_ast(ast),
        Err(e) => Err(e),
    }
}

/// A domain element readable from a numeric literal such as `3`, `-3` or
/// `2.5`.
pub trait FromLiteral: View + Sized {
    /// The value `text` denotes, or the message for why it denotes none.
    spec fn spec_literal(text: Seq<char>) -> Result<Self::V, Seq<char>>;

    /// Reads the literal `text`.
    fn from_literal(text: &str) -> (r: Result<Self, ParseError>)
        ensures
            match Self::spec_literal(text@) {
                Ok(value) => r matches Ok(x) && x@ == value,
                Err(message) => r matches Err(e) && e@ == (message, None::<usize>),
            },
    ;
}

/// An integer literal is read as `num_bigint::BigInt` reads it.
impl FromLiteral for Z {
    open spec fn spec_literal(text: Seq<char>) -> Result<int, Seq<char>> {
        match bigint_from_decimal(text) {
            Ok(value) => Ok(value),
            Err(description) => Err("invalid constant `"@ + text + "`: "@ + description),
        }
    }

    fn from_literal(text: &str) -> (r: Result<Z, ParseError>) {
        match Z::parse_decimal(text) {
            Ok(z) => Ok(z),
            Err(description) => {
                let chars = chars_of(text);
                let mut message = framed("invalid constant `", &chars, "`: ");
                push_text(&mut message, description.as_str());
                Err(ParseError::from_chars(&message))
            },
        }
    }
}

} // verus!
