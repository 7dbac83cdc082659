//! The text syntax of monoid expressions.
//!
//! The monoid's symbol and juxtaposition denote the monoid operation, so an
//! additive monoid reads as `x + y` and a multiplicative one as `x * y`.
//! Chains flatten into one `Op`; parentheses nest. Prefix `-` exists only to
//! spell negative constants.
use vstd::prelude::*;
use crate::ast::{literal_text, Ast, AstView};
use crate::grammar::{as_infix, as_prefix, Assoc, Grammar, GrammarView};
use crate::monoid::{Monoid, MonoidExpr, MonoidTerm, TermOf};

use crate::parse_error::ParseError;
use crate::symbol::{chars_of, Symbol};
use crate::syntax::{FromAst, FromLiteral};
use crate::text::{framed, same_chars};

verus! {

/// What lowering a tree into an expression over `M` gives: the expression's
/// value, or the message of the error.
pub open spec fn lower_monoid<M: Monoid>(a: AstView) -> Result<TermOf<M>, Seq<char>> where
    M::Domain: FromLiteral,

    decreases a, 0int,
{
    match literal_text(a, "-"@) {
        Some(text) => match <M::Domain as FromLiteral>::spec_literal(text) {
            Ok(value) => Ok(MonoidTerm::Const(value)),
            Err(message) => Err(message),
        },
        None => match a {
            AstView::Ident(name) => Ok(MonoidTerm::Symbol(name)),
            AstView::Group(inner) => lower_monoid::<M>(*inner),
            AstView::Infix(op, lhs, rhs) => if op == M::spec_symbol() {
                match lower_monoid_chain::<M>(*lhs) {
                    Err(message) => Err(message),
                    Ok(left) => match lower_monoid_chain::<M>(*rhs) {
                        Err(message) => Err(message),
                        Ok(right) => Ok(MonoidTerm::Op(left + right)),
                    },
                }
            } else {
                Err("monoid expressions have no `"@ + op + "` operator"@)
            },
            AstView::Prefix(op, _) => Err("monoid expressions have no `"@ + op + "` operator"@),
            AstView::Postfix(op, _) => Err("monoid expressions have no `"@ + op + "` operator"@),
            AstView::Call(name, _) => Err("unknown function `"@ + name + "`"@),
            AstView::Number(_) => Err(Seq::empty()),
        },
    }
}

/// The operands of a chain of the monoid operation, lowered from left to
/// right; the first error ends it.
pub open spec fn lower_monoid_chain<M: Monoid>(a: AstView) -> Result<Seq<TermOf<M>>, Seq<char>> where
    M::Domain: FromLiteral,

    decreases a, 1int,
{
    match a {
        AstView::Infix(op, lhs, rhs) => if op == M::spec_symbol() {
            match lower_monoid_chain::<M>(*lhs) {
                Err(message) => Err(message),
                Ok(left) => match lower_monoid_chain::<M>(*rhs) {
                    Err(message) => Err(message),
                    Ok(right) => Ok(left + right),
                },
            }
        } else {
            match lower_monoid::<M>(a) {
                Ok(t) => Ok(seq![t]),
                Err(message) => Err(message),
            }
        },
        _ => match lower_monoid::<M>(a) {
            Ok(t) => Ok(seq![t]),
            Err(message) => Err(message),
        },
    }
}

/// The operators of monoid expressions over `M`.
pub open spec fn monoid_grammar<M: Monoid>() -> GrammarView {
    let empty = GrammarView { table: Map::empty(), juxtaposition: None };
    let symbol = M::spec_symbol();
    let with_op = empty.with(symbol, as_infix(empty.table, symbol, 1, Assoc::Left));
    let juxtaposed = GrammarView { juxtaposition: Some(symbol), ..with_op };
    juxtaposed.with("-"@, as_prefix(juxtaposed.table, "-"@, 3))
}

impl<M: Monoid> MonoidExpr<M> where M::Domain: FromLiteral {
    /// Lowers a tree into an expression.
    pub fn lower(ast: Ast) -> (r: Result<Self, ParseError>)
        ensures
            match lower_monoid::<M>(ast@) {
                Ok(t) => r matches Ok(e) && e@ == t,
                Err(message) => r matches Err(e) && e@ == (message, None::<usize>),
            },
        decreases ast, 0int,
    {
        let ghost view = ast@;
        match ast.literal("-") {
            Some(text) => {
                return match <M::Domain as FromLiteral>::from_literal(text.as_str()) {
                    Ok(value) => Ok(MonoidExpr::Const(value)),
                    Err(e) => Err(e),
                };
            },
            None => {},
        }
        match ast {
            Ast::Ident(name) => Ok(MonoidExpr::Symbol(Symbol::new(name.as_str()))),
            Ast::Group(inner) => Self::lower(*inner),
            Ast::Infix(op, lhs, rhs) => {
                let spelled = chars_of(op.as_str());
                let symbol = chars_of(M::symbol());
                if same_chars(&spelled, &symbol) {
                    let mut out: Vec<Self> = Vec::new();
                    proof {
                        assert(Self::terms(out@) == Seq::<TermOf<M>>::empty());
                    }
                    match Self::lower_chain(*lhs, &mut out) {
                        Ok(()) => {},
                        Err(e) => {
                            return Err(e);
                        },
                    }
                    match Self::lower_chain(*rhs, &mut out) {
                        Ok(()) => {},
                        Err(e) => {
                            return Err(e);
                        },
                    }
                    Ok(MonoidExpr::Op(out))
                } else {
                    let message = framed("monoid expressions have no `", &spelled, "` operator");
                    Err(ParseError::from_chars(&message))
                }
            },
            Ast::Prefix(op, _) => {
                let spelled = chars_of(op.as_str());
                let message = framed("monoid expressions have no `", &spelled, "` operator");
                Err(ParseError::from_chars(&message))
            },
            Ast::Postfix(op, _) => {
                let spelled = chars_of(op.as_str());
                let message = framed("monoid expressions have no `", &spelled, "` operator");
                Err(ParseError::from_chars(&message))
            },
            Ast::Call(name, _) => {
                let spelled = chars_of(name.as_str());
                let message = framed("unknown function `", &spelled, "`");
                Err(ParseError::from_chars(&message))
            },
            Ast::Number(_) => {
                proof {
                    assert(literal_text(view, "-"@) is Some);
                }
                Err(ParseError::new(""))
            },
        }
    }

    /// Lowers the operands of a chain of the monoid operation onto `out`.
    fn lower_chain(ast: Ast, out: &mut Vec<Self>) -> (r: Result<(), ParseError>)
        ensures
            match lower_monoid_chain::<M>(ast@) {
                Ok(ts) => r is Ok && Self::terms(final(out)@) == Self::terms(old(out)@) + ts,
                Err(message) => r matches Err(e) && e@ == (message, None::<usize>),
            },
        decreases ast, 1int,
    {
        let ghost view = ast@;
        let chained = match &ast {
            Ast::Infix(op, _, _) => {
                let spelled = chars_of(op.as_str());
                let symbol = chars_of(M::symbol());
                same_chars(&spelled, &symbol)
            },
            _ => false,
        };
        if chained {
            match ast {
                Ast::Infix(_, lhs, rhs) => {
                    let ghost start = Self::terms(out@);
                    match Self::lower_chain(*lhs, out) {
                        Ok(()) => {},
                        Err(e) => {
                            return Err(e);
                        },
                    }
                    let ghost middle = Self::terms(out@);
                    match Self::lower_chain(*rhs, out) {
                        Ok(()) => {},
                        Err(e) => {
                            return Err(e);
                        },
                    }
                    proof {
                        match lower_monoid_chain::<M>(view) {
                            Ok(ts) => {
                                assert(Self::terms(out@) == start + ts);
                            },
                            Err(_) => {},
                        }
                    }
                    Ok(())
                },
                _ => Ok(()),
            }
        } else {
            match Self::lower(ast) {
                Ok(e) => {
                    let ghost before = out@;
                    proof {
                        Self::lemma_terms_push(before, e);
                    }
                    out.push(e);
                    Ok(())
                },
                Err(e) => Err(e),
            }
        }
    }
}

impl<M: Monoid> FromAst for MonoidExpr<M> where M::Domain: FromLiteral {
    open spec fn spec_grammar() -> GrammarView {
        monoid_grammar::<M>()
    }

    open spec fn lowers_to(ast: AstView, r: Result<Self, ParseError>) -> bool {
        match lower_monoid::<M>(ast) {
            Ok(t) => r matches Ok(e) && e@ == t,
            Err(message) => r matches Err(e) && e@ == (message, None::<usize>),
        }
    }

    fn grammar() -> (g: Grammar) {
        let symbol = chars_of(M::symbol());
        let negation = chars_of("-");
        Grammar::new().with_infix(&symbol, 1, Assoc::Left).with_juxtaposition(&symbol).with_prefix(
            &negation,
            3,
        )
    }

    fn from_ast(ast: Ast) -> (r: Result<Self, ParseError>) {
        Self::lower(ast)
    }
}

} // verus!
