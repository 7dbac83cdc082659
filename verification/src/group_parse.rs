//! The text syntax of group expressions.
//!
//! `+`, `*` and juxtaposition denote the group operation; `-` and `/` invert
//! their right operand, prefix `-` and `inv(x)` invert, and `x^n` takes any
//! integer literal exponent. `x^-1` stays a power, distinct from `inv(x)`.
use vstd::prelude::*;
use crate::ast::{integer_value, literal_text, render, Ast, AstView};
use crate::grammar::{as_infix, as_prefix, Assoc, Grammar, GrammarView};
use crate::group::{GTerm, Group, GroupExpr, GroupTerm};
use crate::parse_error::ParseError;
use crate::symbol::{chars_of, Symbol};
use crate::syntax::{FromAst, FromLiteral};
use crate::text::{framed, text_is};

verus! {

/// The role of an operator in a chain of the group operation: `+` and `*`
/// continue it, `-` and `/` continue it inverting their right operand.
pub open spec fn group_role(op: Seq<char>) -> Option<bool> {
    if op == "+"@ || op == "*"@ {
        Some(false)
    } else if op == "-"@ || op == "/"@ {
        Some(true)
    } else {
        None
    }
}

/// `t`, inverted when `inverted`.
pub open spec fn inverted_if<V>(t: GroupTerm<V>, inverted: bool) -> GroupTerm<V> {
    if inverted {
        GroupTerm::Inv(Box::new(t))
    } else {
        t
    }
}

/// What lowering a tree into an expression over `G` gives: the expression's
/// value, or the message of the error.
pub open spec fn lower_group<G: Group>(a: AstView) -> Result<GTerm<G>, Seq<char>> where
    G::Domain: FromLiteral,

    decreases a, 0int,
{
    match literal_text(a, "-"@) {
        Some(text) => match <G::Domain as FromLiteral>::spec_literal(text) {
            Ok(value) => Ok(GroupTerm::Const(value)),
            Err(message) => Err(message),
        },
        None => match a {
            AstView::Ident(name) => Ok(GroupTerm::Symbol(name)),
            AstView::Group(inner) => lower_group::<G>(*inner),
            AstView::Prefix(_, inner) => match lower_group::<G>(*inner) {
                Ok(t) => Ok(GroupTerm::Inv(Box::new(t))),
                Err(message) => Err(message),
            },
            AstView::Infix(op, lhs, rhs) => if op == "^"@ {
                match integer_value(*rhs, "-"@) {
                    None => Err("exponent must be an integer literal, found `"@ + render(*rhs) + "`"@),
                    Some(n) => match lower_group::<G>(*lhs) {
                        Ok(base) => Ok(GroupTerm::Pow(Box::new(base), n as int)),
                        Err(message) => Err(message),
                    },
                }
            } else {
                match group_role(op) {
                    Some(inverse) => match lower_group_chain::<G>(*lhs, false) {
                        Err(message) => Err(message),
                        Ok(left) => match lower_group_chain::<G>(*rhs, inverse) {
                            Err(message) => Err(message),
                            Ok(right) => Ok(GroupTerm::Op(left + right)),
                        },
                    },
                    None => Err("group expressions have no `"@ + op + "` operator"@),
                }
            },
            AstView::Postfix(op, _) => Err("group expressions have no `"@ + op + "` operator"@),
            AstView::Call(name, args) => if name == "inv"@ && args.len() == 1 {
                match lower_group::<G>(args[0]) {
                    Ok(t) => Ok(GroupTerm::Inv(Box::new(t))),
                    Err(message) => Err(message),
                }
            } else {
                Err("unknown function `"@ + name + "`"@)
            },
            AstView::Number(_) => Err(Seq::empty()),
        },
    }
}

/// The operands of a chain of the group operation, lowered from left to
/// right, each inverted where an odd number of inverting operators stand
/// before it; the first error ends it.
pub open spec fn lower_group_chain<G: Group>(a: AstView, inverted: bool) -> Result<
    Seq<GTerm<G>>,
    Seq<char>,
> where G::Domain: FromLiteral
    decreases a, 1int,
{
    match a {
        AstView::Infix(op, lhs, rhs) => match group_role(op) {
            Some(inverse) => match lower_group_chain::<G>(*lhs, inverted) {
                Err(message) => Err(message),
                Ok(left) => match lower_group_chain::<G>(*rhs, inverted != inverse) {
                    Err(message) => Err(message),
                    Ok(right) => Ok(left + right),
                },
            },
            None => match lower_group::<G>(a) {
                Ok(t) => Ok(seq![inverted_if(t, inverted)]),
                Err(message) => Err(message),
            },
        },
        _ => match lower_group::<G>(a) {
            Ok(t) => Ok(seq![inverted_if(t, inverted)]),
            Err(message) => Err(message),
        },
    }
}

/// The operators of group expressions.
pub open spec fn group_grammar() -> GrammarView {
    let g0 = GrammarView { table: Map::empty(), juxtaposition: None };
    let g1 = g0.with("+"@, as_infix(g0.table, "+"@, 1, Assoc::Left));
    let g2 = g1.with("-"@, as_infix(g1.table, "-"@, 1, Assoc::Left));
    let g3 = g2.with("*"@, as_infix(g2.table, "*"@, 2, Assoc::Left));
    let g4 = g3.with("/"@, as_infix(g3.table, "/"@, 2, Assoc::Left));
    let g5 = GrammarView { juxtaposition: Some("*"@), ..g4 };
    let g6 = g5.with("-"@, as_prefix(g5.table, "-"@, 3));
    g6.with("^"@, as_infix(g6.table, "^"@, 4, Assoc::Right))
}

fn role(op: &Vec<char>) -> (r: Option<bool>)
    ensures
        r == group_role(op@),
{
    if text_is("+", op) || text_is("*", op) {
        Some(false)
    } else if text_is("-", op) || text_is("/", op) {
        Some(true)
    } else {
        None
    }
}

impl<G: Group> GroupExpr<G> where G::Domain: FromLiteral {
    /// Lowers a tree into an expression.
    pub fn lower(ast: Ast) -> (r: Result<Self, ParseError>)
        ensures
            match lower_group::<G>(ast@) {
                Ok(t) => r matches Ok(e) && e@ == t,
                Err(message) => r matches Err(e) && e@ == (message, None::<usize>),
            },
        decreases ast, 0int,
    {
        let ghost view = ast@;
        let ghost whole = ast;
        match ast.literal("-") {
            Some(text) => {
                return match <G::Domain as FromLiteral>::from_literal(text.as_str()) {
                    Ok(value) => Ok(GroupExpr::Const(value)),
                    Err(e) => Err(e),
                };
            },
            None => {},
        }
        match ast {
            Ast::Ident(name) => Ok(GroupExpr::Symbol(Symbol::new(name.as_str()))),
            Ast::Group(inner) => Self::lower(*inner),
            Ast::Prefix(_, inner) => match Self::lower(*inner) {
                Ok(e) => Ok(GroupExpr::Inv(Box::new(e))),
                Err(e) => Err(e),
            },
            Ast::Infix(op, lhs, rhs) => {
                let spelled = chars_of(op.as_str());
                if text_is("^", &spelled) {
                    match rhs.integer("-") {
                        None => {
                            let rendered = rhs.render();
                            let message = framed(
                                "exponent must be an integer literal, found `",
                                &rendered,
                                "`",
                            );
                            Err(ParseError::from_chars(&message))
                        },
                        Some(exponent) => match Self::lower(*lhs) {
                            Ok(base) => Ok(GroupExpr::Pow { base: Box::new(base), exponent }),
                            Err(e) => Err(e),
                        },
                    }
                } else {
                    match role(&spelled) {
                        Some(inverse) => {
                            let mut out: Vec<Self> = Vec::new();
                            proof {
                                assert(Self::terms(out@) == Seq::<GTerm<G>>::empty());
                            }
                            match Self::lower_chain(*lhs, false, &mut out) {
                                Ok(()) => {},
                                Err(e) => {
                                    return Err(e);
                                },
                            }
                            match Self::lower_chain(*rhs, inverse, &mut out) {
                                Ok(()) => {},
                                Err(e) => {
                                    return Err(e);
                                },
                            }
                            Ok(GroupExpr::Op(out))
                        },
                        None => {
                            let message = framed(
                                "group expressions have no `",
                                &spelled,
                                "` operator",
                            );
                            Err(ParseError::from_chars(&message))
                        },
                    }
                }
            },
            Ast::Postfix(op, _) => {
                let spelled = chars_of(op.as_str());
                let message = framed("group expressions have no `", &spelled, "` operator");
                Err(ParseError::from_chars(&message))
            },
            Ast::Call(name, args) => {
                proof {
                    Ast::lemma_nodes(args@);
                }
                let spelled = chars_of(name.as_str());
                if text_is("inv", &spelled) && args.len() == 1 {
                    let mut args = args;
                    let ghost list = args@;
                    match args.pop() {
                        Some(arg) => {
                            proof {
                                assert(arg == list[0]);
                                assert(decreases_to!(whole => whole->Call_1));
                                assert(decreases_to!(whole->Call_1 => whole->Call_1@));
                                assert(decreases_to!(whole->Call_1@ => whole->Call_1@[0]));
                                Ast::lemma_nodes(list);
                            }
                            match Self::lower(arg) {
                                Ok(e) => Ok(GroupExpr::Inv(Box::new(e))),
                                Err(e) => Err(e),
                            }
                        },
                        None => Err(ParseError::new("")),
                    }
                } else {
                    let message = framed("unknown function `", &spelled, "`");
                    Err(ParseError::from_chars(&message))
                }
            },
            Ast::Number(_) => {
                proof {
                    assert(literal_text(view, "-"@) is Some);
                }
                Err(ParseError::new(""))
            },
        }
    }

    /// Lowers the operands of a chain of the group operation onto `out`.
    fn lower_chain(ast: Ast, inverted: bool, out: &mut Vec<Self>) -> (r: Result<(), ParseError>)
        ensures
            match lower_group_chain::<G>(ast@, inverted) {
                Ok(ts) => r is Ok && Self::terms(final(out)@) == Self::terms(old(out)@) + ts,
                Err(message) => r matches Err(e) && e@ == (message, None::<usize>),
            },
        decreases ast, 1int,
    {
        let ghost view = ast@;
        let chained = match &ast {
            Ast::Infix(op, _, _) => {
                let spelled = chars_of(op.as_str());
                role(&spelled)
            },
            _ => None,
        };
        match chained {
            Some(inverse) => match ast {
                Ast::Infix(_, lhs, rhs) => {
                    let ghost start = Self::terms(out@);
                    match Self::lower_chain(*lhs, inverted, out) {
                        Ok(()) => {},
                        Err(e) => {
                            return Err(e);
                        },
                    }
                    match Self::lower_chain(*rhs, inverted != inverse, out) {
                        Ok(()) => {},
                        Err(e) => {
                            return Err(e);
                        },
                    }
                    proof {
                        match lower_group_chain::<G>(view, inverted) {
                            Ok(ts) => {
                                assert(Self::terms(out@) == start + ts);
                            },
                            Err(_) => {},
                        }
                    }
                    Ok(())
                },
                _ => Ok(()),
            },
            None => match Self::lower(ast) {
                Ok(e) => {
                    let item = if inverted {
                        GroupExpr::Inv(Box::new(e))
                    } else {
                        e
                    };
                    let ghost before = out@;
                    proof {
                        Self::lemma_terms_push(before, item);
                    }
                    out.push(item);
                    Ok(())
                },
                Err(e) => Err(e),
            },
        }
    }
}

impl<G: Group> FromAst for GroupExpr<G> where G::Domain: FromLiteral {
    open spec fn spec_grammar() -> GrammarView {
        group_grammar()
    }

    open spec fn lowers_to(ast: AstView, r: Result<Self, ParseError>) -> bool {
        match lower_group::<G>(ast) {
            Ok(t) => r matches Ok(e) && e@ == t,
            Err(message) => r matches Err(e) && e@ == (message, None::<usize>),
        }
    }

    fn grammar() -> (g: Grammar) {
        let plus = chars_of("+");
        let minus = chars_of("-");
        let times = chars_of("*");
        let divide = chars_of("/");
        let caret = chars_of("^");
        Grammar::new().with_infix(&plus, 1, Assoc::Left).with_infix(&minus, 1, Assoc::Left).with_infix(
            &times,
            2,
            Assoc::Left,
        ).with_infix(&divide, 2, Assoc::Left).with_juxtaposition(&times).with_prefix(
            &minus,
            3,
        ).with_infix(&caret, 4, Assoc::Right)
    }

    fn from_ast(ast: Ast) -> (r: Result<Self, ParseError>) {
        Self::lower(ast)
    }
}

} // verus!
