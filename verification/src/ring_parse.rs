//! The text syntax of semi-ring and ring expressions.
//!
//! The semi-ring's addition and multiplication symbols (juxtaposition also
//! multiplies) and `x^n` for `n >= 1`. Prefix `-` exists only to spell
//! negative constants: a semi-ring has no inverses, so `-x` is an error and
//! `a - b` is not even syntax. Ring expressions add prefix negation and
//! `a - b` as `a + (-b)`.
use vstd::prelude::*;
use crate::ast::{integer_value, literal_text, render, Ast, AstView};
use crate::grammar::{as_infix, as_prefix, Assoc, Grammar, GrammarView};
use crate::op::BinaryOperator;
use crate::parse_error::ParseError;
use crate::ring::{Ring, SemiRing};
use crate::ring_expr::{RTerm, RTermOf, RingExpr};
use crate::semiring_expr::{SRTerm, STerm, SemiRingExpr};
use crate::symbol::{chars_of, Symbol};
use crate::syntax::{FromAst, FromLiteral};
use crate::text::{framed, same_chars, text_is};

verus! {

/// The exponent an `x^n` takes: a positive integer literal.
pub open spec fn positive_exponent(a: AstView) -> Option<nat> {
    match integer_value(a, "-"@) {
        Some(n) => if n >= 1 {
            Some(n as nat)
        } else {
            None
        },
        None => None,
    }
}

/// The message for an exponent that is not a positive integer literal.
pub open spec fn bad_exponent(a: AstView) -> Seq<char> {
    "exponent must be a positive integer literal, found `"@ + render(a) + "`"@
}

/// How addition is spelled for `SR`.
pub open spec fn add_symbol<SR: SemiRing>() -> Seq<char> {
    <SR::Addition as BinaryOperator>::spec_symbol()
}

/// How multiplication is spelled for `SR`.
pub open spec fn mul_symbol<SR: SemiRing>() -> Seq<char> {
    <SR::Multiplication as BinaryOperator>::spec_symbol()
}

/// What lowering a tree into a semi-ring expression over `SR` gives.
pub open spec fn lower_semiring<SR: SemiRing>(a: AstView) -> Result<STerm<SR>, Seq<char>> where
    SR::Domain: FromLiteral,

    decreases a, 0int,
{
    match literal_text(a, "-"@) {
        Some(text) => match <SR::Domain as FromLiteral>::spec_literal(text) {
            Ok(value) => Ok(SRTerm::Const(value)),
            Err(message) => Err(message),
        },
        None => match a {
            AstView::Ident(name) => Ok(SRTerm::Symbol(name)),
            AstView::Group(inner) => lower_semiring::<SR>(*inner),
            AstView::Infix(op, lhs, rhs) => if op == add_symbol::<SR>() || op == mul_symbol::<SR>() {
                match lower_semiring_chain::<SR>(*lhs, op) {
                    Err(message) => Err(message),
                    Ok(left) => match lower_semiring_chain::<SR>(*rhs, op) {
                        Err(message) => Err(message),
                        Ok(right) => if op == add_symbol::<SR>() {
                            Ok(SRTerm::Add(left + right))
                        } else {
                            Ok(SRTerm::Mul(left + right))
                        },
                    },
                }
            } else if op == "^"@ {
                match positive_exponent(*rhs) {
                    None => Err(bad_exponent(*rhs)),
                    Some(n) => match lower_semiring::<SR>(*lhs) {
                        Ok(base) => Ok(SRTerm::Pow(Box::new(base), n)),
                        Err(message) => Err(message),
                    },
                }
            } else {
                Err("semi-ring expressions have no `"@ + op + "` operator"@)
            },
            AstView::Prefix(op, _) => Err("semi-ring expressions have no `"@ + op + "` operator"@),
            AstView::Postfix(op, _) => Err("semi-ring expressions have no `"@ + op + "` operator"@),
            AstView::Call(name, _) => Err("unknown function `"@ + name + "`"@),
            AstView::Number(_) => Err(Seq::empty()),
        },
    }
}

/// The operands of a chain of the operator `symbol`, lowered from left to
/// right; the first error ends it.
pub open spec fn lower_semiring_chain<SR: SemiRing>(a: AstView, symbol: Seq<char>) -> Result<
    Seq<STerm<SR>>,
    Seq<char>,
> where SR::Domain: FromLiteral
    decreases a, 1int,
{
    match a {
        AstView::Infix(op, lhs, rhs) => if op == symbol {
            match lower_semiring_chain::<SR>(*lhs, symbol) {
                Err(message) => Err(message),
                Ok(left) => match lower_semiring_chain::<SR>(*rhs, symbol) {
                    Err(message) => Err(message),
                    Ok(right) => Ok(left + right),
                },
            }
        } else {
            match lower_semiring::<SR>(a) {
                Ok(t) => Ok(seq![t]),
                Err(message) => Err(message),
            }
        },
        _ => match lower_semiring::<SR>(a) {
            Ok(t) => Ok(seq![t]),
            Err(message) => Err(message),
        },
    }
}

/// The operators of semi-ring expressions over `SR`.
pub open spec fn semiring_grammar<SR: SemiRing>() -> GrammarView {
    let g0 = GrammarView { table: Map::empty(), juxtaposition: None };
    let g1 = g0.with(add_symbol::<SR>(), as_infix(g0.table, add_symbol::<SR>(), 1, Assoc::Left));
    let g2 = g1.with(mul_symbol::<SR>(), as_infix(g1.table, mul_symbol::<SR>(), 2, Assoc::Left));
    let g3 = GrammarView { juxtaposition: Some(mul_symbol::<SR>()), ..g2 };
    let g4 = g3.with("-"@, as_prefix(g3.table, "-"@, 3));
    g4.with("^"@, as_infix(g4.table, "^"@, 4, Assoc::Right))
}

fn semiring_grammar_exec<SR: SemiRing>() -> (g: Grammar)
    ensures
        g@ == semiring_grammar::<SR>(),
{
    let add = chars_of(<SR::Addition as BinaryOperator>::symbol());
    let mul = chars_of(<SR::Multiplication as BinaryOperator>::symbol());
    let minus = chars_of("-");
    let caret = chars_of("^");
    Grammar::new().with_infix(&add, 1, Assoc::Left).with_infix(&mul, 2, Assoc::Left).with_juxtaposition(
        &mul,
    ).with_prefix(&minus, 3).with_infix(&caret, 4, Assoc::Right)
}

/// The exponent of `x^n`, or the error for it.
fn exponent_of(ast: &Ast) -> (r: Result<usize, ParseError>)
    ensures
        match positive_exponent(ast@) {
            Some(n) => r == Ok::<usize, ParseError>(n as usize),
            None => r matches Err(e) && e@ == (bad_exponent(ast@), None::<usize>),
        },
{
    match ast.integer("-") {
        Some(n) => {
            if n >= 1 {
                return Ok(n as usize);
            }
        },
        None => {},
    }
    let rendered = ast.render();
    let message = framed("exponent must be a positive integer literal, found `", &rendered, "`");
    Err(ParseError::from_chars(&message))
}

impl<SR: SemiRing> SemiRingExpr<SR> where SR::Domain: FromLiteral {
    /// Lowers a tree into a semi-ring expression.
    pub fn lower(ast: Ast) -> (r: Result<Self, ParseError>)
        ensures
            match lower_semiring::<SR>(ast@) {
                Ok(t) => r matches Ok(e) && e@ == t,
                Err(message) => r matches Err(e) && e@ == (message, None::<usize>),
            },
        decreases ast, 0int,
    {
        let ghost view = ast@;
        match ast.literal("-") {
            Some(text) => {
                return match <SR::Domain as FromLiteral>::from_literal(text.as_str()) {
                    Ok(value) => Ok(SemiRingExpr::Const(value)),
                    Err(e) => Err(e),
                };
            },
            None => {},
        }
        match ast {
            Ast::Ident(name) => Ok(SemiRingExpr::Symbol(Symbol::new(name.as_str()))),
            Ast::Group(inner) => Self::lower(*inner),
            Ast::Infix(op, lhs, rhs) => {
                let spelled = chars_of(op.as_str());
                let add = chars_of(<SR::Addition as BinaryOperator>::symbol());
                let mul = chars_of(<SR::Multiplication as BinaryOperator>::symbol());
                let is_add = same_chars(&spelled, &add);
                if is_add || same_chars(&spelled, &mul) {
                    let mut out: Vec<Self> = Vec::new();
                    proof {
                        assert(Self::terms(out@) == Seq::<STerm<SR>>::empty());
                    }
                    match Self::lower_chain(*lhs, &spelled, &mut out) {
                        Ok(()) => {},
                        Err(e) => {
                            return Err(e);
                        },
                    }
                    match Self::lower_chain(*rhs, &spelled, &mut out) {
                        Ok(()) => {},
                        Err(e) => {
                            return Err(e);
                        },
                    }
                    if is_add {
                        Ok(SemiRingExpr::Add(out))
                    } else {
                        Ok(SemiRingExpr::Mul(out))
                    }
                } else if text_is("^", &spelled) {
                    match exponent_of(&rhs) {
                        Err(e) => Err(e),
                        Ok(exponent) => match Self::lower(*lhs) {
                            Ok(base) => Ok(SemiRingExpr::Pow { base: Box::new(base), exponent }),
                            Err(e) => Err(e),
                        },
                    }
                } else {
                    let message = framed("semi-ring expressions have no `", &spelled, "` operator");
                    Err(ParseError::from_chars(&message))
                }
            },
            Ast::Prefix(op, _) => {
                let spelled = chars_of(op.as_str());
                let message = framed("semi-ring expressions have no `", &spelled, "` operator");
                Err(ParseError::from_chars(&message))
            },
            Ast::Postfix(op, _) => {
                let spelled = chars_of(op.as_str());
                let message = framed("semi-ring expressions have no `", &spelled, "` operator");
                Err(ParseError::from_chars(&message))
            },
            Ast::Call(name, _) => {
                let spelled = chars_of(name.as_str());
                let message = framed("unknown function `", &spelled, "`");
                Err(ParseError::from_chars(&message))
            },
            Ast::Number(_) => {
                proof {
                    assert(literal_text(view, "-"@) is Some);
                }
                Err(ParseError::new(""))
            },
        }
    }

    /// Lowers the operands of a chain of the operator `symbol` onto `out`.
    fn lower_chain(ast: Ast, symbol: &Vec<char>, out: &mut Vec<Self>) -> (r: Result<(), ParseError>)
        ensures
            match lower_semiring_chain::<SR>(ast@, symbol@) {
                Ok(ts) => r is Ok && Self::terms(final(out)@) == Self::terms(old(out)@) + ts,
                Err(message) => r matches Err(e) && e@ == (message, None::<usize>),
            },
        decreases ast, 1int,
    {
        let ghost view = ast@;
        let chained = match &ast {
            Ast::Infix(op, _, _) => {
                let spelled = chars_of(op.as_str());
                same_chars(&spelled, symbol)
            },
            _ => false,
        };
        if chained {
            match ast {
                Ast::Infix(_, lhs, rhs) => {
                    let ghost start = Self::terms(out@);
                    match Self::lower_chain(*lhs, symbol, out) {
                        Ok(()) => {},
                        Err(e) => {
                            return Err(e);
                        },
                    }
                    match Self::lower_chain(*rhs, symbol, out) {
                        Ok(()) => {},
                        Err(e) => {
                            return Err(e);
                        },
                    }
                    proof {
                        match lower_semiring_chain::<SR>(view, symbol@) {
                            Ok(ts) => {
                                assert(Self::terms(out@) == start + ts);
                            },
                            Err(_) => {},
                        }
                    }
                    Ok(())
                },
                _ => Ok(()),
            }
        } else {
            match Self::lower(ast) {
                Ok(e) => {
                    let ghost before = out@;
                    proof {
                        Self::lemma_terms_push(before, e);
                    }
                    out.push(e);
                    Ok(())
                },
                Err(e) => Err(e),
            }
        }
    }
}

impl<SR: SemiRing> FromAst for SemiRingExpr<SR> where SR::Domain: FromLiteral {
    open spec fn spec_grammar() -> GrammarView {
        semiring_grammar::<SR>()
    }

    open spec fn lowers_to(ast: AstView, r: Result<Self, ParseError>) -> bool {
        match lower_semiring::<SR>(ast) {
            Ok(t) => r matches Ok(e) && e@ == t,
            Err(message) => r matches Err(e) && e@ == (message, None::<usize>),
        }
    }

    fn grammar() -> (g: Grammar) {
        semiring_grammar_exec::<SR>()
    }

    fn from_ast(ast: Ast) -> (r: Result<Self, ParseError>) {
        Self::lower(ast)
    }
}

/// How subtraction is spelled for `R`.
pub open spec fn sub_symbol<R: Ring>() -> Seq<char> {
    R::spec_sub_symbol()
}

/// The role of an operator in a sum of ring expressions: addition
/// continues it, subtraction continues it negating its right operand.
pub open spec fn sum_role<R: Ring>(op: Seq<char>) -> Option<bool> {
    if op == add_symbol::<R>() {
        Some(false)
    } else if op == sub_symbol::<R>() {
        Some(true)
    } else {
        None
    }
}

/// `t`, negated when `negated`.
pub open spec fn negated_if<V>(t: RTerm<V>, negated: bool) -> RTerm<V> {
    if negated {
        RTerm::Neg(Box::new(t))
    } else {
        t
    }
}

/// What lowering a tree into a ring expression over `R` gives.
pub open spec fn lower_ring<R: Ring>(a: AstView) -> Result<RTermOf<R>, Seq<char>> where
    R::Domain: FromLiteral,

    decreases a, 0int,
{
    match literal_text(a, "-"@) {
        Some(text) => match <R::Domain as FromLiteral>::spec_literal(text) {
            Ok(value) => Ok(RTerm::Const(value)),
            Err(message) => Err(message),
        },
        None => match a {
            AstView::Ident(name) => Ok(RTerm::Symbol(name)),
            AstView::Group(inner) => lower_ring::<R>(*inner),
            AstView::Prefix(op, inner) => if op == sub_symbol::<R>() {
                match lower_ring::<R>(*inner) {
                    Ok(t) => Ok(RTerm::Neg(Box::new(t))),
                    Err(message) => Err(message),
                }
            } else {
                Err("ring expressions have no `"@ + op + "` operator"@)
            },
            AstView::Infix(op, lhs, rhs) => match sum_role::<R>(op) {
                Some(negate) => match lower_ring_sum::<R>(*lhs, false) {
                    Err(message) => Err(message),
                    Ok(left) => match lower_ring_sum::<R>(*rhs, negate) {
                        Err(message) => Err(message),
                        Ok(right) => Ok(RTerm::Add(left + right)),
                    },
                },
                None => if op == mul_symbol::<R>() {
                    match lower_ring_product::<R>(*lhs) {
                        Err(message) => Err(message),
                        Ok(left) => match lower_ring_product::<R>(*rhs) {
                            Err(message) => Err(message),
                            Ok(right) => Ok(RTerm::Mul(left + right)),
                        },
                    }
                } else if op == "^"@ {
                    match positive_exponent(*rhs) {
                        None => Err(bad_exponent(*rhs)),
                        Some(n) => match lower_ring::<R>(*lhs) {
                            Ok(base) => Ok(RTerm::Pow(Box::new(base), n)),
                            Err(message) => Err(message),
                        },
                    }
                } else {
                    Err("ring expressions have no `"@ + op + "` operator"@)
                },
            },
            AstView::Postfix(op, _) => Err("ring expressions have no `"@ + op + "` operator"@),
            AstView::Call(name, _) => Err("unknown function `"@ + name + "`"@),
            AstView::Number(_) => Err(Seq::empty()),
        },
    }
}

/// The terms of a chain of additions and subtractions, each negated where
/// an odd number of subtractions stand before it.
pub open spec fn lower_ring_sum<R: Ring>(a: AstView, negated: bool) -> Result<
    Seq<RTermOf<R>>,
    Seq<char>,
> where R::Domain: FromLiteral
    decreases a, 1int,
{
    match a {
        AstView::Infix(op, lhs, rhs) => match sum_role::<R>(op) {
            Some(negate) => match lower_ring_sum::<R>(*lhs, negated) {
                Err(message) => Err(message),
                Ok(left) => match lower_ring_sum::<R>(*rhs, negated != negate) {
                    Err(message) => Err(message),
                    Ok(right) => Ok(left + right),
                },
            },
            None => match lower_ring::<R>(a) {
                Ok(t) => Ok(seq![negated_if(t, negated)]),
                Err(message) => Err(message),
            },
        },
        _ => match lower_ring::<R>(a) {
            Ok(t) => Ok(seq![negated_if(t, negated)]),
            Err(message) => Err(message),
        },
    }
}

/// The factors of a chain of multiplications.
pub open spec fn lower_ring_product<R: Ring>(a: AstView) -> Result<Seq<RTermOf<R>>, Seq<char>> where
    R::Domain: FromLiteral,

    decreases a, 1int,
{
    match a {
        AstView::Infix(op, lhs, rhs) => if op == mul_symbol::<R>() {
            match lower_ring_product::<R>(*lhs) {
                Err(message) => Err(message),
                Ok(left) => match lower_ring_product::<R>(*rhs) {
                    Err(message) => Err(message),
                    Ok(right) => Ok(left + right),
                },
            }
        } else {
            match lower_ring::<R>(a) {
                Ok(t) => Ok(seq![t]),
                Err(message) => Err(message),
            }
        },
        _ => match lower_ring::<R>(a) {
            Ok(t) => Ok(seq![t]),
            Err(message) => Err(message),
        },
    }
}

/// The operators of ring expressions over `R`: those of semi-ring
/// expressions, plus infix and prefix subtraction.
pub open spec fn ring_grammar<R: Ring>() -> GrammarView {
    let g0 = semiring_grammar::<R>();
    let g1 = g0.with(sub_symbol::<R>(), as_infix(g0.table, sub_symbol::<R>(), 1, Assoc::Left));
    g1.with(sub_symbol::<R>(), as_prefix(g1.table, sub_symbol::<R>(), 3))
}

fn role_of_sum<R: Ring>(op: &Vec<char>) -> (r: Option<bool>)
    ensures
        r == sum_role::<R>(op@),
{
    let add = chars_of(<R::Addition as BinaryOperator>::symbol());
    let sub = chars_of(R::sub_symbol());
    if same_chars(op, &add) {
        Some(false)
    } else if same_chars(op, &sub) {
        Some(true)
    } else {
        None
    }
}

impl<R: Ring> RingExpr<R> where R::Domain: FromLiteral {
    /// Lowers a tree into a ring expression.
    pub fn lower(ast: Ast) -> (r: Result<Self, ParseError>)
        ensures
            match lower_ring::<R>(ast@) {
                Ok(t) => r matches Ok(e) && e@ == t,
                Err(message) => r matches Err(e) && e@ == (message, None::<usize>),
            },
        decreases ast, 0int,
    {
        let ghost view = ast@;
        match ast.literal("-") {
            Some(text) => {
                return match <R::Domain as FromLiteral>::from_literal(text.as_str()) {
                    Ok(value) => Ok(RingExpr::Const(value)),
                    Err(e) => Err(e),
                };
            },
            None => {},
        }
        match ast {
            Ast::Ident(name) => Ok(RingExpr::Symbol(Symbol::new(name.as_str()))),
            Ast::Group(inner) => Self::lower(*inner),
            Ast::Prefix(op, inner) => {
                let spelled = chars_of(op.as_str());
                let sub = chars_of(R::sub_symbol());
                if same_chars(&spelled, &sub) {
                    match Self::lower(*inner) {
                        Ok(e) => Ok(RingExpr::Neg(Box::new(e))),
                        Err(e) => Err(e),
                    }
                } else {
                    let message = framed("ring expressions have no `", &spelled, "` operator");
                    Err(ParseError::from_chars(&message))
                }
            },
            Ast::Infix(op, lhs, rhs) => {
                let spelled = chars_of(op.as_str());
                match role_of_sum::<R>(&spelled) {
                    Some(negate) => {
                        let mut out: Vec<Self> = Vec::new();
                        proof {
                            assert(Self::terms(out@) == Seq::<RTermOf<R>>::empty());
                        }
                        match Self::lower_sum(*lhs, false, &mut out) {
                            Ok(()) => {},
                            Err(e) => {
                                return Err(e);
                            },
                        }
                        match Self::lower_sum(*rhs, negate, &mut out) {
                            Ok(()) => {},
                            Err(e) => {
                                return Err(e);
                            },
                        }
                        Ok(RingExpr::Add(out))
                    },
                    None => {
                        let mul = chars_of(<R::Multiplication as BinaryOperator>::symbol());
                        if same_chars(&spelled, &mul) {
                            let mut out: Vec<Self> = Vec::new();
                            proof {
                                assert(Self::terms(out@) == Seq::<RTermOf<R>>::empty());
                            }
                            match Self::lower_product(*lhs, &mut out) {
                                Ok(()) => {},
                                Err(e) => {
                                    return Err(e);
                                },
                            }
                            match Self::lower_product(*rhs, &mut out) {
                                Ok(()) => {},
                                Err(e) => {
                                    return Err(e);
                                },
                            }
                            Ok(RingExpr::Mul(out))
                        } else if text_is("^", &spelled) {
                            match exponent_of(&rhs) {
                                Err(e) => Err(e),
                                Ok(exponent) => match Self::lower(*lhs) {
                                    Ok(base) => Ok(RingExpr::Pow { base: Box::new(base), exponent }),
                                    Err(e) => Err(e),
                                },
                            }
                        } else {
                            let message = framed("ring expressions have no `", &spelled, "` operator");
                            Err(ParseError::from_chars(&message))
                        }
                    },
                }
            },
            Ast::Postfix(op, _) => {
                let spelled = chars_of(op.as_str());
                let message = framed("ring expressions have no `", &spelled, "` operator");
                Err(ParseError::from_chars(&message))
            },
            Ast::Call(name, _) => {
                let spelled = chars_of(name.as_str());
                let message = framed("unknown function `", &spelled, "`");
                Err(ParseError::from_chars(&message))
            },
            Ast::Number(_) => {
                proof {
                    assert(literal_text(view, "-"@) is Some);
                }
                Err(ParseError::new(""))
            },
        }
    }

    /// Lowers the terms of a sum onto `out`.
    fn lower_sum(ast: Ast, negated: bool, out: &mut Vec<Self>) -> (r: Result<(), ParseError>)
        ensures
            match lower_ring_sum::<R>(ast@, negated) {
                Ok(ts) => r is Ok && Self::terms(final(out)@) == Self::terms(old(out)@) + ts,
                Err(message) => r matches Err(e) && e@ == (message, None::<usize>),
            },
        decreases ast, 1int,
    {
        let ghost view = ast@;
        let chained = match &ast {
            Ast::Infix(op, _, _) => {
                let spelled = chars_of(op.as_str());
                role_of_sum::<R>(&spelled)
            },
            _ => None,
        };
        match chained {
            Some(negate) => match ast {
                Ast::Infix(_, lhs, rhs) => {
                    let ghost start = Self::terms(out@);
                    match Self::lower_sum(*lhs, negated, out) {
                        Ok(()) => {},
                        Err(e) => {
                            return Err(e);
                        },
                    }
                    match Self::lower_sum(*rhs, negated != negate, out) {
                        Ok(()) => {},
                        Err(e) => {
                            return Err(e);
                        },
                    }
                    proof {
                        match lower_ring_sum::<R>(view, negated) {
                            Ok(ts) => {
                                assert(Self::terms(out@) == start + ts);
                            },
                            Err(_) => {},
                        }
                    }
                    Ok(())
                },
                _ => Ok(()),
            },
            None => match Self::lower(ast) {
                Ok(e) => {
                    let item = if negated {
                        RingExpr::Neg(Box::new(e))
                    } else {
                        e
                    };
                    let ghost before = out@;
                    proof {
                        Self::lemma_terms_push(before, item);
                    }
                    out.push(item);
                    Ok(())
                },
                Err(e) => Err(e),
            },
        }
    }

    /// Lowers the factors of a product onto `out`.
    fn lower_product(ast: Ast, out: &mut Vec<Self>) -> (r: Result<(), ParseError>)
        ensures
            match lower_ring_product::<R>(ast@) {
                Ok(ts) => r is Ok && Self::terms(final(out)@) == Self::terms(old(out)@) + ts,
                Err(message) => r matches Err(e) && e@ == (message, None::<usize>),
            },
        decreases ast, 1int,
    {
        let ghost view = ast@;
        let chained = match &ast {
            Ast::Infix(op, _, _) => {
                let spelled = chars_of(op.as_str());
                let mul = chars_of(<R::Multiplication as BinaryOperator>::symbol());
                same_chars(&spelled, &mul)
            },
            _ => false,
        };
        if chained {
            match ast {
                Ast::Infix(_, lhs, rhs) => {
                    let ghost start = Self::terms(out@);
                    match Self::lower_product(*lhs, out) {
                        Ok(()) => {},
                        Err(e) => {
                            return Err(e);
                        },
                    }
                    match Self::lower_product(*rhs, out) {
                        Ok(()) => {},
                        Err(e) => {
                            return Err(e);
                        },
                    }
                    proof {
                        match lower_ring_product::<R>(view) {
                            Ok(ts) => {
                                assert(Self::terms(out@) == start + ts);
                            },
                            Err(_) => {},
                        }
                    }
                    Ok(())
                },
                _ => Ok(()),
            }
        } else {
            match Self::lower(ast) {
                Ok(e) => {
                    let ghost before = out@;
                    proof {
                        Self::lemma_terms_push(before, e);
                    }
                    out.push(e);
                    Ok(())
                },
                Err(e) => Err(e),
            }
        }
    }
}

impl<R: Ring> FromAst for RingExpr<R> where R::Domain: FromLiteral {
    open spec fn spec_grammar() -> GrammarView {
        ring_grammar::<R>()
    }

    open spec fn lowers_to(ast: AstView, r: Result<Self, ParseError>) -> bool {
        match lower_ring::<R>(ast) {
            Ok(t) => r matches Ok(e) && e@ == t,
            Err(message) => r matches Err(e) && e@ == (message, None::<usize>),
        }
    }

    fn grammar() -> (g: Grammar) {
        let sub = chars_of(R::sub_symbol());
        semiring_grammar_exec::<R>().with_infix(&sub, 1, Assoc::Left).with_prefix(&sub, 3)
    }

    fn from_ast(ast: Ast) -> (r: Result<Self, ParseError>) {
        Self::lower(ast)
    }
}

} // verus!
