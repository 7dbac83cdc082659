//! The text syntax of elementary expressions.
//!
//! The field's own arithmetic spellings, with `^n` for any integer literal
//! `n`; `a / b` is `a * b^-1`. The functions are `exp`, `log`, `sin` and
//! `cos`, and `D(f, x)` is the unevaluated derivative of `f` with respect to
//! `x`.
use vstd::prelude::*;

use crate::ast::{integer_value, literal_text, render, Ast, AstView};
use crate::elementary::{ETerm, ETermOf, Elementary, ElementaryExpr};
use crate::grammar::{as_infix, as_prefix, Assoc, Grammar, GrammarView};
use crate::op::BinaryOperator;
use crate::parse_error::ParseError;

use crate::structure::Field;
use crate::symbol::{chars_of, Symbol};
use crate::syntax::{FromAst, FromLiteral};
use crate::text::{decimal_text, framed, push_decimal, push_text, same_chars, text_is};

verus! {

/// The elementary function called `name`, if there is one.
pub open spec fn elementary_named(name: Seq<char>) -> Option<Elementary> {
    if name == "exp"@ {
        Some(Elementary::Exp)
    } else if name == "log"@ {
        Some(Elementary::Log)
    } else if name == "sin"@ {
        Some(Elementary::Sin)
    } else if name == "cos"@ {
        Some(Elementary::Cos)
    } else {
        None
    }
}

impl Elementary {
    /// The elementary function called `name`.
    pub fn named(name: &str) -> (r: Result<Elementary, ParseError>)
        ensures
            match elementary_named(name@) {
                Some(kind) => r == Ok::<Elementary, ParseError>(kind),
                None => r matches Err(e) && e@ == ("unknown function `"@ + name@ + "`"@, None::<usize>),
            },
    {
        let spelled = chars_of(name);
        if text_is("exp", &spelled) {
            Ok(Elementary::Exp)
        } else if text_is("log", &spelled) {
            Ok(Elementary::Log)
        } else if text_is("sin", &spelled) {
            Ok(Elementary::Sin)
        } else if text_is("cos", &spelled) {
            Ok(Elementary::Cos)
        } else {
            let message = framed("unknown function `", &spelled, "`");
            Err(ParseError::from_chars(&message))
        }
    }
}

/// The name an elementary function is called by in source text.
impl std::str::FromStr for Elementary {
    type Err = ParseError;

    fn from_str(s: &str) -> (r: Result<Self, Self::Err>)
        ensures
            match elementary_named(s@) {
                Some(kind) => r == Ok::<Elementary, ParseError>(kind),
                None => r matches Err(e) && e@ == ("unknown function `"@ + s@ + "`"@, None::<usize>),
            },
    {
        Elementary::named(s)
    }
}

/// How addition is spelled for `F`.
pub open spec fn add_spelling<F: Field>() -> Seq<char> {
    <F::Addition as BinaryOperator>::spec_symbol()
}

/// How multiplication is spelled for `F`.
pub open spec fn mul_spelling<F: Field>() -> Seq<char> {
    <F::Multiplication as BinaryOperator>::spec_symbol()
}

/// The role of `op` in a sum: addition, or subtraction negating its term.
pub open spec fn sum_role_of<F: Field>(op: Seq<char>) -> Option<bool> {
    if op == add_spelling::<F>() {
        Some(false)
    } else if op == F::spec_sub_symbol() {
        Some(true)
    } else {
        None
    }
}

/// The role of `op` in a product: multiplication, or division inverting
/// its factor.
pub open spec fn product_role_of<F: Field>(op: Seq<char>) -> Option<bool> {
    if op == mul_spelling::<F>() {
        Some(false)
    } else if op == F::spec_div_symbol() {
        Some(true)
    } else {
        None
    }
}

/// The message for an operator that elementary expressions do not have.
pub open spec fn no_operator(op: Seq<char>) -> Seq<char> {
    "elementary expressions have no `"@ + op + "` operator"@
}

/// `t`, negated when `negated`.
pub open spec fn negated_when<V>(t: ETerm<V>, negated: bool) -> ETerm<V> {
    if negated {
        ETerm::Neg(Box::new(t))
    } else {
        t
    }
}

/// `t`, inverted when `inverted`.
pub open spec fn inverted_when<V>(t: ETerm<V>, inverted: bool) -> ETerm<V> {
    if inverted {
        ETerm::Pow(Box::new(t), -1)
    } else {
        t
    }
}

/// What lowering a tree into an elementary expression over `F` gives.
pub open spec fn lower_elementary<F: Field>(a: AstView) -> Result<ETermOf<F>, Seq<char>> where
    F::Domain: FromLiteral,

    decreases a, 0int,
{
    match literal_text(a, "-"@) {
        Some(text) => match <F::Domain as FromLiteral>::spec_literal(text) {
            Ok(value) => Ok(ETerm::Const(value)),
            Err(message) => Err(message),
        },
        None => match a {
            AstView::Ident(name) => if elementary_named(name) is Some || name == "D"@ {
                Err("`"@ + name + "` is a function; write `"@ + name + "(...)`"@)
            } else {
                Ok(ETerm::Symbol(name))
            },
            AstView::Group(inner) => lower_elementary::<F>(*inner),
            AstView::Prefix(op, inner) => if op == F::spec_sub_symbol() {
                match lower_elementary::<F>(*inner) {
                    Ok(t) => Ok(ETerm::Neg(Box::new(t))),
                    Err(message) => Err(message),
                }
            } else {
                Err(no_operator(op))
            },
            AstView::Infix(op, lhs, rhs) => match sum_role_of::<F>(op) {
                Some(negate) => match lower_elementary_sum::<F>(*lhs, false) {
                    Err(message) => Err(message),
                    Ok(left) => match lower_elementary_sum::<F>(*rhs, negate) {
                        Err(message) => Err(message),
                        Ok(right) => Ok(ETerm::Add(left + right)),
                    },
                },
                None => match product_role_of::<F>(op) {
                    Some(invert) => match lower_elementary_product::<F>(*lhs, false) {
                        Err(message) => Err(message),
                        Ok(left) => match lower_elementary_product::<F>(*rhs, invert) {
                            Err(message) => Err(message),
                            Ok(right) => Ok(ETerm::Mul(left + right)),
                        },
                    },
                    None => if op == "^"@ {
                        match integer_value(*rhs, "-"@) {
                            None => Err(
                                "exponent must be an integer literal, found `"@ + render(*rhs)
                                    + "`"@,
                            ),
                            Some(n) => match lower_elementary::<F>(*lhs) {
                                Ok(base) => Ok(ETerm::Pow(Box::new(base), n as int)),
                                Err(message) => Err(message),
                            },
                        }
                    } else {
                        Err(no_operator(op))
                    },
                },
            },
            AstView::Postfix(op, _) => Err(no_operator(op)),
            AstView::Call(name, args) => lower_call::<F>(name, args),
            AstView::Number(_) => Err(Seq::empty()),
        },
    }
}

/// The terms of a chain of additions and subtractions, each negated where
/// an odd number of subtractions stand before it.
pub open spec fn lower_elementary_sum<F: Field>(a: AstView, negated: bool) -> Result<
    Seq<ETermOf<F>>,
    Seq<char>,
> where F::Domain: FromLiteral
    decreases a, 1int,
{
    match a {
        AstView::Infix(op, lhs, rhs) => match sum_role_of::<F>(op) {
            Some(negate) => match lower_elementary_sum::<F>(*lhs, negated) {
                Err(message) => Err(message),
                Ok(left) => match lower_elementary_sum::<F>(*rhs, negated != negate) {
                    Err(message) => Err(message),
                    Ok(right) => Ok(left + right),
                },
            },
            None => match lower_elementary::<F>(a) {
                Ok(t) => Ok(seq![negated_when(t, negated)]),
                Err(message) => Err(message),
            },
        },
        _ => match lower_elementary::<F>(a) {
            Ok(t) => Ok(seq![negated_when(t, negated)]),
            Err(message) => Err(message),
        },
    }
}

/// The factors of a chain of multiplications and divisions, each inverted
/// where an odd number of divisions stand before it.
pub open spec fn lower_elementary_product<F: Field>(a: AstView, inverted: bool) -> Result<
    Seq<ETermOf<F>>,
    Seq<char>,
> where F::Domain: FromLiteral
    decreases a, 1int,
{
    match a {
        AstView::Infix(op, lhs, rhs) => match product_role_of::<F>(op) {
            Some(invert) => match lower_elementary_product::<F>(*lhs, inverted) {
                Err(message) => Err(message),
                Ok(left) => match lower_elementary_product::<F>(*rhs, inverted != invert) {
                    Err(message) => Err(message),
                    Ok(right) => Ok(left + right),
                },
            },
            None => match lower_elementary::<F>(a) {
                Ok(t) => Ok(seq![inverted_when(t, inverted)]),
                Err(message) => Err(message),
            },
        },
        _ => match lower_elementary::<F>(a) {
            Ok(t) => Ok(seq![inverted_when(t, inverted)]),
            Err(message) => Err(message),
        },
    }
}

/// What lowering the call `name(args)` gives: `D(f, x)`, or an elementary
/// function of one argument.
pub open spec fn lower_call<F: Field>(name: Seq<char>, args: Seq<AstView>) -> Result<
    ETermOf<F>,
    Seq<char>,
> where F::Domain: FromLiteral
    decreases args, 2int,
{
    if name == "D"@ {
        if args.len() != 2 {
            Err("`D(f, x)` takes two arguments, found "@ + decimal_text(args.len()))
        } else {
            match args[1] {
                AstView::Ident(wrt) => match lower_elementary::<F>(args[0]) {
                    Ok(inner) => Ok(ETerm::D(wrt, Box::new(inner))),
                    Err(message) => Err(message),
                },
                other => Err(
                    "`D` differentiates with respect to a symbol, found `"@ + render(other) + "`"@,
                ),
            }
        }
    } else {
        match elementary_named(name) {
            None => Err("unknown function `"@ + name + "`"@),
            Some(kind) => if args.len() != 1 {
                Err("`"@ + name + "` takes one argument, found "@ + decimal_text(args.len()))
            } else {
                match lower_elementary::<F>(args[0]) {
                    Ok(arg) => Ok(ETerm::Fn(kind, Box::new(arg))),
                    Err(message) => Err(message),
                }
            },
        }
    }
}

/// The operators of elementary expressions over `F`.
pub open spec fn elementary_grammar<F: Field>() -> GrammarView {
    let add = add_spelling::<F>();
    let sub = F::spec_sub_symbol();
    let mul = mul_spelling::<F>();
    let div = F::spec_div_symbol();
    let g0 = GrammarView { table: Map::empty(), juxtaposition: None };
    let g1 = g0.with(add, as_infix(g0.table, add, 1, Assoc::Left));
    let g2 = g1.with(sub, as_infix(g1.table, sub, 1, Assoc::Left));
    let g3 = g2.with(mul, as_infix(g2.table, mul, 2, Assoc::Left));
    let g4 = g3.with(div, as_infix(g3.table, div, 2, Assoc::Left));
    let g5 = GrammarView { juxtaposition: Some(mul), ..g4 };
    let g6 = g5.with("-"@, as_prefix(g5.table, "-"@, 3));
    let g7 = g6.with(sub, as_prefix(g6.table, sub, 3));
    g7.with("^"@, as_infix(g7.table, "^"@, 4, Assoc::Right))
}

fn elementary_grammar_exec<F: Field>() -> (g: Grammar)
    ensures
        g@ == elementary_grammar::<F>(),
{
    let add = chars_of(<F::Addition as BinaryOperator>::symbol());
    let sub = chars_of(F::sub_symbol());
    let mul = chars_of(<F::Multiplication as BinaryOperator>::symbol());
    let div = chars_of(F::div_symbol());
    let minus = chars_of("-");
    let caret = chars_of("^");
    Grammar::new().with_infix(&add, 1, Assoc::Left).with_infix(&sub, 1, Assoc::Left).with_infix(
        &mul,
        2,
        Assoc::Left,
    ).with_infix(&div, 2, Assoc::Left).with_juxtaposition(&mul).with_prefix(&minus, 3).with_prefix(
        &sub,
        3,
    ).with_infix(&caret, 4, Assoc::Right)
}

fn sum_role_exec<F: Field>(op: &Vec<char>) -> (r: Option<bool>)
    ensures
        r == sum_role_of::<F>(op@),
{
    let add = chars_of(<F::Addition as BinaryOperator>::symbol());
    let sub = chars_of(F::sub_symbol());
    if same_chars(op, &add) {
        Some(false)
    } else if same_chars(op, &sub) {
        Some(true)
    } else {
        None
    }
}

fn product_role_exec<F: Field>(op: &Vec<char>) -> (r: Option<bool>)
    ensures
        r == product_role_of::<F>(op@),
{
    let mul = chars_of(<F::Multiplication as BinaryOperator>::symbol());
    let div = chars_of(F::div_symbol());
    if same_chars(op, &mul) {
        Some(false)
    } else if same_chars(op, &div) {
        Some(true)
    } else {
        None
    }
}

fn no_operator_error(op: &Vec<char>) -> (e: ParseError)
    ensures
        e@ == (no_operator(op@), None::<usize>),
{
    let message = framed("elementary expressions have no `", op, "` operator");
    ParseError::from_chars(&message)
}

/// `message` followed by `count` in decimal, as an error.
fn counted_error(message: Vec<char>, count: usize) -> (e: ParseError)
    ensures
        e@ == (message@ + decimal_text(count as nat), None::<usize>),
{
    let mut text = message;
    push_decimal(&mut text, count);
    ParseError::from_chars(&text)
}

impl<F: Field> ElementaryExpr<F> where F::Domain: FromLiteral {
    /// Lowers a tree into an elementary expression.
    pub fn lower(ast: Ast) -> (r: Result<Self, ParseError>)
        ensures
            match lower_elementary::<F>(ast@) {
                Ok(t) => r matches Ok(e) && e@ == t,
                Err(message) => r matches Err(e) && e@ == (message, None::<usize>),
            },
        decreases ast, 2int,
    {
        let ghost view = ast@;
        match ast.literal("-") {
            Some(text) => {
                return match <F::Domain as FromLiteral>::from_literal(text.as_str()) {
                    Ok(value) => Ok(ElementaryExpr::Const(value)),
                    Err(e) => Err(e),
                };
            },
            None => {},
        }
        match ast {
            Ast::Ident(name) => {
                let spelled = chars_of(name.as_str());
                let is_function = match Elementary::named(name.as_str()) {
                    Ok(_) => true,
                    Err(_) => false,
                };
                if is_function || text_is("D", &spelled) {
                    let mut message = framed("`", &spelled, "` is a function; write `");
                    crate::text::push_chars(&mut message, &spelled);
                    push_text(&mut message, "(...)`");
                    Err(ParseError::from_chars(&message))
                } else {
                    Ok(ElementaryExpr::Symbol(Symbol::new(name.as_str())))
                }
            },
            Ast::Group(inner) => Self::lower(*inner),
            Ast::Prefix(op, inner) => {
                let spelled = chars_of(op.as_str());
                let sub = chars_of(F::sub_symbol());
                if same_chars(&spelled, &sub) {
                    match Self::lower(*inner) {
                        Ok(e) => Ok(ElementaryExpr::Neg(Box::new(e))),
                        Err(e) => Err(e),
                    }
                } else {
                    Err(no_operator_error(&spelled))
                }
            },
            Ast::Infix(op, lhs, rhs) => {
                let spelled = chars_of(op.as_str());
                match sum_role_exec::<F>(&spelled) {
                    Some(negate) => {
                        let mut out: Vec<Self> = Vec::new();
                        proof {
                            assert(Self::terms(out@) == Seq::<ETermOf<F>>::empty());
                        }
                        match Self::lower_sum(*lhs, false, &mut out) {
                            Ok(()) => {},
                            Err(e) => {
                                return Err(e);
                            },
                        }
                        match Self::lower_sum(*rhs, negate, &mut out) {
                            Ok(()) => {},
                            Err(e) => {
                                return Err(e);
                            },
                        }
                        Ok(ElementaryExpr::Add(out))
                    },
                    None => match product_role_exec::<F>(&spelled) {
                        Some(invert) => {
                            let mut out: Vec<Self> = Vec::new();
                            proof {
                                assert(Self::terms(out@) == Seq::<ETermOf<F>>::empty());
                            }
                            match Self::lower_product(*lhs, false, &mut out) {
                                Ok(()) => {},
                                Err(e) => {
                                    return Err(e);
                                },
                            }
                            match Self::lower_product(*rhs, invert, &mut out) {
                                Ok(()) => {},
                                Err(e) => {
                                    return Err(e);
                                },
                            }
                            Ok(ElementaryExpr::Mul(out))
                        },
                        None => {
                            if text_is("^", &spelled) {
                                match rhs.integer("-") {
                                    None => {
                                        let rendered = rhs.render();
                                        let message = framed(
                                            "exponent must be an integer literal, found `",
                                            &rendered,
                                            "`",
                                        );
                                        Err(ParseError::from_chars(&message))
                                    },
                                    Some(exponent) => match Self::lower(*lhs) {
                                        Ok(base) => Ok(
                                            ElementaryExpr::Pow { base: Box::new(base), exponent },
                                        ),
                                        Err(e) => Err(e),
                                    },
                                }
                            } else {
                                Err(no_operator_error(&spelled))
                            }
                        },
                    },
                }
            },
            Ast::Postfix(op, _) => {
                let spelled = chars_of(op.as_str());
                Err(no_operator_error(&spelled))
            },
            Ast::Call(name, args) => {
                let ghost whole = Ast::Call(name, args);
                Self::lower_call(name, args, Ghost(whole))
            },
            Ast::Number(_) => {
                proof {
                    assert(literal_text(view, "-"@) is Some);
                }
                Err(ParseError::new(""))
            },
        }
    }

    /// Lowers the terms of a sum onto `out`.
    fn lower_sum(ast: Ast, negated: bool, out: &mut Vec<Self>) -> (r: Result<(), ParseError>)
        ensures
            match lower_elementary_sum::<F>(ast@, negated) {
                Ok(ts) => r is Ok && Self::terms(final(out)@) == Self::terms(old(out)@) + ts,
                Err(message) => r matches Err(e) && e@ == (message, None::<usize>),
            },
        decreases ast, 3int,
    {
        let ghost view = ast@;
        let chained = match &ast {
            Ast::Infix(op, _, _) => {
                let spelled = chars_of(op.as_str());
                sum_role_exec::<F>(&spelled)
            },
            _ => None,
        };
        match chained {
            Some(negate) => match ast {
                Ast::Infix(_, lhs, rhs) => {
                    let ghost start = Self::terms(out@);
                    match Self::lower_sum(*lhs, negated, out) {
                        Ok(()) => {},
                        Err(e) => {
                            return Err(e);
                        },
                    }
                    match Self::lower_sum(*rhs, negated != negate, out) {
                        Ok(()) => {},
                        Err(e) => {
                            return Err(e);
                        },
                    }
                    proof {
                        match lower_elementary_sum::<F>(view, negated) {
                            Ok(ts) => {
                                assert(Self::terms(out@) == start + ts);
                            },
                            Err(_) => {},
                        }
                    }
                    Ok(())
                },
                _ => Ok(()),
            },
            None => match Self::lower(ast) {
                Ok(e) => {
                    let item = if negated {
                        ElementaryExpr::Neg(Box::new(e))
                    } else {
                        e
                    };
                    let ghost before = out@;
                    proof {
                        Self::lemma_terms_push(before, item);
                    }
                    out.push(item);
                    Ok(())
                },
                Err(e) => Err(e),
            },
        }
    }

    /// Lowers the factors of a product onto `out`.
    fn lower_product(ast: Ast, inverted: bool, out: &mut Vec<Self>) -> (r: Result<(), ParseError>)
        ensures
            match lower_elementary_product::<F>(ast@, inverted) {
                Ok(ts) => r is Ok && Self::terms(final(out)@) == Self::terms(old(out)@) + ts,
                Err(message) => r matches Err(e) && e@ == (message, None::<usize>),
            },
        decreases ast, 3int,
    {
        let ghost view = ast@;
        let chained = match &ast {
            Ast::Infix(op, _, _) => {
                let spelled = chars_of(op.as_str());
                product_role_exec::<F>(&spelled)
            },
            _ => None,
        };
        match chained {
            Some(invert) => match ast {
                Ast::Infix(_, lhs, rhs) => {
                    let ghost start = Self::terms(out@);
                    match Self::lower_product(*lhs, inverted, out) {
                        Ok(()) => {},
                        Err(e) => {
                            return Err(e);
                        },
                    }
                    match Self::lower_product(*rhs, inverted != invert, out) {
                        Ok(()) => {},
                        Err(e) => {
                            return Err(e);
                        },
                    }
                    proof {
                        match lower_elementary_product::<F>(view, inverted) {
                            Ok(ts) => {
                                assert(Self::terms(out@) == start + ts);
                            },
                            Err(_) => {},
                        }
                    }
                    Ok(())
                },
                _ => Ok(()),
            },
            None => match Self::lower(ast) {
                Ok(e) => {
                    let item = if inverted {
                        ElementaryExpr::Pow { base: Box::new(e), exponent: -1 }
                    } else {
                        e
                    };
                    let ghost before = out@;
                    proof {
                        Self::lemma_terms_push(before, item);
                    }
                    out.push(item);
                    Ok(())
                },
                Err(e) => Err(e),
            },
        }
    }

    /// Lowers the call `name(args)`, the tree `whole`.
    fn lower_call(name: String, args: Vec<Ast>, Ghost(whole): Ghost<Ast>) -> (r: Result<Self, ParseError>)
        requires
            whole == Ast::Call(name, args),
        ensures
            match lower_call::<F>(name@, Ast::nodes(args@)) {
                Ok(t) => r matches Ok(e) && e@ == t,
                Err(message) => r matches Err(e) && e@ == (message, None::<usize>),
            },
        decreases whole, 1int,
    {
        proof {
            Ast::lemma_nodes(args@);
        }
        let spelled = chars_of(name.as_str());
        let count = args.len();
        let mut args = args;
        let ghost list = args@;
        if text_is("D", &spelled) {
            if count != 2 {
                let mut message: Vec<char> = Vec::new();
                push_text(&mut message, "`D(f, x)` takes two arguments, found ");
                return Err(counted_error(message, count));
            }
            let second = args.pop();
            let first = args.pop();
            match (first, second) {
                (Some(inner), Some(wrt)) => {
                    proof {
                        assert(inner == list[0]);
                        assert(wrt == list[1]);
                        assert(decreases_to!(whole => whole->Call_1));
                        assert(decreases_to!(whole->Call_1 => whole->Call_1@));
                        assert(decreases_to!(whole->Call_1@ => whole->Call_1@[0]));
                    }
                    match wrt {
                        Ast::Ident(w) => match Self::lower(inner) {
                            Ok(e) => Ok(ElementaryExpr::D { wrt: Symbol::new(w.as_str()), inner: Box::new(e) }),
                            Err(e) => Err(e),
                        },
                        other => {
                            let rendered = other.render();
                            let message = framed(
                                "`D` differentiates with respect to a symbol, found `",
                                &rendered,
                                "`",
                            );
                            Err(ParseError::from_chars(&message))
                        },
                    }
                },
                _ => Err(ParseError::new("")),
            }
        } else {
            match Elementary::named(name.as_str()) {
                Err(e) => Err(e),
                Ok(kind) => {
                    if count != 1 {
                        let message = framed("`", &spelled, "` takes one argument, found ");
                        return Err(counted_error(message, count));
                    }
                    match args.pop() {
                        Some(arg) => {
                            proof {
                                assert(arg == list[0]);
                                assert(decreases_to!(whole => whole->Call_1));
                                assert(decreases_to!(whole->Call_1 => whole->Call_1@));
                                assert(decreases_to!(whole->Call_1@ => whole->Call_1@[0]));
                            }
                            match Self::lower(arg) {
                                Ok(e) => Ok(ElementaryExpr::Fn(kind, Box::new(e))),
                                Err(e) => Err(e),
                            }
                        },
                        None => Err(ParseError::new("")),
                    }
                },
            }
        }
    }
}

impl<F: Field> FromAst for ElementaryExpr<F> where F::Domain: FromLiteral {
    open spec fn spec_grammar() -> GrammarView {
        elementary_grammar::<F>()
    }

    open spec fn lowers_to(ast: AstView, r: Result<Self, ParseError>) -> bool {
        match lower_elementary::<F>(ast) {
            Ok(t) => r matches Ok(e) && e@ == t,
            Err(message) => r matches Err(e) && e@ == (message, None::<usize>),
        }
    }

    fn grammar() -> (g: Grammar) {
        elementary_grammar_exec::<F>()
    }

    fn from_ast(ast: Ast) -> (r: Result<Self, ParseError>) {
        Self::lower(ast)
    }
}

} // verus!
