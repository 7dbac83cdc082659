use eqn::elementary::{Elementary, ElementaryExpr};
use eqn::gf2::{Bit, TwoElementField};
use eqn::parse_error::ParseError;
use eqn::symbol::Symbol;
use eqn::syntax::parse;

type Expr = ElementaryExpr<TwoElementField>;

fn c(i: i64) -> Expr {
    Expr::Const(Bit(i.rem_euclid(2) == 1))
}

fn x() -> Expr {
    Expr::Symbol(Symbol::new("x"))
}

fn y() -> Expr {
    Expr::Symbol(Symbol::new("y"))
}

fn pow(base: Expr, exponent: isize) -> Expr {
    Expr::Pow {
        base: Box::new(base),
        exponent,
    }
}

fn error(src: &str) -> ParseError {
    match parse::<Expr>(src) {
        Ok(_) => panic!("`{src}` should not parse"),
        Err(e) => e,
    }
}

#[test]
fn arithmetic_lowers_structurally() {
    assert_eq!(
        parse::<Expr>("1 - 2x / (x + 1)^-2").unwrap(),
        Expr::Add(vec![
            c(1),
            Expr::Neg(Box::new(Expr::Mul(vec![
                c(2),
                x(),
                pow(pow(Expr::Add(vec![x(), c(1)]), -2), -1),
            ]))),
        ])
    );
    assert_eq!(parse::<Expr>("-3").unwrap(), c(-3));
    assert_eq!(parse::<Expr>("-x").unwrap(), Expr::Neg(Box::new(x())));
}

#[test]
fn calls_lower_to_functions_and_derivatives() {
    assert_eq!(
        parse::<Expr>("2 exp(log(x)) sin(x)^2").unwrap(),
        Expr::Mul(vec![
            c(2),
            Expr::elementary(Elementary::Exp, Expr::elementary(Elementary::Log, x())),
            pow(Expr::elementary(Elementary::Sin, x()), 2),
        ])
    );
    assert_eq!(
        parse::<Expr>("D(cos(x), x)").unwrap(),
        Expr::d(Symbol::new("x"), Expr::elementary(Elementary::Cos, x()))
    );
}

#[test]
fn rejects_misused_functions() {
    assert_eq!(
        error("sin x"),
        ParseError::new("`sin` is a function; write `sin(...)`")
    );
    assert_eq!(
        error("sin(x, y)"),
        ParseError::new("`sin` takes one argument, found 2")
    );
    assert_eq!(
        error("D(x)"),
        ParseError::new("`D(f, x)` takes two arguments, found 1")
    );
    assert_eq!(
        error("D(x, 2)"),
        ParseError::new("`D` differentiates with respect to a symbol, found `2`")
    );
    assert_eq!(error("tan(x)"), ParseError::new("unknown function `tan`"));
    assert_eq!(
        error("x \u{2227} y"),
        ParseError::at(2, "unexpected `\u{2227}`")
    );
    assert_eq!(
        error("x^y"),
        ParseError::new("exponent must be an integer literal, found `y`")
    );
}

#[test]
fn elementary_functions_are_named() {
    assert_eq!("exp".parse::<Elementary>().unwrap(), Elementary::Exp);
    assert_eq!("cos".parse::<Elementary>().unwrap(), Elementary::Cos);
    assert_eq!(
        "tan".parse::<Elementary>().unwrap_err(),
        ParseError::new("unknown function `tan`")
    );
}

#[test]
fn symbols_are_independent_variables() {
    let wrt = Symbol::new("x");
    assert_eq!(x().derivative(&wrt), c(1));
    assert_eq!(y().derivative(&wrt), c(0));
    assert_eq!(c(1).derivative(&wrt), c(0));
}

#[test]
fn products_follow_leibniz() {
    let wrt = Symbol::new("x");
    // d(x y) = 1 y + x 0
    assert_eq!(
        Expr::Mul(vec![x(), y()]).derivative(&wrt),
        Expr::Add(vec![
            Expr::Mul(vec![c(1), y()]),
            Expr::Mul(vec![x(), c(0)]),
        ])
    );
}

#[test]
fn powers_bring_down_their_exponent() {
    let wrt = Symbol::new("x");
    // d(x^3) = 3 x^2 * 1, and 3 is one in the field with two elements
    assert_eq!(
        pow(x(), 3).derivative(&wrt),
        Expr::Mul(vec![c(3), pow(x(), 2), c(1)])
    );
    // d(x^-2) = -2 x^-3 * 1, and -2 is zero there
    assert_eq!(
        pow(x(), -2).derivative(&wrt),
        Expr::Mul(vec![c(0), pow(x(), -3), c(1)])
    );
}

#[test]
fn elementary_functions_follow_the_chain_rule() {
    let wrt = Symbol::new("x");
    let log = Expr::elementary(Elementary::Log, x());
    assert_eq!(log.derivative(&wrt), Expr::Mul(vec![pow(x(), -1), c(1)]));
    let cos = Expr::elementary(Elementary::Cos, y());
    assert_eq!(
        cos.derivative(&wrt),
        Expr::Mul(vec![
            Expr::Neg(Box::new(Expr::elementary(Elementary::Sin, y()))),
            c(0),
        ])
    );
}

#[test]
fn nested_derivatives_are_taken_inner_first() {
    let wrt = Symbol::new("x");
    // d/dx (d/dy (x y)) = d/dx (0 y + x 1)
    let inner = Expr::d(Symbol::new("y"), Expr::Mul(vec![x(), y()]));
    assert_eq!(
        inner.derivative(&wrt),
        Expr::Add(vec![
            Expr::Add(vec![
                Expr::Mul(vec![c(0), y()]),
                Expr::Mul(vec![c(0), c(0)]),
            ]),
            Expr::Add(vec![
                Expr::Mul(vec![c(1), c(1)]),
                Expr::Mul(vec![x(), c(0)]),
            ]),
        ])
    );
}

#[test]
fn substitution_leaves_the_variable_of_a_derivative_alone() {
    let expr = Expr::d(Symbol::new("x"), Expr::Mul(vec![x(), Expr::elementary(Elementary::Sin, y())]));
    assert_eq!(expr.degrees_of_freedom(), 2);
    let replaced = expr.substituted(Symbol::new("x"), &c(1));
    assert!(
        replaced == Expr::d(Symbol::new("x"), Expr::Mul(vec![c(1), Expr::elementary(Elementary::Sin, y())]))
    );
    assert_eq!(replaced.degrees_of_freedom(), 1);
}
