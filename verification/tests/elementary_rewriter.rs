use eqn::elementary::{Elementary, ElementaryExpr};
use eqn::elementary_rewriter::ElementaryRewriter;
use eqn::gf2::{Bit, TwoElementField};
use eqn::symbol::Symbol;

type Expr = ElementaryExpr<TwoElementField>;

fn c(i: i64) -> Expr {
    Expr::Const(Bit(i.rem_euclid(2) == 1))
}

fn xs() -> Symbol {
    Symbol::new("x")
}

fn ys() -> Symbol {
    Symbol::new("y")
}

fn x() -> Expr {
    Expr::Symbol(xs())
}

fn y() -> Expr {
    Expr::Symbol(ys())
}

fn pow(base: Expr, exponent: isize) -> Expr {
    Expr::Pow {
        base: Box::new(base),
        exponent,
    }
}

fn fnc(kind: Elementary, arg: Expr) -> Expr {
    Expr::elementary(kind, arg)
}

fn d(wrt: Symbol, inner: Expr) -> Expr {
    Expr::d(wrt, inner)
}

fn fmt(expr: Expr) -> Expr {
    ElementaryRewriter::new().rewrited_expr(expr)
}

fn assert_idempotent(expr: Expr) {
    let once = fmt(expr);
    assert_eq!(fmt(once.clone()), once);
}

#[test]
fn integer_powers() {
    assert_eq!(fmt(Expr::Mul(vec![x(), pow(x(), -1)])), c(1));
    assert_eq!(fmt(pow(x(), 0)), c(1));
    assert_eq!(fmt(Expr::Mul(vec![pow(x(), 3), pow(x(), -1)])), pow(x(), 2));
}

#[test]
fn a_square_over_two_elements_loses_its_middle_term() {
    // (x + 1)^2 = 1 + 2x + x^2, and 2 = 0 in the two-element field.
    let expr = pow(Expr::Add(vec![x(), c(1)]), 2);
    assert_eq!(fmt(expr), Expr::Add(vec![c(1), pow(x(), 2)]));
}

#[test]
fn a_product_of_two_sums_is_multiplied_out_and_sorted() {
    // (x + 1)(y + 1) = 1 + x + y + xy: the constant first, then by factor
    // lists.
    let expr = Expr::Mul(vec![Expr::Add(vec![x(), c(1)]), Expr::Add(vec![y(), c(1)])]);
    assert_eq!(
        fmt(expr),
        Expr::Add(vec![c(1), x(), Expr::Mul(vec![x(), y()]), y()])
    );
}

#[test]
fn like_terms_cancel_in_characteristic_two() {
    assert_eq!(fmt(Expr::Add(vec![x(), x()])), c(0));
    assert_eq!(fmt(Expr::Add(vec![x(), y(), x()])), y());
}

#[test]
fn inverted_sums_stay_single_factors_sorted_by_structure() {
    let expr = Expr::Mul(vec![
        pow(Expr::Add(vec![y(), c(1)]), -1),
        pow(Expr::Add(vec![x(), c(1)]), -1),
    ]);
    assert_eq!(
        fmt(expr),
        Expr::Mul(vec![
            pow(Expr::Add(vec![c(1), x()]), -1),
            pow(Expr::Add(vec![c(1), y()]), -1),
        ])
    );
}

#[test]
fn elementary_function_folding() {
    assert_eq!(fmt(fnc(Elementary::Exp, fnc(Elementary::Log, x()))), x());
    assert_eq!(fmt(fnc(Elementary::Log, fnc(Elementary::Exp, x()))), x());
    assert_eq!(fmt(fnc(Elementary::Exp, c(0))), c(1));
    assert_eq!(fmt(fnc(Elementary::Log, c(1))), c(0));
    assert_eq!(fmt(fnc(Elementary::Sin, c(0))), c(0));
    assert_eq!(fmt(fnc(Elementary::Cos, c(0))), c(1));
    assert_eq!(fmt(fnc(Elementary::Sin, x())), fnc(Elementary::Sin, x()));
}

#[test]
fn negation_is_a_coefficient() {
    // -x is x in characteristic two; -(x y) likewise.
    assert_eq!(fmt(Expr::Neg(Box::new(x()))), x());
    assert_eq!(
        fmt(Expr::Neg(Box::new(Expr::Mul(vec![y(), x()])))),
        Expr::Mul(vec![x(), y()])
    );
}

#[test]
fn derivatives_in_characteristic_two() {
    assert_eq!(fmt(d(xs(), pow(x(), 2))), c(0));
    assert_eq!(fmt(d(xs(), pow(x(), 3))), pow(x(), 2));
    assert_eq!(
        fmt(d(xs(), fnc(Elementary::Sin, x()))),
        fnc(Elementary::Cos, x())
    );
    assert_eq!(fmt(d(xs(), Expr::Mul(vec![x(), y()]))), y());
    assert_eq!(fmt(d(ys(), Expr::Mul(vec![x(), y()]))), x());
    assert_eq!(fmt(d(xs(), fnc(Elementary::Log, x()))), pow(x(), -1));
    assert_eq!(
        fmt(d(xs(), fnc(Elementary::Exp, x()))),
        fnc(Elementary::Exp, x())
    );
    assert_eq!(
        fmt(d(xs(), fnc(Elementary::Cos, x()))),
        fnc(Elementary::Sin, x())
    );
    assert_eq!(fmt(d(xs(), d(xs(), pow(x(), 3)))), c(0));
    assert_eq!(fmt(d(xs(), c(5))), c(0));
}

#[test]
fn derive_agrees_with_the_d_route() {
    assert_eq!(fmt(x().derivative(&xs())), c(1));
    assert_eq!(
        fmt(fnc(Elementary::Sin, x()).derivative(&xs())),
        fmt(d(xs(), fnc(Elementary::Sin, x())))
    );
}

#[test]
fn inverting_an_inverse_sum_expands() {
    // ((x+1)^-1)^-2 flips the sum's exponent back positive, which must
    // expand rather than survive as a sum factor with a positive exponent.
    let expr = pow(pow(Expr::Add(vec![x(), c(1)]), -1), -2);
    let expected = fmt(pow(Expr::Add(vec![x(), c(1)]), 2));
    let actual = fmt(expr.clone());
    assert_eq!(actual, expected);
    assert_idempotent(expr);
}

#[test]
fn rewriting_in_place_gives_the_canonical_form() {
    let mut expr = Expr::Mul(vec![y(), x(), x()]);
    ElementaryRewriter::new().rewrite_expr(&mut expr);
    assert_eq!(expr, Expr::Mul(vec![pow(x(), 2), y()]));
}

#[test]
fn elementary_normalize_is_idempotent() {
    let inputs = [
        Expr::Mul(vec![x(), pow(x(), -1)]),
        pow(x(), 0),
        Expr::Mul(vec![pow(x(), 3), pow(x(), -1)]),
        pow(Expr::Add(vec![x(), c(1)]), 2),
        Expr::Mul(vec![
            pow(Expr::Add(vec![x(), c(1)]), -1),
            pow(Expr::Add(vec![x(), c(2)]), -1),
        ]),
        fnc(Elementary::Exp, fnc(Elementary::Log, x())),
        fnc(Elementary::Exp, c(0)),
        fnc(Elementary::Log, c(1)),
        fnc(Elementary::Cos, c(0)),
        d(xs(), pow(x(), 2)),
        d(xs(), fnc(Elementary::Sin, x())),
        d(xs(), Expr::Mul(vec![x(), y()])),
        d(xs(), fnc(Elementary::Log, x())),
        d(xs(), fnc(Elementary::Exp, Expr::Mul(vec![c(2), x()]))),
        d(xs(), pow(fnc(Elementary::Sin, x()), 2)),
        d(xs(), d(xs(), pow(x(), 3))),
        d(xs(), c(5)),
    ];
    for expr in inputs {
        assert_idempotent(expr);
    }
}
