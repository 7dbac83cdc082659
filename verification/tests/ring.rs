use eqn::integer::Z;
use eqn::parse_error::ParseError;
use eqn::ring::Integers;
use eqn::ring_expr::{CommutativeRingRewriter, RingExpr, RingRewriter};
use eqn::semiring_expr::{SemiRingExpr, SemiRingRewriter};
use eqn::symbol::Symbol;
use eqn::syntax::parse;

type Expr = SemiRingExpr<Integers>;
type RExpr = RingExpr<Integers>;

fn c(v: i64) -> Expr {
    Expr::Const(Z::from_i64(v))
}

fn sym(name: &str) -> Expr {
    Expr::Symbol(Symbol::new(name))
}

fn pow(base: Expr, exponent: usize) -> Expr {
    Expr::Pow {
        base: Box::new(base),
        exponent,
    }
}

fn rc(v: i64) -> RExpr {
    RExpr::Const(Z::from_i64(v))
}

fn rx() -> RExpr {
    RExpr::Symbol(Symbol::new("x"))
}

fn negate(e: RExpr) -> RExpr {
    RExpr::Neg(Box::new(e))
}

fn error(src: &str) -> ParseError {
    match parse::<Expr>(src) {
        Ok(_) => panic!("`{src}` should not parse"),
        Err(e) => e,
    }
}

fn rerror(src: &str) -> ParseError {
    match parse::<RExpr>(src) {
        Ok(_) => panic!("`{src}` should not parse"),
        Err(e) => e,
    }
}

#[test]
fn ring_test_simplify_add_mul_pow() {
    // 1 + (2 * 3) + x + 0 + (2)^3  ==>  15 + x
    let expr = Expr::Add(vec![
        c(1),
        Expr::Mul(vec![c(2), c(3)]),
        sym("x"),
        c(0),
        pow(Expr::Add(vec![c(2)]), 3),
    ]);
    assert!(expr.simplify() == Expr::Add(vec![c(15), sym("x")]));
}

#[test]
fn ring_test_simplify_mul_annihilation_and_identity() {
    let zero = Expr::Mul(vec![sym("x"), c(0), sym("y")]);
    assert!(zero.simplify() == c(0));

    let ident = Expr::Mul(vec![c(1), sym("x")]);
    assert!(ident.simplify() == sym("x"));
}

#[test]
fn ring_test_distribution_and_collection() {
    // (1 + x) * (1 + x) ==> 1 + 2*x + x*x
    let expr = Expr::Mul(vec![
        Expr::Add(vec![c(1), sym("x")]),
        Expr::Add(vec![c(1), sym("x")]),
    ]);
    assert!(
        expr.simplify()
            == Expr::Add(vec![
                c(1),
                Expr::Mul(vec![c(2), sym("x")]),
                Expr::Mul(vec![sym("x"), sym("x")]),
            ])
    );

    // x + x + y + x ==> 3*x + y
    let expr = Expr::Add(vec![sym("x"), sym("x"), sym("y"), sym("x")]);
    assert!(
        expr.simplify()
            == Expr::Add(vec![Expr::Mul(vec![c(3), sym("x")]), sym("y")])
    );
}

#[test]
fn ring_test_simplify_pow() {
    // (x^2)^3 ==> x^6
    let nested = pow(pow(sym("x"), 2), 3);
    assert!(nested.simplify() == pow(sym("x"), 6));

    // x^1 ==> x
    assert!(pow(sym("x"), 1).simplify() == sym("x"));
}

#[test]
fn simplifying_twice_changes_nothing() {
    let expr = Expr::Mul(vec![
        Expr::Add(vec![c(2), sym("x"), sym("y")]),
        Expr::Add(vec![sym("x"), c(3)]),
        pow(sym("y"), 2),
    ]);
    let once = expr.simplify();
    let twice = once.clone().simplify();
    assert!(once == twice);
}

#[test]
fn constants_fold_in_products_and_powers() {
    // 2 * 3 * x * 4 ==> 6 * x * 4 (only adjacent constants fold)
    let expr = Expr::Mul(vec![c(2), c(3), sym("x"), c(4)]);
    assert!(expr.simplify() == Expr::Mul(vec![c(6), sym("x"), c(4)]));
    // 3^4 ==> 81
    assert!(pow(c(3), 4).simplify() == c(81));
    // an empty sum is zero and an empty product is one
    assert!(Expr::Add(vec![]).simplify() == c(0));
    assert!(Expr::Mul(vec![]).simplify() == c(1));
}

#[test]
fn semi_ring_rewriter_matches_simplify() {
    let rewriter = SemiRingRewriter::<Integers>::new();
    let expr = Expr::Add(vec![sym("x"), c(2), sym("x"), c(-2)]);
    let expected = Expr::Mul(vec![c(2), sym("x")]);
    assert!(rewriter.rewrited_expr(expr.clone()) == expected);
    let mut in_place = expr;
    rewriter.rewrite_expr(&mut in_place);
    assert!(in_place == expected);
}

#[test]
fn semi_ring_syntax() {
    let x = sym("x");
    assert!(
        parse::<Expr>("1 + 2 x + x^2 * (x + 1)").unwrap()
            == Expr::Add(vec![
                c(1),
                Expr::Mul(vec![c(2), x.clone()]),
                Expr::Mul(vec![pow(x.clone(), 2), Expr::Add(vec![x, c(1)])]),
            ])
    );
}

#[test]
fn semi_rings_have_no_inverses() {
    assert_eq!(error("x - 1"), ParseError::at(2, "unexpected `-`"));
    assert_eq!(
        error("-x"),
        ParseError::new("semi-ring expressions have no `-` operator")
    );
    assert_eq!(error("x / 2"), ParseError::at(2, "unexpected `/`"));
    assert_eq!(
        error("x^0"),
        ParseError::new("exponent must be a positive integer literal, found `0`")
    );
    assert_eq!(
        error("x^-1"),
        ParseError::new("exponent must be a positive integer literal, found `-1`")
    );
    assert!(parse::<Expr>("-1").is_ok(), "a negative constant is fine");
}

#[test]
fn ring_syntax_adds_negation() {
    assert!(
        parse::<RExpr>("2 x - 5 x + -(x)").unwrap()
            == RExpr::Add(vec![
                RExpr::Mul(vec![rc(2), rx()]),
                negate(RExpr::Mul(vec![rc(5), rx()])),
                negate(rx()),
            ])
    );
    assert!(parse::<RExpr>("-3").unwrap() == rc(-3));
    assert!(parse::<RExpr>("--x").unwrap() == negate(negate(rx())));
    assert_eq!(rerror("x / 2"), ParseError::at(2, "unexpected `/`"));
}

#[test]
fn ring_rewriter_cancels_negations() {
    let rewriter = RingRewriter::<Integers>::new();
    // x - x ==> 0
    let expr = RExpr::Add(vec![rx(), negate(rx())]);
    assert!(rewriter.rewrited_expr(expr) == rc(0));
    // --x ==> x
    assert!(rewriter.rewrited_expr(negate(negate(rx()))) == rx());
}

fn ry() -> RExpr {
    RExpr::Symbol(Symbol::new("y"))
}

#[test]
fn ring_test_coefficient_folding() {
    // 2*x + 3*x ==> 5*x
    let expr = Expr::Add(vec![
        Expr::Mul(vec![c(2), sym("x")]),
        Expr::Mul(vec![c(3), sym("x")]),
    ]);
    assert!(SemiRingRewriter::<Integers>::new().rewrited_expr(expr) == Expr::Mul(vec![c(5), sym("x")]));
}

#[test]
fn ring_test_ring_rewriter_neg() {
    let f = RingRewriter::<Integers>::new();
    assert!(f.rewrited_expr(RExpr::Add(vec![rx(), negate(rx())])) == rc(0));
    assert!(f.rewrited_expr(negate(negate(rx()))) == rx());
    assert!(f.rewrited_expr(negate(rc(3))) == rc(-3));
    let diff = RExpr::Add(vec![
        RExpr::Mul(vec![rc(2), rx()]),
        negate(RExpr::Mul(vec![rc(5), rx()])),
    ]);
    assert!(f.rewrited_expr(diff) == RExpr::Mul(vec![rc(-3), rx()]));
}

#[test]
fn ring_test_commutative_ring_rewriter() {
    let f = CommutativeRingRewriter::<Integers>::new();
    // x*y + y*x ==> 2*x*y
    let sum = RExpr::Add(vec![
        RExpr::Mul(vec![rx(), ry()]),
        RExpr::Mul(vec![ry(), rx()]),
    ]);
    assert!(f.rewrited_expr(sum) == RExpr::Mul(vec![rc(2), rx(), ry()]));

    // y * x * 2 * x ==> 2 * x^2 * y
    let prod = RExpr::Mul(vec![ry(), rx(), rc(2), rx()]);
    assert!(
        f.rewrited_expr(prod)
            == RExpr::Mul(vec![
                rc(2),
                RExpr::Pow {
                    base: Box::new(rx()),
                    exponent: 2,
                },
                ry(),
            ])
    );
}

#[test]
fn commutative_sums_sort_their_terms() {
    let f = CommutativeRingRewriter::<Integers>::new();
    // y + x^2 + x ==> x + y + x^2 (symbols before powers), constants first
    let sum = RExpr::Add(vec![
        ry(),
        RExpr::Pow {
            base: Box::new(rx()),
            exponent: 2,
        },
        rx(),
        rc(4),
    ]);
    assert!(
        f.rewrited_expr(sum)
            == RExpr::Add(vec![
                rc(4),
                rx(),
                ry(),
                RExpr::Pow {
                    base: Box::new(rx()),
                    exponent: 2,
                },
            ])
    );
    // x * x^2 * y^0-free product collects into one power
    let prod = RExpr::Mul(vec![
        rx(),
        RExpr::Pow {
            base: Box::new(rx()),
            exponent: 2,
        },
    ]);
    assert!(
        f.rewrited_expr(prod)
            == RExpr::Pow {
                base: Box::new(rx()),
                exponent: 3,
            }
    );
}

fn expr(src: &str) -> Expr {
    parse::<Expr>(src).unwrap()
}

fn ring(src: &str) -> RExpr {
    parse::<RExpr>(src).unwrap()
}

fn semi_ring_rewrite(src: &str) -> Expr {
    SemiRingRewriter::<Integers>::new().rewrited_expr(expr(src))
}

fn ring_rewrite(src: &str) -> RExpr {
    RingRewriter::<Integers>::new().rewrited_expr(ring(src))
}

fn commutative_ring_rewrite(src: &str) -> RExpr {
    CommutativeRingRewriter::<Integers>::new().rewrited_expr(ring(src))
}

#[test]
fn rewriter_test_simplify_add_mul_pow() {
    assert!(semi_ring_rewrite("1 + 2 * 3 + x + 0 + 2^3") == expr("15 + x"));
}

#[test]
fn rewriter_test_simplify_mul_annihilation_and_identity() {
    assert!(semi_ring_rewrite("x * 0 * y") == expr("0"));
    assert!(semi_ring_rewrite("1 * x") == expr("x"));
}

#[test]
fn rewriter_test_distribution_and_collection() {
    assert!(semi_ring_rewrite("(1 + x) * (1 + x)") == expr("1 + 2 x + x x"));
    assert!(semi_ring_rewrite("x + x + y + x") == expr("3 x + y"));
}

#[test]
fn rewriter_test_coefficient_folding() {
    assert!(semi_ring_rewrite("2 x + 3 x") == expr("5 x"));
}

#[test]
fn rewriter_test_simplify_pow() {
    assert!(semi_ring_rewrite("(x^2)^3") == expr("x^6"));
    assert!(semi_ring_rewrite("x^1") == expr("x"));
}

#[test]
fn rewriter_test_ring_rewriter_neg() {
    assert!(ring_rewrite("x + -x") == ring("0"));
    assert!(ring_rewrite("-(-x)") == ring("x"));
    assert!(ring_rewrite("-(3)") == ring("-3"));
    assert!(ring_rewrite("2 x - 5 x") == ring("-3 x"));
}

#[test]
fn rewriter_test_commutative_ring_rewriter() {
    assert!(commutative_ring_rewrite("x y + y x") == ring("2 x y"));
    assert!(commutative_ring_rewrite("y x 2 x") == ring("2 x^2 y"));
}

#[test]
fn ring_expressions_support_substitution() {
    let square = |e: RExpr| RExpr::Pow {
        base: Box::new(e),
        exponent: 2,
    };
    let sum_of_terms = RExpr::Add(vec![RExpr::Mul(vec![rx(), ry()]), negate(square(rx()))]);
    assert_eq!(sum_of_terms.degrees_of_freedom(), 2);
    assert!(
        sum_of_terms.substituted(Symbol::new("x"), &rc(3))
            == RExpr::Add(vec![RExpr::Mul(vec![rc(3), ry()]), negate(square(rc(3)))])
    );

    let mut sum = expr("x + 2 y");
    sum.substitute(Symbol::new("y"), &sym("x"));
    assert!(sum == expr("x + 2 x"));
    assert_eq!(sum.degrees_of_freedom(), 1);
}

#[test]
fn ring_rewriting_twice_changes_nothing() {
    let semi_ring_inputs = [
        expr("0"),
        Expr::Add(vec![]),
        expr("x + x + 2"),
        expr("2 (x + y) x"),
        expr("(x + y)^2"),
        expr("x 0"),
    ];
    for e in semi_ring_inputs {
        let f = SemiRingRewriter::<Integers>::new();
        let once = f.rewrited_expr(e);
        assert!(f.rewrited_expr(once.clone()) == once);
    }

    let ring_inputs = [ring("x + -x"), ring("-(-x)"), ring("-(3) (x - y) y"), ring("(-x)^2")];
    for e in ring_inputs {
        let f = RingRewriter::<Integers>::new();
        let once = f.rewrited_expr(e.clone());
        assert!(f.rewrited_expr(once.clone()) == once);
        let g = CommutativeRingRewriter::<Integers>::new();
        let once = g.rewrited_expr(e);
        assert!(g.rewrited_expr(once.clone()) == once);
    }
}
