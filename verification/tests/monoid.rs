use eqn::integer::Z;
use eqn::monoid::{
    CommutativeMonoidFormatter, CommutativeMonoidRewriter, MonoidExpr,
    NonCommutativeMonoidFormatter, NonCommutativeMonoidRewriter,
};
use eqn::monoid_parser::{MonoidExprToken, MonoidParser};
use eqn::operator_impl::ZAdd;
use eqn::symbol::Symbol;

type Expr = MonoidExpr<ZAdd>;

fn c(v: i64) -> Expr {
    Expr::Const(Z::from_i64(v))
}

#[test]
fn monoid_test_simplify_op() {
    let x = Symbol::new("x");
    let expr = Expr::Op(vec![c(1), c(2), Expr::Symbol(x.clone())]);
    let simplified = NonCommutativeMonoidFormatter::new().format_expr(expr);

    assert!(simplified == Expr::Op(vec![c(3), Expr::Symbol(x)]));
}

#[test]
fn monoid_test_simplify_with_commutativity() {
    let x = Symbol::new("x");
    let y = Symbol::new("y");
    let expr = Expr::Op(vec![
        c(1),
        Expr::Op(vec![c(2), Expr::Symbol(y.clone())]),
        c(0),
        Expr::Op(vec![Expr::Symbol(x.clone()), c(3)]),
        c(4),
        Expr::Symbol(x.clone()),
    ]);
    let simplified = CommutativeMonoidFormatter::new().format_expr(expr);

    assert!(
        simplified
            == Expr::Op(vec![
                c(10),
                Expr::Symbol(x.clone()),
                Expr::Symbol(x),
                Expr::Symbol(y),
            ])
    );
}

#[test]
fn rewriter_test_simplify_op() {
    let x = Symbol::new("x");
    let expr = Expr::Op(vec![c(1), c(2), Expr::Symbol(x.clone())]);
    let simplified = NonCommutativeMonoidRewriter::new().rewrited_expr(expr);

    assert!(simplified == Expr::Op(vec![c(3), Expr::Symbol(x)]));
}

#[test]
fn rewriter_test_simplify_with_commutativity() {
    let x = Symbol::new("x");
    let y = Symbol::new("y");
    let expr = Expr::Op(vec![
        c(1),
        Expr::Op(vec![c(2), Expr::Symbol(y.clone())]),
        c(0),
        Expr::Op(vec![Expr::Symbol(x.clone()), c(3)]),
        c(4),
        Expr::Symbol(x.clone()),
    ]);
    let simplified = CommutativeMonoidRewriter::new().rewrited_expr(expr);

    assert!(
        simplified
            == Expr::Op(vec![
                c(10),
                Expr::Symbol(x.clone()),
                Expr::Symbol(x),
                Expr::Symbol(y),
            ])
    );
}

fn assert_idempotent_noncommutative(expr: Expr) {
    let rewriter = NonCommutativeMonoidRewriter::new();
    let once = rewriter.rewrited_expr(expr);
    assert_eq!(rewriter.rewrited_expr(once.clone()), once);
}

fn assert_idempotent_commutative(expr: Expr) {
    let rewriter = CommutativeMonoidRewriter::new();
    let once = rewriter.rewrited_expr(expr);
    assert_eq!(rewriter.rewrited_expr(once.clone()), once);
}

#[test]
fn rewriter_normalize_is_idempotent() {
    let x = Symbol::new("x");
    let y = Symbol::new("y");
    let inputs = [
        c(0),
        Expr::Symbol(x.clone()),
        Expr::Op(vec![]),
        Expr::Op(vec![
            c(1),
            Expr::Op(vec![c(2), Expr::Symbol(y)]),
            c(0),
            Expr::Op(vec![Expr::Symbol(x.clone()), c(3)]),
            Expr::Symbol(x),
        ]),
    ];
    for expr in inputs {
        assert_idempotent_noncommutative(expr.clone());
        assert_idempotent_commutative(expr);
    }
}

#[test]
fn monoid_substitution_replaces_every_occurrence() {
    let x = Symbol::new("x");
    let y = Symbol::new("y");
    let expr = Expr::Op(vec![Expr::Symbol(x.clone()), Expr::Op(vec![Expr::Symbol(y.clone()), Expr::Symbol(x.clone())])]);
    assert_eq!(expr.degrees_of_freedom(), 2);
    let replaced = expr.substituted(x, &c(7));
    assert!(replaced == Expr::Op(vec![c(7), Expr::Op(vec![Expr::Symbol(y), c(7)])]));
    assert_eq!(replaced.degrees_of_freedom(), 1);
}

fn tokens(spelled: &[&str]) -> Vec<MonoidExprToken> {
    spelled
        .iter()
        .map(|t| if *t == "*" { MonoidExprToken::Op } else { MonoidExprToken::Symbol(t.to_string()) })
        .collect()
}

#[test]
fn the_monoid_parser_reads_symbols_between_operators() {
    let x = Expr::Symbol(Symbol::new("x"));
    let y = Expr::Symbol(Symbol::new("y"));
    let z = Expr::Symbol(Symbol::new("z"));
    let parsed = MonoidParser::<ZAdd>::new(tokens(&["x", "*", "y", "*", "z"])).parse().unwrap().unwrap();
    assert!(parsed == Expr::Op(vec![x.clone(), y, z]));
    let single = MonoidParser::<ZAdd>::new(tokens(&["x"])).parse().unwrap().unwrap();
    assert!(single == x);
    assert!(MonoidParser::<ZAdd>::new(Vec::new()).parse().unwrap().is_none());
}

#[test]
fn the_monoid_parser_rejects_misplaced_operators() {
    let error = |ts: &[&str]| match MonoidParser::<ZAdd>::new(tokens(ts)).parse() {
        Err(e) => e.message().to_string(),
        Ok(_) => panic!("should not parse"),
    };
    assert_eq!(error(&["*", "x"]), "Expression start with operator");
    assert_eq!(error(&["x", "*"]), "Expected a term, got eof");
    assert_eq!(error(&["x", "*", "*"]), "Expected a term, got operator");
}

#[test]
fn constants_folding_to_the_identity_vanish() {
    let x = Expr::Symbol(Symbol::new("x"));
    let expr = Expr::Op(vec![x.clone(), c(1), c(-1)]);
    let once = NonCommutativeMonoidRewriter::new().rewrited_expr(expr);
    assert!(once == x);
    assert!(NonCommutativeMonoidRewriter::new().rewrited_expr(once.clone()) == once);
}
