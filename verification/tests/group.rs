use eqn::group::{
    AbelianGroupFormatter, AbelianGroupRewriter, GroupExpr, GroupFormatter, GroupRewriter,
};
use eqn::integer::Z;
use eqn::op::{BinaryOperator, Identity, Inverse};
use eqn::operator_impl::ZAdd;
use eqn::symbol::Symbol;
use eqn::syntax::parse;

type Expr = GroupExpr<ZAdd>;

fn z(v: i64) -> Z {
    Z::from_i64(v)
}

fn c(v: i64) -> Expr {
    Expr::Const(z(v))
}

fn sym(s: &Symbol) -> Expr {
    Expr::Symbol(s.clone())
}

fn inv(e: Expr) -> Expr {
    Expr::Inv(Box::new(e))
}

fn pow(base: Expr, exponent: isize) -> Expr {
    Expr::Pow { base: Box::new(base), exponent }
}

#[test]
fn group_invertible_monoid_is_a_group() {
    assert_eq!(ZAdd::inverse(z(7)), z(-7));
}

#[test]
fn group_inverse_satisfies_both_group_laws() {
    for value in [-10, -1, 0, 1, 10] {
        let inverse = ZAdd::inverse(z(value));

        assert_eq!(ZAdd::apply(inverse.clone(), z(value)), ZAdd::identity());
        assert_eq!(ZAdd::apply(z(value), inverse), ZAdd::identity());
    }
}

#[test]
fn group_abelian_group_operator_is_commutative() {
    for lhs in [-10, -1, 0, 1, 10] {
        for rhs in [-10, -1, 0, 1, 10] {
            assert_eq!(ZAdd::apply(z(lhs), z(rhs)), ZAdd::apply(z(rhs), z(lhs)));
        }
    }
}

#[test]
fn mod_invertible_monoid_is_a_group() {
    assert_eq!(ZAdd::inverse(z(7)), z(-7));
}

#[test]
fn mod_inverse_satisfies_both_group_laws() {
    for value in [-10, -1, 0, 1, 10] {
        let inverse = ZAdd::inverse(z(value));

        assert_eq!(ZAdd::apply(inverse.clone(), z(value)), ZAdd::identity());
        assert_eq!(ZAdd::apply(z(value), inverse), ZAdd::identity());
    }
}

#[test]
fn mod_abelian_group_operator_is_commutative() {
    for lhs in [-10, -1, 0, 1, 10] {
        for rhs in [-10, -1, 0, 1, 10] {
            assert_eq!(ZAdd::apply(z(lhs), z(rhs)), ZAdd::apply(z(rhs), z(lhs)));
        }
    }
}

#[test]
fn group_formatter_preserves_order_and_reduces_inverses() {
    let x = Symbol::new("x");
    let y = Symbol::new("y");
    let expr = Expr::Op(vec![
        c(1),
        c(2),
        sym(&x),
        inv(sym(&x)),
        inv(Expr::Op(vec![sym(&x), sym(&y)])),
    ]);

    assert!(
        GroupFormatter::new().format_expr(expr) == Expr::Op(vec![c(3), inv(sym(&y)), inv(sym(&x))])
    );
}

#[test]
fn abelian_group_formatter_sorts_and_cancels_globally() {
    let x = Symbol::new("x");
    let y = Symbol::new("y");
    let expr = Expr::Op(vec![
        sym(&y),
        inv(sym(&x)),
        c(2),
        sym(&x),
        inv(sym(&y)),
        sym(&x),
        c(-2),
    ]);

    assert!(AbelianGroupFormatter::new().format_expr(expr) == sym(&x));
}

#[test]
fn only_abelian_formatter_reduces_commutators() {
    let a = Symbol::new("a");
    let b = Symbol::new("b");
    let commutator = Expr::Op(vec![sym(&a), sym(&b), pow(sym(&a), -1), pow(sym(&b), -1)]);

    assert!(
        GroupFormatter::new().format_expr(commutator.clone())
            == Expr::Op(vec![sym(&a), sym(&b), inv(sym(&a)), inv(sym(&b))])
    );
    assert!(AbelianGroupFormatter::new().format_expr(commutator) == Expr::Const(ZAdd::identity()));
}

#[test]
fn group_formatter_folds_constant_and_double_inverses() {
    let x = Symbol::new("x");
    let formatter = GroupFormatter::new();

    assert!(formatter.format_expr(inv(c(3))) == c(-3));
    assert!(formatter.format_expr(inv(inv(sym(&x)))) == sym(&x));
}

#[test]
fn group_formatter_normalizes_powers() {
    let x = Symbol::new("x");
    let formatter = GroupFormatter::new();

    assert!(formatter.format_expr(pow(c(3), -3)) == c(-9));
    assert!(formatter.format_expr(pow(sym(&x), 0)) == c(0));
    assert!(formatter.format_expr(pow(pow(sym(&x), 3), -2)) == pow(sym(&x), -6));
    assert!(formatter.format_expr(inv(pow(sym(&x), 2))) == pow(sym(&x), -2));
}

#[test]
fn group_formatters_combine_powers_where_allowed() {
    let x = Symbol::new("x");
    let y = Symbol::new("y");

    let non_commutative = Expr::Op(vec![pow(sym(&x), 2), pow(sym(&x), -3), sym(&y), sym(&x)]);
    assert!(
        GroupFormatter::new().format_expr(non_commutative)
            == Expr::Op(vec![inv(sym(&x)), sym(&y), sym(&x)])
    );

    let abelian = Expr::Op(vec![pow(sym(&y), 2), pow(sym(&x), -3), sym(&x), sym(&y)]);
    assert!(
        AbelianGroupFormatter::new().format_expr(abelian)
            == Expr::Op(vec![pow(sym(&x), -2), pow(sym(&y), 3)])
    );
}

#[test]
fn only_abelian_formatter_distributes_powers_over_products() {
    let x = Symbol::new("x");
    let y = Symbol::new("y");
    let expr = pow(Expr::Op(vec![c(2), sym(&y), inv(sym(&x))]), 3);

    assert!(
        GroupFormatter::new().format_expr(expr.clone())
            == pow(Expr::Op(vec![c(2), sym(&y), inv(sym(&x))]), 3)
    );
    assert!(
        AbelianGroupFormatter::new().format_expr(expr)
            == Expr::Op(vec![c(6), pow(sym(&x), -3), pow(sym(&y), 3)])
    );
}

#[test]
fn group_rewriter_preserves_order_and_reduces_inverses() {
    let x = Symbol::new("x");
    let y = Symbol::new("y");
    let expr = Expr::Op(vec![
        c(1),
        c(2),
        sym(&x),
        inv(sym(&x)),
        inv(Expr::Op(vec![sym(&x), sym(&y)])),
    ]);

    assert!(
        GroupRewriter::new().rewrited_expr(expr) == Expr::Op(vec![c(3), inv(sym(&y)), inv(sym(&x))])
    );
}

#[test]
fn abelian_group_rewriter_sorts_and_cancels_globally() {
    let x = Symbol::new("x");
    let y = Symbol::new("y");
    let expr = Expr::Op(vec![
        sym(&y),
        inv(sym(&x)),
        c(2),
        sym(&x),
        inv(sym(&y)),
        sym(&x),
        c(-2),
    ]);

    assert!(AbelianGroupRewriter::new().rewrited_expr(expr) == sym(&x));
}

#[test]
fn only_abelian_rewriter_reduces_commutators() {
    let a = Symbol::new("a");
    let b = Symbol::new("b");
    let commutator = Expr::Op(vec![sym(&a), sym(&b), pow(sym(&a), -1), pow(sym(&b), -1)]);

    assert!(
        GroupRewriter::new().rewrited_expr(commutator.clone())
            == Expr::Op(vec![sym(&a), sym(&b), inv(sym(&a)), inv(sym(&b))])
    );
    assert!(AbelianGroupRewriter::new().rewrited_expr(commutator) == Expr::Const(ZAdd::identity()));
}

#[test]
fn group_rewriter_folds_constant_and_double_inverses() {
    let x = Symbol::new("x");
    let rewriter = GroupRewriter::new();

    assert!(rewriter.rewrited_expr(inv(c(3))) == c(-3));
    assert!(rewriter.rewrited_expr(inv(inv(sym(&x)))) == sym(&x));
}

#[test]
fn group_rewriter_normalizes_powers() {
    let x = Symbol::new("x");
    let rewriter = GroupRewriter::new();

    assert!(rewriter.rewrited_expr(pow(c(3), -3)) == c(-9));
    assert!(rewriter.rewrited_expr(pow(sym(&x), 0)) == c(0));
    assert!(rewriter.rewrited_expr(pow(pow(sym(&x), 3), -2)) == pow(sym(&x), -6));
    assert!(rewriter.rewrited_expr(inv(pow(sym(&x), 2))) == pow(sym(&x), -2));
}

#[test]
fn group_rewriters_combine_powers_where_allowed() {
    let x = Symbol::new("x");
    let y = Symbol::new("y");

    let non_commutative = Expr::Op(vec![pow(sym(&x), 2), pow(sym(&x), -3), sym(&y), sym(&x)]);
    assert!(
        GroupRewriter::new().rewrited_expr(non_commutative)
            == Expr::Op(vec![inv(sym(&x)), sym(&y), sym(&x)])
    );

    let abelian = Expr::Op(vec![pow(sym(&y), 2), pow(sym(&x), -3), sym(&x), sym(&y)]);
    assert!(
        AbelianGroupRewriter::new().rewrited_expr(abelian)
            == Expr::Op(vec![pow(sym(&x), -2), pow(sym(&y), 3)])
    );
}

#[test]
fn only_abelian_rewriter_distributes_powers_over_products() {
    let x = Symbol::new("x");
    let y = Symbol::new("y");
    let expr = pow(Expr::Op(vec![c(2), sym(&y), inv(sym(&x))]), 3);

    assert!(
        GroupRewriter::new().rewrited_expr(expr.clone())
            == pow(Expr::Op(vec![c(2), sym(&y), inv(sym(&x))]), 3)
    );
    assert!(
        AbelianGroupRewriter::new().rewrited_expr(expr)
            == Expr::Op(vec![c(6), pow(sym(&x), -3), pow(sym(&y), 3)])
    );
}

#[test]
fn group_group_expression_supports_substitution() {
    let x = Symbol::new("x");
    let y = Symbol::new("y");
    let expr = Expr::Op(vec![
        sym(&x),
        inv(sym(&x)),
        pow(Expr::Op(vec![sym(&x), sym(&y)]), 2),
    ]);

    assert_eq!(expr.degrees_of_freedom(), 2);
    assert!(
        expr.substituted(x, &c(4))
            == Expr::Op(vec![c(4), inv(c(4)), pow(Expr::Op(vec![c(4), sym(&y)]), 2)])
    );
}

#[test]
fn mod_group_expression_supports_substitution() {
    let product = parse::<Expr>("x * inv(x) * (x * y)^2").unwrap();

    assert_eq!(product.degrees_of_freedom(), 2);
    assert!(
        product.substituted(Symbol::new("x"), &parse::<Expr>("4").unwrap())
            == parse::<Expr>("4 * inv(4) * (4 * y)^2").unwrap()
    );
}

#[test]
fn substituted_copies_are_not_searched_again() {
    let x = Symbol::new("x");
    let y = Symbol::new("y");
    let mut expr = Expr::Op(vec![sym(&x), pow(sym(&y), 3)]);
    expr.substitute(x.clone(), &Expr::Op(vec![sym(&x), sym(&x)]));
    assert!(expr == Expr::Op(vec![Expr::Op(vec![sym(&x), sym(&x)]), pow(sym(&y), 3)]));
    assert_eq!(expr.degrees_of_freedom(), 2);
    assert_eq!(c(5).degrees_of_freedom(), 0);
}

#[test]
fn group_rewriting_twice_changes_nothing() {
    let x = sym(&Symbol::new("x"));
    let y = sym(&Symbol::new("y"));
    let inputs = [
        c(0),
        Expr::Op(vec![]),
        pow(x.clone(), 0),
        inv(inv(x.clone())),
        pow(Expr::Op(vec![x.clone(), y.clone()]), 2),
        Expr::Op(vec![
            x.clone(),
            inv(x.clone()),
            c(3),
            c(-3),
            pow(x.clone(), -2),
            inv(pow(x.clone(), 2)),
            y,
            x,
        ]),
    ];
    for expr in inputs {
        let once = GroupRewriter::new().rewrited_expr(expr.clone());
        assert!(GroupRewriter::new().rewrited_expr(once.clone()) == once);
        let once = AbelianGroupRewriter::new().rewrited_expr(expr);
        assert!(AbelianGroupRewriter::new().rewrited_expr(once.clone()) == once);
    }
}

#[test]
fn a_product_merged_back_to_the_first_power_is_spliced() {
    let x = Symbol::new("x");
    let y = Symbol::new("y");
    let z = Symbol::new("z");
    let xy = Expr::Op(vec![sym(&x), sym(&y)]);
    let expr = Expr::Op(vec![sym(&z), pow(xy.clone(), 3), pow(xy, -2)]);
    let once = GroupRewriter::new().rewrited_expr(expr);
    assert!(once == Expr::Op(vec![sym(&z), sym(&x), sym(&y)]));
    assert!(GroupRewriter::new().rewrited_expr(once.clone()) == once);
}
