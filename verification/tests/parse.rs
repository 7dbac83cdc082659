use eqn::ast::Ast;
use eqn::grammar::{Assoc, Grammar};
use eqn::group::GroupExpr;
use eqn::integer::Z;
use eqn::lexer::{tokenize, Token};
use eqn::monoid::MonoidExpr;
use eqn::operator_impl::ZAdd;
use eqn::parse_error::ParseError;
use eqn::symbol::Symbol;
use eqn::syntax::parse;

fn tokens(src: &str) -> Vec<Token> {
    tokenize(src).unwrap().into_iter().map(|(t, _)| t).collect()
}

#[test]
fn tokenizes_operators_and_atoms() {
    assert_eq!(
        tokens("x_1' + 2.5*(y) - z/w^2, θ ∧ d /\\ e"),
        vec![
            Token::Ident("x_1'".into()),
            Token::Plus,
            Token::Number("2.5".into()),
            Token::Star,
            Token::LParen,
            Token::Ident("y".into()),
            Token::RParen,
            Token::Minus,
            Token::Ident("z".into()),
            Token::Slash,
            Token::Ident("w".into()),
            Token::Caret,
            Token::Number("2".into()),
            Token::Comma,
            Token::Ident("θ".into()),
            Token::Wedge,
            Token::Ident("d".into()),
            Token::Wedge,
            Token::Ident("e".into()),
        ]
    );
}

#[test]
fn records_byte_offsets() {
    let offsets: Vec<usize> = tokenize("θ + 12")
        .unwrap()
        .into_iter()
        .map(|(_, at)| at)
        .collect();
    assert_eq!(offsets, vec![0, 3, 5]);
}

#[test]
fn a_trailing_dot_is_not_part_of_a_number() {
    assert_eq!(
        tokenize("1.x").unwrap_err(),
        ParseError::at(1, "unexpected character `.`")
    );
}

#[test]
fn rejects_unknown_characters() {
    assert_eq!(
        tokenize("x $ y").unwrap_err(),
        ParseError::at(2, "unexpected character `$`")
    );
}

/// The usual arithmetic table, plus `!` postfix and `\oplus` infix.
fn grammar() -> Grammar {
    Grammar::new()
        .infix("+", 1, Assoc::Left)
        .unwrap()
        .infix("-", 1, Assoc::Left)
        .unwrap()
        .infix("\u{2295}", 1, Assoc::Left)
        .unwrap()
        .infix("*", 2, Assoc::Left)
        .unwrap()
        .infix("/", 2, Assoc::Left)
        .unwrap()
        .juxtaposition("*")
        .unwrap()
        .prefix("-", 3)
        .unwrap()
        .infix("^", 4, Assoc::Right)
        .unwrap()
        .postfix("!", 5)
        .unwrap()
}

fn parse_ast(src: &str) -> Ast {
    grammar().parse(src).unwrap()
}

fn error(src: &str) -> ParseError {
    grammar().parse(src).unwrap_err()
}

fn num(text: &str) -> Ast {
    Ast::Number(text.into())
}

fn id(name: &str) -> Ast {
    Ast::Ident(name.into())
}

fn infix(op: &str, lhs: Ast, rhs: Ast) -> Ast {
    Ast::Infix(op.into(), Box::new(lhs), Box::new(rhs))
}

fn neg(inner: Ast) -> Ast {
    Ast::Prefix("-".into(), Box::new(inner))
}

fn group(inner: Ast) -> Ast {
    Ast::Group(Box::new(inner))
}

fn source(ast: &Ast) -> String {
    ast.render().into_iter().collect()
}

#[test]
fn higher_precedence_binds_tighter() {
    assert_eq!(
        parse_ast("1 + 2 * x"),
        infix("+", num("1"), infix("*", num("2"), id("x")))
    );
    assert_eq!(
        parse_ast("a - b / c"),
        infix("-", id("a"), infix("/", id("b"), id("c")))
    );
    assert_eq!(
        parse_ast("a \u{2295} b * c"),
        infix("\u{2295}", id("a"), infix("*", id("b"), id("c")))
    );
}

#[test]
fn left_associative_operators_chain_leftwards() {
    assert_eq!(
        parse_ast("a - b + c"),
        infix("+", infix("-", id("a"), id("b")), id("c"))
    );
    assert_eq!(
        parse_ast("a / b * c"),
        infix("*", infix("/", id("a"), id("b")), id("c"))
    );
}

#[test]
fn right_associative_operators_chain_rightwards() {
    assert_eq!(
        parse_ast("x ^ 2 ^ 3"),
        infix("^", id("x"), infix("^", num("2"), num("3")))
    );
    assert_eq!(
        parse_ast("2 * x ^ 2"),
        infix("*", num("2"), infix("^", id("x"), num("2")))
    );
}

#[test]
fn prefix_operators_take_their_precedence() {
    assert_eq!(parse_ast("-x ^ 2"), neg(infix("^", id("x"), num("2"))));
    assert_eq!(parse_ast("-2 * x"), infix("*", neg(num("2")), id("x")));
    assert_eq!(parse_ast("2 * -x"), infix("*", num("2"), neg(id("x"))));
    assert_eq!(parse_ast("x ^ -2"), infix("^", id("x"), neg(num("2"))));
    assert_eq!(parse_ast("--x"), neg(neg(id("x"))));
}

#[test]
fn postfix_operators_bind_tightest_here() {
    let fact = |inner| Ast::Postfix("!".into(), Box::new(inner));
    assert_eq!(parse_ast("n! + 1"), infix("+", fact(id("n")), num("1")));
    assert_eq!(parse_ast("-n!"), neg(fact(id("n"))));
    assert_eq!(
        parse_ast("(n + 1)!"),
        fact(group(infix("+", id("n"), num("1"))))
    );
}

#[test]
fn juxtaposition_reads_as_the_chosen_operator() {
    assert_eq!(
        parse_ast("2 x y"),
        infix("*", infix("*", num("2"), id("x")), id("y"))
    );
    assert_eq!(
        parse_ast("2 x ^ 2"),
        infix("*", num("2"), infix("^", id("x"), num("2")))
    );
    assert_eq!(
        parse_ast("2(x + 1)"),
        infix("*", num("2"), group(infix("+", id("x"), num("1"))))
    );

    let no_juxtaposition = Grammar::new().infix("+", 1, Assoc::Left).unwrap();
    assert_eq!(
        no_juxtaposition.parse("2 x").unwrap_err(),
        ParseError::at(2, "unexpected `x`")
    );
}

#[test]
fn parentheses_are_kept() {
    assert_eq!(
        parse_ast("(a + b) + c"),
        infix("+", group(infix("+", id("a"), id("b"))), id("c"))
    );
    assert_eq!(parse_ast("((x))"), group(group(id("x"))));
}

#[test]
fn calls_take_comma_separated_arguments() {
    assert_eq!(
        parse_ast("f(x, 2 + y) g()"),
        infix(
            "*",
            Ast::Call("f".into(), vec![id("x"), infix("+", num("2"), id("y"))]),
            Ast::Call("g".into(), vec![])
        )
    );
}

#[test]
fn a_literal_is_a_number_or_its_negation() {
    assert_eq!(parse_ast("-3").literal("-").as_deref(), Some("-3"));
    assert_eq!(parse_ast("2.5").literal("-").as_deref(), Some("2.5"));
    assert_eq!(parse_ast("-(3)").literal("-"), None);
    assert_eq!(parse_ast("-12").integer("-"), Some(-12));
    assert_eq!(parse_ast("2.5").integer("-"), None);
    assert_eq!(parse_ast("x").integer("-"), None);
}

#[test]
fn operands_flatten_chains_but_not_groups() {
    let sum: &[(&str, bool)] = &[("+", false), ("-", true)];
    assert_eq!(
        parse_ast("a - b + (c - d) - e * f").operands(sum),
        vec![
            (false, id("a")),
            (true, id("b")),
            (false, group(infix("-", id("c"), id("d")))),
            (true, infix("*", id("e"), id("f"))),
        ]
    );
    assert_eq!(parse_ast("x").operands(sum), vec![(false, id("x"))]);
}

#[test]
fn displays_source_form() {
    for src in [
        "1 + 2 * x",
        "-(x + 1) ^ -2",
        "f(x, y) * (z)",
        "a \u{2295} n!",
    ] {
        assert_eq!(source(&parse_ast(src)), src);
    }
    assert_eq!(source(&parse_ast("2 x")), "2 * x");
}

#[test]
fn reports_errors_with_offsets() {
    assert_eq!(
        error(""),
        ParseError::at(0, "expected an expression, found end of input")
    );
    assert_eq!(
        error("x +"),
        ParseError::at(3, "expected an expression, found end of input")
    );
    assert_eq!(
        error("* x"),
        ParseError::at(0, "expected an expression, found `*`")
    );
    assert_eq!(
        error("(x + 1"),
        ParseError::at(6, "expected `)`, found end of input")
    );
    assert_eq!(error("x + 1)"), ParseError::at(5, "unexpected `)`"));
    let prefix_only = Grammar::new().prefix("\u{ac}", 1).unwrap();
    assert_eq!(
        prefix_only.parse("x \u{ac} y").unwrap_err(),
        ParseError::at(2, "unexpected `\u{ac}`")
    );
    assert_eq!(
        error("f(x y"),
        ParseError::at(5, "expected `,` or `)`, found end of input")
    );
    assert_eq!(error("f(x; y)"), ParseError::at(3, "unexpected `;`"));
}

#[test]
fn alias_copies_every_fixity() {
    let grammar = Grammar::new()
        .infix("-", 1, Assoc::Left)
        .unwrap()
        .prefix("-", 3)
        .unwrap()
        .alias("\u{2212}", "-")
        .unwrap();
    let minus: Vec<char> = "-".chars().collect();
    let alias: Vec<char> = "\u{2212}".chars().collect();
    assert_eq!(grammar.prefix_power(&alias), grammar.prefix_power(&minus));
    assert_eq!(grammar.trailing(&alias), grammar.trailing(&minus));
}

#[test]
fn rejects_word_like_symbols() {
    let error = Grammar::new().infix("mod", 1, Assoc::Left).unwrap_err();
    assert_eq!(
        error.message(),
        "operator `mod` would lex as an identifier or a number"
    );
}

#[test]
fn rejects_infix_postfix_ambiguity() {
    let error = Grammar::new()
        .infix("!", 1, Assoc::Left)
        .unwrap()
        .postfix("!", 2)
        .unwrap_err();
    assert_eq!(
        error.message(),
        "operator `!` is already infix; it cannot also be postfix"
    );
}

#[test]
fn juxtaposition_needs_a_declared_operator() {
    let error = Grammar::new().juxtaposition("*").unwrap_err();
    assert_eq!(
        error.message(),
        "juxtaposition must name a declared infix operator, not `*`"
    );
}

#[test]
fn alias_needs_a_declared_operator() {
    let error = Grammar::new().alias("\u{2212}", "-").unwrap_err();
    assert_eq!(
        error.message(),
        "cannot alias `\u{2212}` to undeclared `-`"
    );
}

type MExpr = MonoidExpr<ZAdd>;

fn mx() -> MExpr {
    MExpr::Symbol(Symbol::new("x"))
}

fn mc(v: i64) -> MExpr {
    MExpr::Const(Z::from_i64(v))
}

fn monoid_error(src: &str) -> ParseError {
    match parse::<MExpr>(src) {
        Ok(_) => panic!("`{src}` should not parse"),
        Err(e) => e,
    }
}

#[test]
fn symbol_and_juxtaposition_are_the_operation() {
    let expected = MExpr::Op(vec![mc(1), mx(), mc(-2)]);
    assert!(parse::<MExpr>("1 + x + -2").unwrap() == expected);
    assert!(parse::<MExpr>("1 (x) (-2)").unwrap() == expected);
    assert_eq!(monoid_error("1 * x"), ParseError::at(2, "unexpected `*`"));
}

#[test]
fn parentheses_nest() {
    assert!(
        parse::<MExpr>("1 + (x + 2)").unwrap() == MExpr::Op(vec![mc(1), MExpr::Op(vec![mx(), mc(2)])])
    );
    assert!(parse::<MExpr>("(x)").unwrap() == mx());
}

#[test]
fn rejects_what_a_monoid_cannot_express() {
    assert_eq!(monoid_error("x - 1"), ParseError::at(2, "unexpected `-`"));
    assert_eq!(monoid_error("x ^ 2"), ParseError::at(2, "unexpected `^`"));
    assert_eq!(
        monoid_error("-x"),
        ParseError::new("monoid expressions have no `-` operator")
    );
    assert_eq!(monoid_error("inv(x)"), ParseError::new("unknown function `inv`"));
    assert!(parse::<MExpr>("2.5").is_err());
    assert!(parse::<MExpr>("x +").is_err());
}

type GExpr = GroupExpr<ZAdd>;

fn gx() -> GExpr {
    GExpr::Symbol(Symbol::new("x"))
}

fn gy() -> GExpr {
    GExpr::Symbol(Symbol::new("y"))
}

fn ginv(e: GExpr) -> GExpr {
    GExpr::Inv(Box::new(e))
}

fn gparse(src: &str) -> GExpr {
    parse::<GExpr>(src).unwrap()
}

fn gerror(src: &str) -> ParseError {
    match parse::<GExpr>(src) {
        Ok(_) => panic!("`{src}` should not parse"),
        Err(e) => e,
    }
}

#[test]
fn inverses_have_three_spellings() {
    let expected = GExpr::Op(vec![gx(), ginv(gy())]);
    assert_eq!(gparse("x * inv(y)"), expected);
    assert_eq!(gparse("x + -y"), expected);
    assert_eq!(gparse("x - y"), expected);
    assert_eq!(gparse("x / y"), expected);
}

#[test]
fn negative_literals_are_constants() {
    assert_eq!(gparse("-3"), GExpr::Const(Z::from_i64(-3)));
    assert_eq!(gparse("inv(3)"), ginv(GExpr::Const(Z::from_i64(3))));
    assert_eq!(gparse("-(3)"), ginv(GExpr::Const(Z::from_i64(3))));
}

#[test]
fn powers_take_integer_exponents() {
    assert_eq!(
        gparse("(x y)^-2"),
        GExpr::Pow {
            base: Box::new(GExpr::Op(vec![gx(), gy()])),
            exponent: -2,
        }
    );
    assert_eq!(
        gparse("x^0"),
        GExpr::Pow {
            base: Box::new(gx()),
            exponent: 0,
        }
    );
    assert_eq!(
        gerror("x^y"),
        ParseError::new("exponent must be an integer literal, found `y`")
    );
}

#[test]
fn rejects_what_a_group_cannot_express() {
    assert_eq!(gerror("x ∧ y"), ParseError::at(2, "unexpected `∧`"));
    assert_eq!(gerror("inv(x, y)"), ParseError::new("unknown function `inv`"));
}

#[test]
fn errors_display_their_message_and_offset() {
    assert_eq!(ParseError::new("unknown function `f`").to_string(), "unknown function `f`");
    assert_eq!(ParseError::at(7, "unexpected `)`").to_string(), "unexpected `)` (at byte 7)");
    assert_eq!(ParseError::at(120, "x").to_string(), "x (at byte 120)");
}
