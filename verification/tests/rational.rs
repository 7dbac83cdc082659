use eqn::integer::Z;
use eqn::rational::{ParseRationalError, Rational};

fn z(v: i64) -> Z {
    Z::from_i64(v)
}

fn q(n: i64, d: i64) -> Rational {
    Rational::new(z(n), z(d))
}

fn pow(base: i64, exponent: u32) -> Z {
    let mut out = z(1);
    for _ in 0..exponent {
        out = out.mul(&z(base));
    }
    out
}

#[test]
fn rationals_parse_integers_and_fractions() {
    assert_eq!(Rational::parse("3").unwrap(), Rational::from_i64(3));
    assert_eq!(Rational::parse("-3").unwrap(), Rational::from_i64(-3));
    assert_eq!(Rational::parse("6/4").unwrap(), q(3, 2));
    assert_eq!(Rational::parse("1/0").unwrap_err(), ParseRationalError::ZeroDenominator);
    assert!(Rational::parse("1.5").is_err());
}

#[test]
fn rationals_are_held_in_lowest_terms_with_a_positive_denominator() {
    assert_eq!(q(6, 4), q(3, 2));
    assert_eq!(q(1, -2), q(-1, 2));
    assert_eq!(q(0, -7), Rational::zero());
}

#[test]
fn rationals_add_where_machine_integers_would_overflow() {
    let half_of = |power: u32| Rational::new(z(1), pow(2, power));

    assert_eq!(half_of(100).add(&half_of(100)), half_of(99));
    assert_eq!(
        half_of(100).add(&Rational::new(z(1), pow(3, 100))),
        Rational::new(pow(3, 100).add(&pow(2, 100)), pow(2, 100).mul(&pow(3, 100)))
    );
}

#[test]
fn integers_embed_into_rationals_preserving_sum_and_product() {
    for (a, b) in [(0, -7), (3, 5), (-12, 12)] {
        assert_eq!(
            Rational::from_z(z(a).add(&z(b))),
            Rational::from_z(z(a)).add(&Rational::from_z(z(b)))
        );
        assert_eq!(
            Rational::from_z(z(a).mul(&z(b))),
            Rational::from_z(z(a)).mul(&Rational::from_z(z(b)))
        );
    }
}

#[test]
fn rational_parts_negation_and_reciprocal() {
    let r = Rational::parse("-10/4").unwrap();
    assert_eq!(r.numerator(), &z(-5));
    assert_eq!(r.denominator(), &z(2));
    assert_eq!(r.neg(), q(5, 2));
    assert_eq!(r.recip(), q(-2, 5));
    assert_eq!(q(2, 3).mul(&q(3, 4)), q(1, 2));
    match Rational::parse("x/2") {
        Err(ParseRationalError::Int(_)) => {}
        other => panic!("unexpected {other:?}"),
    }
    match Rational::parse("2/") {
        Err(ParseRationalError::Int(_)) => {}
        other => panic!("unexpected {other:?}"),
    }
}

#[test]
fn integers_are_not_bounded_by_the_machine_word() {
    let power = pow(2, 200);
    assert_eq!(power.mul(&power), pow(2, 400));
    assert!(Z::parse_decimal("340282366920938463463374607431768211455").unwrap().lt(&power));

    let mut factorial = z(1);
    for i in 1..=40 {
        factorial = factorial.mul(&z(i));
    }
    let mut smaller = z(1);
    for i in 1..=39 {
        smaller = smaller.mul(&z(i));
    }
    assert_eq!(factorial, smaller.mul(&z(40)));
    assert!(Z::parse_decimal("170141183460469231731687303715884105727").unwrap().lt(&factorial));
}

#[test]
fn decimal_integers_read_as_the_big_integer_reader_reads_them() {
    assert_eq!(Z::parse_decimal("1_000").unwrap(), z(1000));
    assert_eq!(Z::parse_decimal("-12").unwrap(), z(-12));
    assert_eq!(Z::parse_decimal("+7").unwrap(), z(7));
    assert_eq!(Z::parse_decimal("").unwrap_err(), "cannot parse integer from empty string");
    assert_eq!(Z::parse_decimal("-").unwrap_err(), "cannot parse integer from empty string");
    assert_eq!(Z::parse_decimal("_1").unwrap_err(), "invalid digit found in string");
    assert_eq!(Z::parse_decimal("-+1").unwrap_err(), "invalid digit found in string");
    assert_eq!(Z::parse_decimal("1.5").unwrap_err(), "invalid digit found in string");
}
