//! Semi-rings and rings.
use vstd::prelude::*;

use crate::integer::Z;
use crate::op::{AlgebraicSet, Associative, BinaryOperator, Commutative, Identity};
use crate::operator_impl::{ZAdd, ZMul};

verus! {

/// A semi-ring: addition forms a commutative monoid, multiplication forms a
/// monoid, multiplication distributes over addition from both sides, and
/// zero annihilates.
pub trait SemiRing: Sized {
    type Domain: AlgebraicSet;

    type Addition: BinaryOperator<Domain = Self::Domain> + Associative + Commutative + Identity;

    type Multiplication: BinaryOperator<Domain = Self::Domain> + Associative + Identity;

    proof fn lemma_distributive(
        a: <Self::Domain as View>::V,
        b: <Self::Domain as View>::V,
        c: <Self::Domain as View>::V,
    )
        ensures
            <Self::Multiplication as BinaryOperator>::spec_apply(
                a,
                <Self::Addition as BinaryOperator>::spec_apply(b, c),
            ) == <Self::Addition as BinaryOperator>::spec_apply(
                <Self::Multiplication as BinaryOperator>::spec_apply(a, b),
                <Self::Multiplication as BinaryOperator>::spec_apply(a, c),
            ),
            <Self::Multiplication as BinaryOperator>::spec_apply(
                <Self::Addition as BinaryOperator>::spec_apply(b, c),
                a,
            ) == <Self::Addition as BinaryOperator>::spec_apply(
                <Self::Multiplication as BinaryOperator>::spec_apply(b, a),
                <Self::Multiplication as BinaryOperator>::spec_apply(c, a),
            ),
    ;

    /// The additive identity.
    fn zero() -> (r: Self::Domain)
        ensures
            r@ == <Self::Addition as Identity>::spec_identity(),
    {
        <Self::Addition as Identity>::identity()
    }

    /// The multiplicative identity.
    fn one() -> (r: Self::Domain)
        ensures
            r@ == <Self::Multiplication as Identity>::spec_identity(),
    {
        <Self::Multiplication as Identity>::identity()
    }

    /// `a + b`.
    fn add(a: Self::Domain, b: Self::Domain) -> (r: Self::Domain)
        ensures
            r@ == <Self::Addition as BinaryOperator>::spec_apply(a@, b@),
    {
        <Self::Addition as BinaryOperator>::apply(a, b)
    }

    /// `a * b`.
    fn multiply(a: Self::Domain, b: Self::Domain) -> (r: Self::Domain)
        ensures
            r@ == <Self::Multiplication as BinaryOperator>::spec_apply(a@, b@),
    {
        <Self::Multiplication as BinaryOperator>::apply(a, b)
    }

    /// Zero annihilates: `0 * a == a * 0 == 0`.
    proof fn lemma_annihilates(a: <Self::Domain as View>::V)
        ensures
            <Self::Multiplication as BinaryOperator>::spec_apply(
                <Self::Addition as Identity>::spec_identity(),
                a,
            ) == <Self::Addition as Identity>::spec_identity(),
            <Self::Multiplication as BinaryOperator>::spec_apply(
                a,
                <Self::Addition as Identity>::spec_identity(),
            ) == <Self::Addition as Identity>::spec_identity(),
    ;
}

/// The additive identity of `SR`.
pub open spec fn zero<SR: SemiRing>() -> <SR::Domain as View>::V {
    <SR::Addition as Identity>::spec_identity()
}

/// The multiplicative identity of `SR`.
pub open spec fn one<SR: SemiRing>() -> <SR::Domain as View>::V {
    <SR::Multiplication as Identity>::spec_identity()
}

/// `a + b` in `SR`.
pub open spec fn plus<SR: SemiRing>(a: <SR::Domain as View>::V, b: <SR::Domain as View>::V) -> <SR::Domain as View>::V {
    <SR::Addition as BinaryOperator>::spec_apply(a, b)
}

/// `a * b` in `SR`.
pub open spec fn times<SR: SemiRing>(a: <SR::Domain as View>::V, b: <SR::Domain as View>::V) -> <SR::Domain as View>::V {
    <SR::Multiplication as BinaryOperator>::spec_apply(a, b)
}

/// `1 + 1 + ... + 1` with `n` ones, in `SR`.
pub open spec fn nat_value<SR: SemiRing>(n: nat) -> <SR::Domain as View>::V
    decreases n,
{
    if n == 0 {
        zero::<SR>()
    } else {
        plus::<SR>(nat_value::<SR>((n - 1) as nat), one::<SR>())
    }
}

/// Counting is additive: `(m + n) * 1 == m * 1 + n * 1`.
pub proof fn lemma_nat_value_add<SR: SemiRing>(m: nat, n: nat)
    ensures
        nat_value::<SR>(m + n) == plus::<SR>(nat_value::<SR>(m), nat_value::<SR>(n)),
    decreases n,
{
    if n == 0 {
        <SR::Addition as Identity>::lemma_identity(nat_value::<SR>(m));
    } else {
        lemma_nat_value_add::<SR>(m, (n - 1) as nat);
        assert((m + n - 1) as nat == m + (n - 1) as nat);
        <SR::Addition as Associative>::lemma_associative(
            nat_value::<SR>(m),
            nat_value::<SR>((n - 1) as nat),
            one::<SR>(),
        );
    }
}

/// `n * 1`: the image of `n` under the unique semi-ring map from the
/// naturals, computed by doubling and adding.
pub fn from_usize<SR: SemiRing>(n: usize) -> (r: SR::Domain)
    ensures
        r@ == nat_value::<SR>(n as nat),
{
    let mut acc = <SR::Addition as Identity>::identity();
    let mut power = <SR::Multiplication as Identity>::identity();
    let mut rest = n;
    let ghost done: nat = 0;
    let ghost step: nat = 1;
    proof {
        <SR::Addition as Identity>::lemma_identity(one::<SR>());
        assert(nat_value::<SR>(1) == plus::<SR>(nat_value::<SR>(0), one::<SR>()));
    }
    while rest > 0
        invariant
            acc@ == nat_value::<SR>(done),
            power@ == nat_value::<SR>(step),
            n == done + rest * step,
            step >= 1,
        decreases rest,
    {
        if rest % 2 == 1 {
            proof {
                lemma_nat_value_add::<SR>(done, step);
                done = done + step;
            }
            acc = <SR::Addition as BinaryOperator>::apply(acc, power.duplicate());
        }
        let ghost before = rest;
        let ghost odd_step: int = if before % 2 == 1 { step as int } else { 0 };
        rest = rest / 2;
        proof {
            assert(before * step == odd_step + rest * (2 * step)) by (nonlinear_arith)
                requires
                    rest == before / 2,
                    odd_step == (if before % 2 == 1 { step as int } else { 0 }),
            ;
            assert(n == done + rest * (2 * step));
            if rest == 0 {
                assert(rest * step == 0 && rest * (2 * step) == 0) by (nonlinear_arith)
                    requires
                        rest == 0,
                ;
            }
        }
        if rest > 0 {
            proof {
                lemma_nat_value_add::<SR>(step, step);
                assert(rest * (2 * step) == rest * (step + step));
                step = step + step;
            }
            power = <SR::Addition as BinaryOperator>::apply(power.duplicate(), power);
        }
    }
    acc
}

/// A ring: a semi-ring whose addition also has inverses.
pub trait Ring: SemiRing + Sized {
    /// The additive inverse of a value.
    spec fn spec_negate(a: <Self::Domain as View>::V) -> <Self::Domain as View>::V;

    /// How subtraction and negation are spelled in source text.
    spec fn spec_sub_symbol() -> Seq<char>;

    /// The additive inverse.
    fn negate(a: Self::Domain) -> (r: Self::Domain)
        ensures
            r@ == Self::spec_negate(a@),
    ;

    /// How subtraction and negation are spelled in source text.
    fn sub_symbol() -> (s: &'static str)
        ensures
            s@ == Self::spec_sub_symbol(),
    ;

    /// `a + (-a) == (-a) + a == 0`.
    proof fn lemma_negate(a: <Self::Domain as View>::V)
        ensures
            plus::<Self>(a, Self::spec_negate(a)) == zero::<Self>(),
            plus::<Self>(Self::spec_negate(a), a) == zero::<Self>(),
    ;
}

/// A ring whose multiplication is also commutative: `a * b == b * a`.
pub trait CommutativeRing: Ring {
    proof fn lemma_commutative(a: <Self::Domain as View>::V, b: <Self::Domain as View>::V)
        ensures
            times::<Self>(a, b) == times::<Self>(b, a),
    ;
}

/// The ring of integers.
#[derive(Debug)]
pub struct Integers;

impl SemiRing for Integers {
    type Domain = Z;
    type Addition = ZAdd;
    type Multiplication = ZMul;

    proof fn lemma_distributive(a: int, b: int, c: int) {
        assert(a * (b + c) == a * b + a * c) by (nonlinear_arith);
        assert((b + c) * a == b * a + c * a) by (nonlinear_arith);
    }

    proof fn lemma_annihilates(a: int) {
    }
}

} // verus!

verus! {

impl Ring for Integers {
    open spec fn spec_negate(a: int) -> int {
        -a
    }

    open spec fn spec_sub_symbol() -> Seq<char> {
        "-"@
    }

    fn negate(a: Z) -> (r: Z) {
        a.neg()
    }

    fn sub_symbol() -> (s: &'static str) {
        "-"
    }

    proof fn lemma_negate(a: int) {
    }
}

impl CommutativeRing for Integers {
    proof fn lemma_commutative(a: int, b: int) {
        assert(a * b == b * a) by (nonlinear_arith);
    }
}

} // verus!
