//! The arithmetic operations of the integers.
use vstd::prelude::*;

use crate::integer::Z;
use crate::op::{Associative, BinaryOperator, Commutative, Identity, Inverse};

verus! {

/// Addition of integers.
#[derive(Debug)]
pub struct ZAdd;

/// Multiplication of integers.
#[derive(Debug)]
pub struct ZMul;

impl BinaryOperator for ZAdd {
    type Domain = Z;

    open spec fn spec_apply(a: int, b: int) -> int {
        a + b
    }

    open spec fn spec_symbol() -> Seq<char> {
        "+"@
    }

    fn apply(a: Z, b: Z) -> (r: Z) {
        a.add(&b)
    }

    fn symbol() -> (s: &'static str) {
        "+"
    }
}

impl Associative for ZAdd {
    proof fn lemma_associative(a: int, b: int, c: int) {
    }
}

impl Commutative for ZAdd {
    proof fn lemma_commutative(a: int, b: int) {
    }
}

impl Identity for ZAdd {
    open spec fn spec_identity() -> int {
        0
    }

    fn identity() -> (r: Z) {
        Z::zero()
    }

    proof fn lemma_identity(a: int) {
    }
}

impl Inverse for ZAdd {
    open spec fn spec_inverse(a: int) -> int {
        -a
    }

    open spec fn spec_inverse_symbol() -> Seq<char> {
        "-"@
    }

    fn inverse(a: Z) -> (r: Z) {
        a.neg()
    }

    fn inverse_symbol() -> (s: &'static str) {
        "-"
    }

    proof fn lemma_inverse(a: int) {
    }
}

impl BinaryOperator for ZMul {
    type Domain = Z;

    open spec fn spec_apply(a: int, b: int) -> int {
        a * b
    }

    open spec fn spec_symbol() -> Seq<char> {
        "*"@
    }

    fn apply(a: Z, b: Z) -> (r: Z) {
        a.mul(&b)
    }

    fn symbol() -> (s: &'static str) {
        "*"
    }
}

impl Associative for ZMul {
    proof fn lemma_associative(a: int, b: int, c: int) {
        assert(a * b * c == a * (b * c)) by (nonlinear_arith);
    }
}

impl Commutative for ZMul {
    proof fn lemma_commutative(a: int, b: int) {
        assert(a * b == b * a) by (nonlinear_arith);
    }
}

impl Identity for ZMul {
    open spec fn spec_identity() -> int {
        1
    }

    fn identity() -> (r: Z) {
        Z::one()
    }

    proof fn lemma_identity(a: int) {
    }
}

} // verus!
