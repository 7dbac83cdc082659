//! The field with two elements: addition is exclusive or, multiplication is
//! conjunction.
use vstd::prelude::*;

use crate::integer::{bigint_from_decimal, Z};
use crate::op::{AlgebraicSet, Associative, BinaryOperator, Commutative, Identity, Inverse};
use crate::parse_error::ParseError;
use crate::ring::{CommutativeRing, Ring, SemiRing};
use crate::structure::Field;
use crate::symbol::chars_of;
use crate::syntax::FromLiteral;
use crate::text::{framed, push_text};

verus! {

/// An element of the field with two elements: one when set, zero otherwise.
#[derive(Clone, Copy, Debug, PartialEq, Eq, Structural)]
pub struct Bit(pub bool);

impl View for Bit {
    type V = bool;

    open spec fn view(&self) -> bool {
        self.0
    }
}

impl AlgebraicSet for Bit {
    fn equals(&self, other: &Self) -> (r: bool) {
        self.0 == other.0
    }

    fn duplicate(&self) -> (r: Self) {
        *self
    }
}

/// Addition of bits: exclusive or.
#[derive(Debug)]
pub struct BitAdd;

/// Multiplication of bits: conjunction.
#[derive(Debug)]
pub struct BitMul;

impl BinaryOperator for BitAdd {
    type Domain = Bit;

    open spec fn spec_apply(a: bool, b: bool) -> bool {
        a != b
    }

    open spec fn spec_symbol() -> Seq<char> {
        "+"@
    }

    fn apply(a: Bit, b: Bit) -> (r: Bit) {
        Bit(a.0 != b.0)
    }

    fn symbol() -> (s: &'static str) {
        "+"
    }
}

impl Associative for BitAdd {
    proof fn lemma_associative(a: bool, b: bool, c: bool) {
    }
}

impl Commutative for BitAdd {
    proof fn lemma_commutative(a: bool, b: bool) {
    }
}

impl Identity for BitAdd {
    open spec fn spec_identity() -> bool {
        false
    }

    fn identity() -> (r: Bit) {
        Bit(false)
    }

    proof fn lemma_identity(a: bool) {
    }
}

/// Every bit is its own negative.
impl Inverse for BitAdd {
    open spec fn spec_inverse(a: bool) -> bool {
        a
    }

    open spec fn spec_inverse_symbol() -> Seq<char> {
        "-"@
    }

    fn inverse(a: Bit) -> (r: Bit) {
        a
    }

    fn inverse_symbol() -> (s: &'static str) {
        "-"
    }

    proof fn lemma_inverse(a: bool) {
    }
}

impl BinaryOperator for BitMul {
    type Domain = Bit;

    open spec fn spec_apply(a: bool, b: bool) -> bool {
        a && b
    }

    open spec fn spec_symbol() -> Seq<char> {
        "*"@
    }

    fn apply(a: Bit, b: Bit) -> (r: Bit) {
        Bit(a.0 && b.0)
    }

    fn symbol() -> (s: &'static str) {
        "*"
    }
}

impl Associative for BitMul {
    proof fn lemma_associative(a: bool, b: bool, c: bool) {
    }
}

impl Commutative for BitMul {
    proof fn lemma_commutative(a: bool, b: bool) {
    }
}

impl Identity for BitMul {
    open spec fn spec_identity() -> bool {
        true
    }

    fn identity() -> (r: Bit) {
        Bit(true)
    }

    proof fn lemma_identity(a: bool) {
    }
}

/// The field with two elements.
#[derive(Debug)]
pub struct TwoElementField;

impl SemiRing for TwoElementField {
    type Domain = Bit;

    type Addition = BitAdd;

    type Multiplication = BitMul;

    proof fn lemma_distributive(a: bool, b: bool, c: bool) {
    }

    proof fn lemma_annihilates(a: bool) {
    }
}

impl Ring for TwoElementField {
    open spec fn spec_negate(a: bool) -> bool {
        a
    }

    open spec fn spec_sub_symbol() -> Seq<char> {
        "-"@
    }

    fn negate(a: Bit) -> (r: Bit) {
        a
    }

    fn sub_symbol() -> (s: &'static str) {
        "-"
    }

    proof fn lemma_negate(a: bool) {
    }
}

impl CommutativeRing for TwoElementField {
    proof fn lemma_commutative(a: bool, b: bool) {
    }
}

/// One is its own inverse.
impl Field for TwoElementField {
    open spec fn spec_invert(a: bool) -> bool {
        a
    }

    fn invert(a: Bit) -> (r: Bit) {
        a
    }

    open spec fn spec_div_symbol() -> Seq<char> {
        "/"@
    }

    fn div_symbol() -> (s: &'static str) {
        "/"
    }

    proof fn lemma_field(a: bool) {
    }
}

/// An integer literal is read modulo two.
impl FromLiteral for Bit {
    open spec fn spec_literal(text: Seq<char>) -> Result<bool, Seq<char>> {
        match bigint_from_decimal(text) {
            Ok(value) => Ok(value % 2 == 1),
            Err(description) => Err("invalid constant `"@ + text + "`: "@ + description),
        }
    }

    fn from_literal(text: &str) -> (r: Result<Bit, ParseError>) {
        match Z::parse_decimal(text) {
            Ok(z) => {
                let rest = z.rem_euclid(&Z::from_i64(2));
                Ok(Bit(rest.equals(&Z::one())))
            },
            Err(description) => {
                let chars = chars_of(text);
                let mut message = framed("invalid constant `", &chars, "`: ");
                push_text(&mut message, description.as_str());
                Err(ParseError::from_chars(&message))
            },
        }
    }
}

} // verus!
