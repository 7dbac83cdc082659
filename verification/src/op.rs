//! Sets and the laws of binary operations on them.
//!
//! Every law is a proof obligation on the operator's implementation, stated
//! over the mathematical value (`@`) of the elements.
use vstd::prelude::*;

verus! {

/// A set: a type whose values are its elements. Two elements are equal when
/// their mathematical values (`@`) are equal.
pub trait AlgebraicSet: View + Sized {
    /// Decides equality of elements.
    fn equals(&self, other: &Self) -> (r: bool)
        ensures
            r == (self@ == other@),
    ;

    /// A copy of the element.
    fn duplicate(&self) -> (r: Self)
        ensures
            r@ == self@,
    ;
}

/// A binary operation over a domain.
pub trait BinaryOperator {
    type Domain: AlgebraicSet;

    /// The operation on values.
    spec fn spec_apply(
        a: <Self::Domain as View>::V,
        b: <Self::Domain as View>::V,
    ) -> <Self::Domain as View>::V;

    /// How the operator is spelled in source text: `a SYMBOL b`.
    spec fn spec_symbol() -> Seq<char>;

    fn apply(a: Self::Domain, b: Self::Domain) -> (r: Self::Domain)
        ensures
            r@ == Self::spec_apply(a@, b@),
    ;

    fn symbol() -> (s: &'static str)
        ensures
            s@ == Self::spec_symbol(),
    ;
}

/// `Op(Op(a, b), c) == Op(a, Op(b, c))` for all `a`, `b`, `c` in the domain.
pub trait Associative: BinaryOperator {
    proof fn lemma_associative(
        a: <Self::Domain as View>::V,
        b: <Self::Domain as View>::V,
        c: <Self::Domain as View>::V,
    )
        ensures
            Self::spec_apply(Self::spec_apply(a, b), c) == Self::spec_apply(
                a,
                Self::spec_apply(b, c),
            ),
    ;
}

/// `Op(a, b) == Op(b, a)` for all `a`, `b` in the domain.
pub trait Commutative: BinaryOperator {
    proof fn lemma_commutative(a: <Self::Domain as View>::V, b: <Self::Domain as View>::V)
        ensures
            Self::spec_apply(a, b) == Self::spec_apply(b, a),
    ;
}

/// An identity element: `Op(a, IDENTITY) == Op(IDENTITY, a) == a`.
pub trait Identity: BinaryOperator {
    spec fn spec_identity() -> <Self::Domain as View>::V;

    fn identity() -> (r: Self::Domain)
        ensures
            r@ == Self::spec_identity(),
    ;

    proof fn lemma_identity(a: <Self::Domain as View>::V)
        ensures
            Self::spec_apply(a, Self::spec_identity()) == a,
            Self::spec_apply(Self::spec_identity(), a) == a,
    ;
}

/// A two-sided inverse for every element of the domain.
pub trait Inverse: Identity {
    spec fn spec_inverse(a: <Self::Domain as View>::V) -> <Self::Domain as View>::V;

    /// How "apply to the inverse" is spelled: `a INVERSE_SYMBOL b` is
    /// `Op(a, inverse(b))`, and `INVERSE_SYMBOL a` is `inverse(a)`.
    spec fn spec_inverse_symbol() -> Seq<char>;

    fn inverse(a: Self::Domain) -> (r: Self::Domain)
        ensures
            r@ == Self::spec_inverse(a@),
    ;

    fn inverse_symbol() -> (s: &'static str)
        ensures
            s@ == Self::spec_inverse_symbol(),
    ;

    proof fn lemma_inverse(a: <Self::Domain as View>::V)
        ensures
            Self::spec_apply(a, Self::spec_inverse(a)) == Self::spec_identity(),
            Self::spec_apply(Self::spec_inverse(a), a) == Self::spec_identity(),
    ;
}

} // verus!
