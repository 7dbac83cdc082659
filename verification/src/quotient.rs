//! Equivalence relations, normal forms, and the classes they define.
use std::marker::PhantomData;
use vstd::prelude::*;
use vstd::std_specs::cmp::PartialEqSpecImpl;

use crate::op::AlgebraicSet;

verus! {

/// An equivalence relation on `X`: reflexive, symmetric and transitive.
pub trait Equivalence<X: AlgebraicSet> {
    /// The relation, on values.
    spec fn spec_equivalent(a: X::V, b: X::V) -> bool;

    /// Whether `a` and `b` are related.
    fn equivalent(a: &X, b: &X) -> (r: bool)
        ensures
            r == Self::spec_equivalent(a@, b@),
    ;

    proof fn lemma_equivalence(a: X::V, b: X::V, c: X::V)
        ensures
            Self::spec_equivalent(a, a),
            Self::spec_equivalent(a, b) ==> Self::spec_equivalent(b, a),
            Self::spec_equivalent(a, b) && Self::spec_equivalent(b, c) ==> Self::spec_equivalent(
                a,
                c,
            ),
    ;
}

/// A choice of one representative in each class of an equivalence on `X`.
/// Reducing twice is reducing once.
pub trait NormalForm<X: AlgebraicSet> {
    /// The representative of a value's class.
    spec fn spec_reduce(x: X::V) -> X::V;

    /// The representative of `element`'s class.
    fn reduce(element: X) -> (r: X)
        ensures
            r@ == Self::spec_reduce(element@),
    ;

    proof fn lemma_idempotent(x: X::V)
        ensures
            Self::spec_reduce(Self::spec_reduce(x)) == Self::spec_reduce(x),
    ;
}

/// Whether the normal form `N` represents the equivalence `E`: two values
/// reduce to the same representative exactly when they are related.
pub open spec fn represents<X: AlgebraicSet, N: NormalForm<X>, E: Equivalence<X>>() -> bool {
    forall|a: X::V, b: X::V|
        #![trigger N::spec_reduce(a), N::spec_reduce(b)]
        (N::spec_reduce(a) == N::spec_reduce(b)) == E::spec_equivalent(a, b)
}

/// A class of `X` modulo `N`, held by the representative `N` chooses, so
/// equality of classes is equality of representatives.
#[derive(Debug)]
pub struct EqClass<X: AlgebraicSet, N: NormalForm<X>> {
    representative: X,
    normal_form: PhantomData<N>,
}

impl<X: AlgebraicSet, N: NormalForm<X>> View for EqClass<X, N> {
    type V = X::V;

    /// The value of the representative.
    closed spec fn view(&self) -> X::V {
        self.representative@
    }
}

impl<X: AlgebraicSet, N: NormalForm<X>> EqClass<X, N> {
    /// The representative is its own normal form.
    #[verifier::type_invariant]
    closed spec fn reduced(self) -> bool {
        N::spec_reduce(self.representative@) == self.representative@
    }

    /// The class of `element`.
    pub fn new(element: X) -> (r: Self)
        ensures
            r@ == N::spec_reduce(element@),
    {
        proof {
            N::lemma_idempotent(element@);
        }
        EqClass { representative: N::reduce(element), normal_form: PhantomData }
    }

    /// The representative of the class.
    pub fn representative(&self) -> (r: &X)
        ensures
            r@ == self@,
    {
        &self.representative
    }

    /// The representative of the class, taken out of it.
    pub fn into_representative(self) -> (r: X)
        ensures
            r@ == self@,
    {
        self.representative
    }
}

impl<X: AlgebraicSet, N: NormalForm<X>> AlgebraicSet for EqClass<X, N> {
    fn equals(&self, other: &Self) -> (r: bool) {
        self.representative.equals(&other.representative)
    }

    fn duplicate(&self) -> (r: Self) {
        proof {
            use_type_invariant(self);
        }
        EqClass { representative: self.representative.duplicate(), normal_form: PhantomData }
    }
}

impl<X: AlgebraicSet, N: NormalForm<X>> Clone for EqClass<X, N> {
    fn clone(&self) -> (r: Self)
        ensures
            r@ == self@,
    {
        self.duplicate()
    }
}

impl<X: AlgebraicSet, N: NormalForm<X>> PartialEq for EqClass<X, N> {
    fn eq(&self, other: &Self) -> (r: bool) {
        self.equals(other)
    }
}

impl<X: AlgebraicSet, N: NormalForm<X>> PartialEqSpecImpl for EqClass<X, N> {
    open spec fn obeys_eq_spec() -> bool {
        true
    }

    open spec fn eq_spec(&self, other: &Self) -> bool {
        self@ == other@
    }
}

} // verus!
