//! Cosets of subgroups and ideals: the left-coset relation, and the group
//! and ring operations on classes of representatives.
use std::marker::PhantomData;
use vstd::prelude::*;

use crate::group::{lemma_inverse_involutive, lemma_inverse_of_product, lemma_inverse_unique};
use crate::op::{AlgebraicSet, Associative, BinaryOperator, Commutative, Identity, Inverse};
use crate::quotient::{represents, EqClass, Equivalence, NormalForm};
use crate::ring::{one, plus, times, zero, SemiRing};
use crate::structure::{Ideal, NormalSubgroup, Subgroup, Submonoid};

verus! {

/// The left-coset relation of `S`: `a` and `b` are related when `a^-1 * b`
/// belongs to `S`. A normal form for the cosets of `S` must agree with it.
pub struct Modulo<S>(PhantomData<S>);

impl<S: Subgroup> Equivalence<S::Superset> for Modulo<S> where <S as Submonoid>::Parent: Inverse {
    open spec fn spec_equivalent(
        a: <S::Superset as View>::V,
        b: <S::Superset as View>::V,
    ) -> bool {
        S::spec_contains(
            <S::Parent as BinaryOperator>::spec_apply(<S::Parent as Inverse>::spec_inverse(a), b),
        )
    }

    fn equivalent(a: &S::Superset, b: &S::Superset) -> (r: bool) {
        let inverse = <S::Parent as Inverse>::inverse(a.duplicate());
        S::contains(&<S::Parent as BinaryOperator>::apply(inverse, b.duplicate()))
    }

    proof fn lemma_equivalence(
        a: <S::Superset as View>::V,
        b: <S::Superset as View>::V,
        c: <S::Superset as View>::V,
    ) {
        let ia = <S::Parent as Inverse>::spec_inverse(a);
        let ib = <S::Parent as Inverse>::spec_inverse(b);
        let x = <S::Parent as BinaryOperator>::spec_apply(ia, b);
        let y = <S::Parent as BinaryOperator>::spec_apply(ib, c);
        // reflexive: a^-1 a is the identity
        <S::Parent as Inverse>::lemma_inverse(a);
        S::lemma_submonoid(x, y);
        // symmetric: (a^-1 b)^-1 == b^-1 a
        S::lemma_subgroup(x);
        lemma_inverse_of_product::<S::Parent>(ia, b);
        lemma_inverse_involutive::<S::Parent>(a);
        // transitive: (a^-1 b)(b^-1 c) == a^-1 c
        <S::Parent as crate::op::Associative>::lemma_associative(ia, b, y);
        <S::Parent as crate::op::Associative>::lemma_associative(b, ib, c);
        <S::Parent as Inverse>::lemma_inverse(b);
        <S::Parent as Identity>::lemma_identity(c);
    }
}

impl<N: NormalSubgroup + NormalForm<N::Superset>> Modulo<N> where <N as Submonoid>::Parent: Inverse {
    /// `(aN)(bN) = (ab)N`, on representatives.
    pub fn applied(lhs: EqClass<N::Superset, N>, rhs: EqClass<N::Superset, N>) -> (r: EqClass<
        N::Superset,
        N,
    >)
        ensures
            r@ == N::spec_reduce(<N::Parent as BinaryOperator>::spec_apply(lhs@, rhs@)),
    {
        EqClass::new(
            <N::Parent as BinaryOperator>::apply(
                lhs.into_representative(),
                rhs.into_representative(),
            ),
        )
    }

    /// `(aN)^-1 = a^-1 N`, on representatives.
    pub fn inversed(coset: EqClass<N::Superset, N>) -> (r: EqClass<N::Superset, N>)
        ensures
            r@ == N::spec_reduce(<N::Parent as Inverse>::spec_inverse(coset@)),
    {
        EqClass::new(<N::Parent as Inverse>::inverse(coset.into_representative()))
    }

    /// The class of the identity, `N` itself.
    pub fn identity() -> (r: EqClass<N::Superset, N>)
        ensures
            r@ == N::spec_reduce(<N::Parent as Identity>::spec_identity()),
    {
        EqClass::new(<N::Parent as Identity>::identity())
    }
}

impl<I: Ideal + NormalForm<I::Superset>> Modulo<I> where <I as Submonoid>::Parent: Inverse {
    /// `(a + I)(b + I) = ab + I`, on representatives.
    pub fn multiplied(lhs: EqClass<I::Superset, I>, rhs: EqClass<I::Superset, I>) -> (r: EqClass<
        I::Superset,
        I,
    >)
        ensures
            r@ == I::spec_reduce(times::<I::Ring>(lhs@, rhs@)),
    {
        EqClass::new(
            <I::Ring as SemiRing>::multiply(lhs.into_representative(), rhs.into_representative()),
        )
    }

    /// The class of one.
    pub fn one() -> (r: EqClass<I::Superset, I>)
        ensures
            r@ == I::spec_reduce(one::<I::Ring>()),
    {
        EqClass::new(<I::Ring as SemiRing>::one())
    }
}

/// Multiplying cosets of a normal subgroup does not depend on the
/// representatives: where `N`'s normal form represents the cosets of `N`,
/// `a ~ a'` and `b ~ b'` give `a b ~ a' b'`.
pub proof fn lemma_coset_product_well_defined<N: NormalSubgroup + NormalForm<N::Superset>>(
    a: <N::Superset as View>::V,
    a2: <N::Superset as View>::V,
    b: <N::Superset as View>::V,
    b2: <N::Superset as View>::V,
) where <N as Submonoid>::Parent: Inverse
    requires
        represents::<N::Superset, N, Modulo<N>>(),
        N::spec_reduce(a) == N::spec_reduce(a2),
        N::spec_reduce(b) == N::spec_reduce(b2),
    ensures
        N::spec_reduce(<N::Parent as BinaryOperator>::spec_apply(a, b)) == N::spec_reduce(
            <N::Parent as BinaryOperator>::spec_apply(a2, b2),
        ),
{
    let ia = <N::Parent as Inverse>::spec_inverse(a);
    let ib = <N::Parent as Inverse>::spec_inverse(b);
    let n = <N::Parent as BinaryOperator>::spec_apply(ia, a2);
    let m = <N::Parent as BinaryOperator>::spec_apply(ib, b2);
    assert(N::spec_contains(n) && N::spec_contains(m));
    let ab = <N::Parent as BinaryOperator>::spec_apply(a, b);
    let ab2 = <N::Parent as BinaryOperator>::spec_apply(a2, b2);
    let nb = <N::Parent as BinaryOperator>::spec_apply(n, b);
    let conj = <N::Parent as BinaryOperator>::spec_apply(
        <N::Parent as BinaryOperator>::spec_apply(ib, n),
        b,
    );
    // (ab)^-1 (a'b') == b^-1 (a^-1 (a'b'))
    lemma_inverse_of_product::<N::Parent>(a, b);
    <N::Parent as crate::op::Associative>::lemma_associative(ib, ia, ab2);
    // a^-1 (a'b') == n b'
    <N::Parent as crate::op::Associative>::lemma_associative(ia, a2, b2);
    // b' == b m
    <N::Parent as crate::op::Associative>::lemma_associative(b, ib, b2);
    <N::Parent as Inverse>::lemma_inverse(b);
    <N::Parent as Identity>::lemma_identity(b2);
    assert(<N::Parent as BinaryOperator>::spec_apply(b, m) == b2);
    // n (b m) == (n b) m, and b^-1 ((n b) m) == (b^-1 (n b)) m
    <N::Parent as crate::op::Associative>::lemma_associative(n, b, m);
    <N::Parent as crate::op::Associative>::lemma_associative(ib, nb, m);
    <N::Parent as crate::op::Associative>::lemma_associative(ib, n, b);
    assert(<N::Parent as BinaryOperator>::spec_apply(
        <N::Parent as Inverse>::spec_inverse(ab),
        ab2,
    ) == <N::Parent as BinaryOperator>::spec_apply(conj, m));
    // b^-1 n b is a conjugate of n, so it lies in N, and so does its product with m
    lemma_inverse_involutive::<N::Parent>(b);
    N::lemma_normal(ib, n);
    N::lemma_submonoid(conj, m);
    assert(Modulo::<N>::spec_equivalent(ab, ab2));
    assert(N::spec_reduce(ab) == N::spec_reduce(ab2));
}

/// Multiplying residue classes modulo an ideal does not depend on the
/// representatives: where `I`'s normal form represents the cosets of `I`,
/// `a ~ a'` and `b ~ b'` give `a b ~ a' b'`.
pub proof fn lemma_residue_product_well_defined<I: Ideal + NormalForm<I::Superset>>(
    a: <I::Superset as View>::V,
    a2: <I::Superset as View>::V,
    b: <I::Superset as View>::V,
    b2: <I::Superset as View>::V,
) where <I as Submonoid>::Parent: Inverse
    requires
        represents::<I::Superset, I, Modulo<I>>(),
        I::spec_reduce(a) == I::spec_reduce(a2),
        I::spec_reduce(b) == I::spec_reduce(b2),
    ensures
        I::spec_reduce(times::<I::Ring>(a, b)) == I::spec_reduce(times::<I::Ring>(a2, b2)),
{
    let e = <I::Parent as Identity>::spec_identity();
    let z = zero::<I::Ring>();
    let na = <I::Parent as Inverse>::spec_inverse(a);
    let nb = <I::Parent as Inverse>::spec_inverse(b);
    let n = <I::Parent as BinaryOperator>::spec_apply(na, a2);
    let m = <I::Parent as BinaryOperator>::spec_apply(nb, b2);
    assert(I::spec_contains(n) && I::spec_contains(m));
    I::lemma_ideal(na, a2);
    I::lemma_ideal(nb, b2);
    // the identity of the additive group is the ring's zero
    <I::Parent as Identity>::lemma_identity(z);
    I::lemma_ideal(z, e);
    <<I::Ring as SemiRing>::Addition as Identity>::lemma_identity(e);
    assert(e == z);
    // n b' and a m lie in the ideal, and so does their sum
    let t1 = times::<I::Ring>(n, b2);
    let t2 = times::<I::Ring>(a, m);
    I::lemma_ideal(b2, n);
    I::lemma_ideal(a, m);
    I::lemma_submonoid(t1, t2);
    I::lemma_ideal(t1, t2);
    // n b' == x + a'b' and a m == y + w, where
    let x = times::<I::Ring>(na, b2);
    let y = times::<I::Ring>(a, nb);
    let w = times::<I::Ring>(a, b2);
    let ab = times::<I::Ring>(a, b);
    let ab2 = times::<I::Ring>(a2, b2);
    <I::Ring as SemiRing>::lemma_distributive(b2, na, a2);
    <I::Ring as SemiRing>::lemma_distributive(a, nb, b2);
    // x + w == (-a + a) b' == 0
    <I::Ring as SemiRing>::lemma_distributive(b2, na, a);
    <I::Parent as Inverse>::lemma_inverse(a);
    I::lemma_ideal(na, a);
    <I::Ring as SemiRing>::lemma_annihilates(b2);
    assert(plus::<I::Ring>(x, w) == z);
    // y == -(ab), since y + ab == a (-b + b) == 0
    <I::Ring as SemiRing>::lemma_distributive(a, nb, b);
    <I::Parent as Inverse>::lemma_inverse(b);
    I::lemma_ideal(nb, b);
    <I::Ring as SemiRing>::lemma_annihilates(a);
    I::lemma_ideal(y, ab);
    lemma_inverse_unique::<I::Parent>(y, ab);
    lemma_inverse_involutive::<I::Parent>(y);
    assert(<I::Parent as Inverse>::spec_inverse(ab) == y);
    // (x + a'b') + (y + w) == y + a'b'
    let yab2 = plus::<I::Ring>(y, ab2);
    <<I::Ring as SemiRing>::Addition as Associative>::lemma_associative(x, ab2, plus::<I::Ring>(y, w));
    <<I::Ring as SemiRing>::Addition as Associative>::lemma_associative(ab2, y, w);
    <<I::Ring as SemiRing>::Addition as Commutative>::lemma_commutative(ab2, y);
    <<I::Ring as SemiRing>::Addition as Commutative>::lemma_commutative(yab2, w);
    <<I::Ring as SemiRing>::Addition as Associative>::lemma_associative(x, w, yab2);
    <<I::Ring as SemiRing>::Addition as Identity>::lemma_identity(yab2);
    assert(plus::<I::Ring>(t1, t2) == yab2);
    I::lemma_ideal(y, ab2);
    assert(Modulo::<I>::spec_equivalent(ab, ab2));
}

/// A normal form of the cosets of a subgroup: two elements reduce to the
/// same representative exactly when they lie in the same left coset.
pub trait CosetNormalForm: Subgroup + NormalForm<Self::Superset> + Sized where
    <Self as Submonoid>::Parent: Inverse,
 {
    proof fn lemma_represents()
        ensures
            represents::<Self::Superset, Self, Modulo<Self>>(),
    ;
}

/// An element lies in the coset of its representative.
pub proof fn lemma_reduce_equivalent<N: CosetNormalForm>(x: <N::Superset as View>::V) where
    <N as Submonoid>::Parent: Inverse,

    ensures
        Modulo::<N>::spec_equivalent(N::spec_reduce(x), x),
{
    N::lemma_represents();
    N::lemma_idempotent(x);
    assert(N::spec_reduce(N::spec_reduce(x)) == N::spec_reduce(x));
}

/// The group operation on the cosets of a normal subgroup.
pub struct QuotientOp<N>(PhantomData<N>);

impl<N: NormalSubgroup + CosetNormalForm> BinaryOperator for QuotientOp<N> where
    <N as Submonoid>::Parent: Inverse,
 {
    type Domain = EqClass<N::Superset, N>;

    open spec fn spec_apply(
        a: <N::Superset as View>::V,
        b: <N::Superset as View>::V,
    ) -> <N::Superset as View>::V {
        N::spec_reduce(<N::Parent as BinaryOperator>::spec_apply(a, b))
    }

    open spec fn spec_symbol() -> Seq<char> {
        <N::Parent as BinaryOperator>::spec_symbol()
    }

    fn apply(a: EqClass<N::Superset, N>, b: EqClass<N::Superset, N>) -> (r: EqClass<
        N::Superset,
        N,
    >) {
        Modulo::<N>::applied(a, b)
    }

    fn symbol() -> (s: &'static str) {
        <N::Parent as BinaryOperator>::symbol()
    }
}

impl<N: NormalSubgroup + CosetNormalForm> Associative for QuotientOp<N> where
    <N as Submonoid>::Parent: Inverse,
 {
    proof fn lemma_associative(
        a: <N::Superset as View>::V,
        b: <N::Superset as View>::V,
        c: <N::Superset as View>::V,
    ) {
        let ab = <N::Parent as BinaryOperator>::spec_apply(a, b);
        let bc = <N::Parent as BinaryOperator>::spec_apply(b, c);
        N::lemma_represents();
        N::lemma_idempotent(ab);
        N::lemma_idempotent(bc);
        lemma_coset_product_well_defined::<N>(N::spec_reduce(ab), ab, c, c);
        lemma_coset_product_well_defined::<N>(a, a, N::spec_reduce(bc), bc);
        <N::Parent as Associative>::lemma_associative(a, b, c);
    }
}

/// Multiplication of residue classes modulo an ideal.
pub struct QuotientMul<I>(PhantomData<I>);

impl<I: Ideal + CosetNormalForm> BinaryOperator for QuotientMul<I> where
    <I as Submonoid>::Parent: Inverse,
 {
    type Domain = EqClass<I::Superset, I>;

    open spec fn spec_apply(
        a: <I::Superset as View>::V,
        b: <I::Superset as View>::V,
    ) -> <I::Superset as View>::V {
        I::spec_reduce(times::<I::Ring>(a, b))
    }

    open spec fn spec_symbol() -> Seq<char> {
        <<I::Ring as SemiRing>::Multiplication as BinaryOperator>::spec_symbol()
    }

    fn apply(a: EqClass<I::Superset, I>, b: EqClass<I::Superset, I>) -> (r: EqClass<
        I::Superset,
        I,
    >) {
        Modulo::<I>::multiplied(a, b)
    }

    fn symbol() -> (s: &'static str) {
        <<I::Ring as SemiRing>::Multiplication as BinaryOperator>::symbol()
    }
}

impl<I: Ideal + CosetNormalForm> Associative for QuotientMul<I> where
    <I as Submonoid>::Parent: Inverse,
 {
    proof fn lemma_associative(
        a: <I::Superset as View>::V,
        b: <I::Superset as View>::V,
        c: <I::Superset as View>::V,
    ) {
        let ab = times::<I::Ring>(a, b);
        let bc = times::<I::Ring>(b, c);
        I::lemma_represents();
        I::lemma_idempotent(ab);
        I::lemma_idempotent(bc);
        lemma_residue_product_well_defined::<I>(I::spec_reduce(ab), ab, c, c);
        lemma_residue_product_well_defined::<I>(a, a, I::spec_reduce(bc), bc);
        <<I::Ring as SemiRing>::Multiplication as Associative>::lemma_associative(a, b, c);
    }
}

} // verus!
