//! Substructures (submonoids, subgroups, subrings, ideals), modules and
//! algebras. Every law of a structure is a proof obligation on its
//! implementation.
use vstd::prelude::*;

use crate::integer::Z;
use crate::monoid::Monoid;
use crate::op::{AlgebraicSet, Associative, BinaryOperator, Commutative, Identity, Inverse};
use crate::operator_impl::{ZAdd, ZMul};
use crate::coset::{CosetNormalForm, Modulo};
use crate::quotient::{Equivalence, NormalForm};
use crate::ring::{one, plus, times, zero, CommutativeRing, Integers, Ring, SemiRing};

verus! {

/// A subset of `Superset`, given by its membership predicate.
pub trait Subset {
    type Superset: AlgebraicSet;

    /// Membership, on values.
    spec fn spec_contains(x: <Self::Superset as View>::V) -> bool;

    /// Whether `element` belongs to the subset.
    fn contains(element: &Self::Superset) -> (r: bool)
        ensures
            r == Self::spec_contains(element@),
    ;
}

/// A subset containing the identity and closed under the monoid operation.
pub trait Submonoid: Subset {
    type Parent: Monoid + BinaryOperator<Domain = Self::Superset>;

    proof fn lemma_submonoid(a: <Self::Superset as View>::V, b: <Self::Superset as View>::V)
        ensures
            Self::spec_contains(<Self::Parent as Identity>::spec_identity()),
            Self::spec_contains(a) && Self::spec_contains(b) ==> Self::spec_contains(
                <Self::Parent as BinaryOperator>::spec_apply(a, b),
            ),
    ;
}

/// A submonoid of a group that is closed under inverses.
pub trait Subgroup: Submonoid where <Self as Submonoid>::Parent: Inverse {
    proof fn lemma_subgroup(a: <Self::Superset as View>::V)
        ensures
            Self::spec_contains(a) ==> Self::spec_contains(
                <Self::Parent as Inverse>::spec_inverse(a),
            ),
    ;
}

/// A subgroup closed under conjugation by every element of its parent
/// group: `g * n * g^-1` belongs to it whenever `n` does.
pub trait NormalSubgroup: Subgroup where <Self as Submonoid>::Parent: Inverse {
    proof fn lemma_normal(g: <Self::Superset as View>::V, n: <Self::Superset as View>::V)
        ensures
            Self::spec_contains(n) ==> Self::spec_contains(
                <Self::Parent as BinaryOperator>::spec_apply(
                    <Self::Parent as BinaryOperator>::spec_apply(g, n),
                    <Self::Parent as Inverse>::spec_inverse(g),
                ),
            ),
    ;
}

/// A subset containing zero and one and closed under addition and
/// multiplication.
pub trait SubSemiRing: Subset {
    type Parent: SemiRing<Domain = Self::Superset>;

    proof fn lemma_subsemiring(a: <Self::Superset as View>::V, b: <Self::Superset as View>::V)
        ensures
            Self::spec_contains(zero::<Self::Parent>()),
            Self::spec_contains(one::<Self::Parent>()),
            Self::spec_contains(a) && Self::spec_contains(b) ==> Self::spec_contains(
                plus::<Self::Parent>(a, b),
            ),
            Self::spec_contains(a) && Self::spec_contains(b) ==> Self::spec_contains(
                times::<Self::Parent>(a, b),
            ),
    ;
}

/// A unital subsemiring of a ring that is closed under additive inverses.
pub trait Subring: SubSemiRing where <Self as SubSemiRing>::Parent: Ring {
    proof fn lemma_subring(a: <Self::Superset as View>::V)
        ensures
            Self::spec_contains(a) ==> Self::spec_contains(
                <Self::Parent as Ring>::spec_negate(a),
            ),
    ;
}

/// A two-sided ideal of a ring: a normal subgroup of the additive group that
/// absorbs multiplication from both sides by every element of the ring.
pub trait Ideal: NormalSubgroup where <Self as Submonoid>::Parent: Inverse {
    type Ring: Ring<Domain = Self::Superset>;

    proof fn lemma_ideal(r: <Self::Superset as View>::V, a: <Self::Superset as View>::V)
        ensures
            <Self::Parent as BinaryOperator>::spec_apply(r, a) == plus::<Self::Ring>(r, a),
            Self::spec_contains(a) ==> Self::spec_contains(times::<Self::Ring>(r, a)),
            Self::spec_contains(a) ==> Self::spec_contains(times::<Self::Ring>(a, r)),
    ;

    /// Whether this ideal is strictly smaller than its ring: it does not
    /// contain one.
    fn is_proper() -> (r: bool)
        ensures
            r == !Self::spec_contains(one::<Self::Ring>()),
    {
        !Self::contains(&<Self::Ring as SemiRing>::one())
    }
}

/// A left module over a ring: addition makes the domain an abelian group,
/// and scalar multiplication is unital, distributes over both additions,
/// and respects scalar multiplication.
pub trait Module {
    type Scalars: Ring;

    type Domain: AlgebraicSet;

    type Addition: BinaryOperator<Domain = Self::Domain> + Associative + Commutative + Identity + Inverse;

    /// Scalar multiplication, on values.
    spec fn spec_scale(
        scalar: <<Self::Scalars as SemiRing>::Domain as View>::V,
        value: <Self::Domain as View>::V,
    ) -> <Self::Domain as View>::V;

    /// `scalar * value`.
    fn scale(scalar: <Self::Scalars as SemiRing>::Domain, value: Self::Domain) -> (r: Self::Domain)
        ensures
            r@ == Self::spec_scale(scalar@, value@),
    ;

    proof fn lemma_module(
        r: <<Self::Scalars as SemiRing>::Domain as View>::V,
        s: <<Self::Scalars as SemiRing>::Domain as View>::V,
        x: <Self::Domain as View>::V,
        y: <Self::Domain as View>::V,
    )
        ensures
            Self::spec_scale(plus::<Self::Scalars>(r, s), x) == <Self::Addition as BinaryOperator>::spec_apply(
                Self::spec_scale(r, x),
                Self::spec_scale(s, x),
            ),
            Self::spec_scale(r, <Self::Addition as BinaryOperator>::spec_apply(x, y))
                == <Self::Addition as BinaryOperator>::spec_apply(
                Self::spec_scale(r, x),
                Self::spec_scale(r, y),
            ),
            Self::spec_scale(times::<Self::Scalars>(r, s), x) == Self::spec_scale(
                r,
                Self::spec_scale(s, x),
            ),
            Self::spec_scale(one::<Self::Scalars>(), x) == x,
    ;
}

/// A subset of a module containing zero and closed under addition,
/// additive inverses, and scalar multiplication.
pub trait Submodule {
    type Parent: Module;

    /// Membership, on values.
    spec fn spec_contains(x: <<Self::Parent as Module>::Domain as View>::V) -> bool;

    /// Whether `value` belongs to the submodule.
    fn contains(value: &<Self::Parent as Module>::Domain) -> (r: bool)
        ensures
            r == Self::spec_contains(value@),
    ;

    proof fn lemma_submodule(
        r: <<<Self::Parent as Module>::Scalars as SemiRing>::Domain as View>::V,
        x: <<Self::Parent as Module>::Domain as View>::V,
        y: <<Self::Parent as Module>::Domain as View>::V,
    )
        ensures
            Self::spec_contains(
                <<Self::Parent as Module>::Addition as Identity>::spec_identity(),
            ),
            Self::spec_contains(x) && Self::spec_contains(y) ==> Self::spec_contains(
                <<Self::Parent as Module>::Addition as BinaryOperator>::spec_apply(x, y),
            ),
            Self::spec_contains(x) ==> Self::spec_contains(
                <<Self::Parent as Module>::Addition as Inverse>::spec_inverse(x),
            ),
            Self::spec_contains(x) ==> Self::spec_contains(
                <Self::Parent as Module>::spec_scale(r, x),
            ),
    ;
}

/// An associative unital algebra over a commutative ring: the module and
/// ring additions are the same, and scalar multiplication is compatible
/// with the algebra's multiplication and acts centrally.
pub trait Algebra: Ring + Module<Domain = <Self as SemiRing>::Domain> where
    <Self as Module>::Scalars: CommutativeRing,
 {
    proof fn lemma_algebra(
        r: <<<Self as Module>::Scalars as SemiRing>::Domain as View>::V,
        a: <<Self as SemiRing>::Domain as View>::V,
        b: <<Self as SemiRing>::Domain as View>::V,
    )
        ensures
            <<Self as Module>::Addition as BinaryOperator>::spec_apply(a, b) == plus::<Self>(a, b),
            Self::spec_scale(r, times::<Self>(a, b)) == times::<Self>(Self::spec_scale(r, a), b),
            Self::spec_scale(r, times::<Self>(a, b)) == times::<Self>(a, Self::spec_scale(r, b)),
    ;

    /// The image of a scalar: the scalar times one.
    fn from_scalar(scalar: <<Self as Module>::Scalars as SemiRing>::Domain) -> (r: <Self as SemiRing>::Domain)
        ensures
            r@ == Self::spec_scale(scalar@, one::<Self>()),
    {
        Self::scale(scalar, <Self as SemiRing>::one())
    }
}

/// A unital subring of an algebra closed under scalar multiplication.
pub trait Subalgebra: Subring where
    <Self as SubSemiRing>::Parent: Algebra,
    <<Self as SubSemiRing>::Parent as Module>::Scalars: CommutativeRing,
 {
    proof fn lemma_subalgebra(
        r: <<<<Self as SubSemiRing>::Parent as Module>::Scalars as SemiRing>::Domain as View>::V,
        a: <Self::Superset as View>::V,
    )
        ensures
            Self::spec_contains(a) ==> Self::spec_contains(
                <<Self as SubSemiRing>::Parent as Module>::spec_scale(r, a),
            ),
    ;
}

/// A field: a commutative ring whose multiplication has an inverse for
/// every element except zero.
pub trait Field: CommutativeRing {
    /// The multiplicative inverse, on values.
    spec fn spec_invert(a: <Self::Domain as View>::V) -> <Self::Domain as View>::V;

    /// The multiplicative inverse of a non-zero element.
    fn invert(a: Self::Domain) -> (r: Self::Domain)
        requires
            a@ != zero::<Self>(),
        ensures
            r@ == Self::spec_invert(a@),
    ;

    /// How division is spelled in source text: `a / b` is `a * b^-1`.
    spec fn spec_div_symbol() -> Seq<char>;

    /// How division is spelled in source text.
    fn div_symbol() -> (s: &'static str)
        ensures
            s@ == Self::spec_div_symbol(),
    ;

    proof fn lemma_field(a: <Self::Domain as View>::V)
        ensures
            a != zero::<Self>() ==> times::<Self>(a, Self::spec_invert(a)) == one::<Self>(),
            a != zero::<Self>() ==> times::<Self>(Self::spec_invert(a), a) == one::<Self>(),
    ;
}

/// A commutative ring with a family of commuting derivations indexed by
/// `Index`: each is additive and satisfies Leibniz,
/// `d(ab) = d(a) b + a d(b)`.
pub trait DifferentialRing: CommutativeRing {
    type Index;

    /// `d_i a`, on values.
    spec fn spec_derive(a: <Self::Domain as View>::V, i: Self::Index) -> <Self::Domain as View>::V;

    /// `d_i a`.
    fn derive(a: Self::Domain, i: &Self::Index) -> (r: Self::Domain)
        ensures
            r@ == Self::spec_derive(a@, *i),
    ;

    proof fn lemma_derivation(
        a: <Self::Domain as View>::V,
        b: <Self::Domain as View>::V,
        i: Self::Index,
        j: Self::Index,
    )
        ensures
            Self::spec_derive(plus::<Self>(a, b), i) == plus::<Self>(
                Self::spec_derive(a, i),
                Self::spec_derive(b, i),
            ),
            Self::spec_derive(times::<Self>(a, b), i) == plus::<Self>(
                times::<Self>(Self::spec_derive(a, i), b),
                times::<Self>(a, Self::spec_derive(b, i)),
            ),
            Self::spec_derive(Self::spec_derive(a, i), j) == Self::spec_derive(
                Self::spec_derive(a, j),
                i,
            ),
    ;
}

/// Whether `value` is even.
fn is_even(value: &Z) -> (r: bool)
    ensures
        r == (value@ % 2 == 0),
{
    let two = Z::from_i64(2);
    let rest = value.rem_euclid(&two);
    rest.equals(&Z::zero())
}

/// A multiple of an even integer is even.
proof fn lemma_even_multiple(r: int, a: int)
    requires
        a % 2 == 0,
    ensures
        (r * a) % 2 == 0,
        (a * r) % 2 == 0,
{
    let k = a / 2;
    assert(a == 2 * k);
    assert(r * a == 2 * (r * k)) by (nonlinear_arith)
        requires
            a == 2 * k,
    ;
    assert(a * r == r * a) by (nonlinear_arith);
    vstd::arithmetic::div_mod::lemma_mod_multiples_basic(r * k, 2);
    assert((2 * (r * k)) % 2 == 0) by (nonlinear_arith);
}

/// The even integers: an ideal of the integers, and a submodule of the
/// integers as a module over themselves.
#[derive(Debug)]
pub struct EvenIntegers;

impl Subset for EvenIntegers {
    type Superset = Z;

    open spec fn spec_contains(x: int) -> bool {
        x % 2 == 0
    }

    fn contains(element: &Z) -> (r: bool) {
        is_even(element)
    }
}

impl Submonoid for EvenIntegers {
    type Parent = ZAdd;

    proof fn lemma_submonoid(a: int, b: int) {
        assert((a % 2 == 0 && b % 2 == 0) ==> (a + b) % 2 == 0) by (nonlinear_arith);
    }
}

impl Subgroup for EvenIntegers {
    proof fn lemma_subgroup(a: int) {
        assert(a % 2 == 0 ==> (-a) % 2 == 0) by (nonlinear_arith);
    }
}

impl NormalSubgroup for EvenIntegers {
    proof fn lemma_normal(g: int, n: int) {
        assert(g + n + -g == n);
    }
}

impl Ideal for EvenIntegers {
    type Ring = Integers;

    proof fn lemma_ideal(r: int, a: int) {
        if a % 2 == 0 {
            lemma_even_multiple(r, a);
        }
    }
}

/// Each class modulo two is represented by its least nonnegative member.
impl NormalForm<Z> for EvenIntegers {
    open spec fn spec_reduce(x: int) -> int {
        x % 2
    }

    fn reduce(element: Z) -> (r: Z) {
        element.rem_euclid(&Z::from_i64(2))
    }

    proof fn lemma_idempotent(x: int) {
    }
}

/// Two integers have the same remainder modulo two exactly when their
/// difference is even.
impl CosetNormalForm for EvenIntegers {
    proof fn lemma_represents() {
    assert forall|a: int, b: int|
        #![trigger EvenIntegers::spec_reduce(a), EvenIntegers::spec_reduce(b)]
        (EvenIntegers::spec_reduce(a) == EvenIntegers::spec_reduce(b)) == Modulo::<
            EvenIntegers,
        >::spec_equivalent(a, b) by {
        assert((a % 2 == b % 2) == ((-a + b) % 2 == 0)) by (nonlinear_arith);
    }
    }
}

/// A ring as an ideal of itself.
#[derive(Debug)]
pub struct WholeRing;

impl Subset for WholeRing {
    type Superset = Z;

    open spec fn spec_contains(x: int) -> bool {
        true
    }

    fn contains(element: &Z) -> (r: bool) {
        true
    }
}

impl Submonoid for WholeRing {
    type Parent = ZAdd;

    proof fn lemma_submonoid(a: int, b: int) {
    }
}

impl Subgroup for WholeRing {
    proof fn lemma_subgroup(a: int) {
    }
}

impl NormalSubgroup for WholeRing {
    proof fn lemma_normal(g: int, n: int) {
    }
}

impl Ideal for WholeRing {
    type Ring = Integers;

    proof fn lemma_ideal(r: int, a: int) {
    }
}

/// The whole ring is a single class, represented by zero.
impl NormalForm<Z> for WholeRing {
    open spec fn spec_reduce(x: int) -> int {
        0
    }

    fn reduce(element: Z) -> (r: Z) {
        Z::zero()
    }

    proof fn lemma_idempotent(x: int) {
    }
}

/// Any two integers lie in the same coset of the whole ring.
impl CosetNormalForm for WholeRing {
    proof fn lemma_represents() {
    }
}

/// The zero ideal `{0}` of the integers.
#[derive(Debug)]
pub struct ZeroIdeal;

impl Subset for ZeroIdeal {
    type Superset = Z;

    open spec fn spec_contains(x: int) -> bool {
        x == 0
    }

    fn contains(element: &Z) -> (r: bool) {
        element.equals(&Z::zero())
    }
}

impl Submonoid for ZeroIdeal {
    type Parent = ZAdd;

    proof fn lemma_submonoid(a: int, b: int) {
    }
}

impl Subgroup for ZeroIdeal {
    proof fn lemma_subgroup(a: int) {
    }
}

impl NormalSubgroup for ZeroIdeal {
    proof fn lemma_normal(g: int, n: int) {
    }
}

impl Ideal for ZeroIdeal {
    type Ring = Integers;

    proof fn lemma_ideal(r: int, a: int) {
        if a == 0 {
            assert(r * a == 0 && a * r == 0) by (nonlinear_arith)
                requires
                    a == 0,
            ;
        }
    }
}

/// Every class modulo the zero ideal holds a single integer.
impl NormalForm<Z> for ZeroIdeal {
    open spec fn spec_reduce(x: int) -> int {
        x
    }

    fn reduce(element: Z) -> (r: Z) {
        element
    }

    proof fn lemma_idempotent(x: int) {
    }
}

/// Two integers lie in the same coset of `{0}` exactly when they are equal.
impl CosetNormalForm for ZeroIdeal {
    proof fn lemma_represents() {
    }
}

/// The nonnegative integers: a subsemiring of the integers that is not a
/// subring.
#[derive(Debug)]
pub struct NonnegativeIntegers;

impl Subset for NonnegativeIntegers {
    type Superset = Z;

    open spec fn spec_contains(x: int) -> bool {
        x >= 0
    }

    fn contains(element: &Z) -> (r: bool) {
        !element.lt(&Z::zero())
    }
}

/// Under addition, the nonnegative integers form a submonoid of the
/// integers.
impl Submonoid for NonnegativeIntegers {
    type Parent = ZAdd;

    proof fn lemma_submonoid(a: int, b: int) {
    }
}

impl SubSemiRing for NonnegativeIntegers {
    type Parent = Integers;

    proof fn lemma_subsemiring(a: int, b: int) {
        assert((a >= 0 && b >= 0) ==> a * b >= 0) by (nonlinear_arith);
    }
}

/// All the integers, as a subring of themselves.
#[derive(Debug)]
pub struct AllIntegers;

impl Subset for AllIntegers {
    type Superset = Z;

    open spec fn spec_contains(x: int) -> bool {
        true
    }

    fn contains(element: &Z) -> (r: bool) {
        true
    }
}

impl SubSemiRing for AllIntegers {
    type Parent = Integers;

    proof fn lemma_subsemiring(a: int, b: int) {
    }
}

impl Subring for AllIntegers {
    proof fn lemma_subring(a: int) {
    }
}

/// The integers as a module over themselves.
#[derive(Debug)]
pub struct IntegerModule;

impl Module for IntegerModule {
    type Scalars = Integers;

    type Domain = Z;

    type Addition = ZAdd;

    open spec fn spec_scale(scalar: int, value: int) -> int {
        scalar * value
    }

    fn scale(scalar: Z, value: Z) -> (r: Z) {
        Integers::multiply(scalar, value)
    }

    proof fn lemma_module(r: int, s: int, x: int, y: int) {
        assert((r + s) * x == r * x + s * x) by (nonlinear_arith);
        assert(r * (x + y) == r * x + r * y) by (nonlinear_arith);
        assert((r * s) * x == r * (s * x)) by (nonlinear_arith);
    }
}

impl Submodule for EvenIntegers {
    type Parent = IntegerModule;

    open spec fn spec_contains(x: int) -> bool {
        x % 2 == 0
    }

    fn contains(value: &Z) -> (r: bool) {
        is_even(value)
    }

    proof fn lemma_submodule(r: int, x: int, y: int) {
        assert((x % 2 == 0 && y % 2 == 0) ==> (x + y) % 2 == 0) by (nonlinear_arith);
        assert(x % 2 == 0 ==> (-x) % 2 == 0) by (nonlinear_arith);
        if x % 2 == 0 {
            lemma_even_multiple(r, x);
        }
    }
}

/// The integers as an algebra over themselves.
#[derive(Debug)]
pub struct IntegerAlgebra;

impl SemiRing for IntegerAlgebra {
    type Domain = Z;

    type Addition = ZAdd;

    type Multiplication = ZMul;

    proof fn lemma_distributive(a: int, b: int, c: int) {
        assert(a * (b + c) == a * b + a * c) by (nonlinear_arith);
        assert((b + c) * a == b * a + c * a) by (nonlinear_arith);
    }

    proof fn lemma_annihilates(a: int) {
    }
}

impl Ring for IntegerAlgebra {
    open spec fn spec_negate(a: int) -> int {
        -a
    }

    open spec fn spec_sub_symbol() -> Seq<char> {
        "-"@
    }

    fn negate(a: Z) -> (r: Z) {
        a.neg()
    }

    fn sub_symbol() -> (s: &'static str) {
        "-"
    }

    proof fn lemma_negate(a: int) {
    }
}

impl CommutativeRing for IntegerAlgebra {
    proof fn lemma_commutative(a: int, b: int) {
        assert(a * b == b * a) by (nonlinear_arith);
    }
}

impl Module for IntegerAlgebra {
    type Scalars = Integers;

    type Domain = Z;

    type Addition = ZAdd;

    open spec fn spec_scale(scalar: int, value: int) -> int {
        scalar * value
    }

    fn scale(scalar: Z, value: Z) -> (r: Z) {
        Integers::multiply(scalar, value)
    }

    proof fn lemma_module(r: int, s: int, x: int, y: int) {
        assert((r + s) * x == r * x + s * x) by (nonlinear_arith);
        assert(r * (x + y) == r * x + r * y) by (nonlinear_arith);
        assert((r * s) * x == r * (s * x)) by (nonlinear_arith);
    }
}

impl Algebra for IntegerAlgebra {
    proof fn lemma_algebra(r: int, a: int, b: int) {
        assert(r * (a * b) == (r * a) * b) by (nonlinear_arith);
        assert(r * (a * b) == a * (r * b)) by (nonlinear_arith);
    }
}

} // verus!
