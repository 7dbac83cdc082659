//! Laws of the elementary-function calculus: the power rule brings down the
//! exponent as a field element, and expanding a negation negates the value.
use vstd::prelude::*;

use crate::elementary::{ETerm, ETermOf, EValue, ElementaryExpr};
use crate::elementary_rewriter::{
    cross_power, canonical, canonical_each, canonical_monomial, cross, expand, factor_after, insert_stable,
    merge_factors, merge_monomials, monomial_after, nonzero_coeff, nonzero_exponent, normalizes,
    product, sort_stable, unit, EAtom, EFactor, EMono, Monomial,
};
use crate::op::{Associative, Commutative, Identity};
use crate::ring::{one, plus, times, zero, CommutativeRing, Ring, SemiRing};
use crate::structure::Field;

verus! {

// ----------------------------------------------------------------------------
// Additive groups of rings
// ----------------------------------------------------------------------------

/// A value that adds to `x` to make zero is `-x`.
pub proof fn lemma_additive_inverse_unique<R: Ring>(
    x: <R::Domain as View>::V,
    y: <R::Domain as View>::V,
)
    requires
        plus::<R>(x, y) == zero::<R>(),
    ensures
        y == R::spec_negate(x),
{
    let nx = R::spec_negate(x);
    R::lemma_negate(x);
    <R::Addition as Identity>::lemma_identity(y);
    <R::Addition as Identity>::lemma_identity(nx);
    <R::Addition as Associative>::lemma_associative(nx, x, y);
}

/// `-(a + b) == -a + -b`.
pub proof fn lemma_negate_sum<R: Ring>(a: <R::Domain as View>::V, b: <R::Domain as View>::V)
    ensures
        R::spec_negate(plus::<R>(a, b)) == plus::<R>(R::spec_negate(a), R::spec_negate(b)),
{
    let na = R::spec_negate(a);
    let nb = R::spec_negate(b);
    R::lemma_negate(a);
    R::lemma_negate(b);
    // (a + b) + (-a + -b) == a + (b + (-a + -b)) == a + (-a + (b + -b)) == a + -a == 0
    <R::Addition as Associative>::lemma_associative(a, b, plus::<R>(na, nb));
    <R::Addition as Associative>::lemma_associative(b, na, nb);
    <R::Addition as Commutative>::lemma_commutative(b, na);
    <R::Addition as Associative>::lemma_associative(na, b, nb);
    <R::Addition as Identity>::lemma_identity(na);
    lemma_additive_inverse_unique::<R>(plus::<R>(a, b), plus::<R>(na, nb));
}

/// `(-a) * b == -(a * b)`.
pub proof fn lemma_negate_times<R: Ring>(a: <R::Domain as View>::V, b: <R::Domain as View>::V)
    ensures
        times::<R>(R::spec_negate(a), b) == R::spec_negate(times::<R>(a, b)),
{
    let na = R::spec_negate(a);
    R::lemma_negate(a);
    R::lemma_distributive(b, a, na);
    R::lemma_annihilates(b);
    lemma_additive_inverse_unique::<R>(times::<R>(a, b), times::<R>(na, b));
}

// ----------------------------------------------------------------------------
// The power rule
// ----------------------------------------------------------------------------

/// The constant a product leads with.
pub open spec fn leading_constant<V>(t: ETerm<V>) -> V {
    match t {
        ETerm::Mul(fs) => fs[0]->Const_0,
        _ => arbitrary(),
    }
}

/// The power rule brings down the exponent as a field element: the
/// derivative of `b^n` leads with a constant, that constant is `0` for
/// `n == 0`, and it grows by `1` from each exponent to the next, so that
/// it is `n * 1` for every integer `n`, negative ones included.
pub proof fn lemma_power_rule_coefficient<F: Field>(b: ETermOf<F>, w: Seq<char>, k: nat, n: int)
    ensures
        ElementaryExpr::<F>::deriv(ETerm::Pow(Box::new(b), n), w, k) matches ETerm::Mul(fs) && fs.len()
            == 3 && fs[0] is Const,
        leading_constant(ElementaryExpr::<F>::deriv(ETerm::Pow(Box::new(b), 0), w, k)) == zero::<F>(),
        leading_constant(ElementaryExpr::<F>::deriv(ETerm::Pow(Box::new(b), n + 1), w, k)) == plus::<
            F,
        >(leading_constant(ElementaryExpr::<F>::deriv(ETerm::Pow(Box::new(b), n), w, k)), one::<F>()),
{
    let c = |m: int| leading_constant(ElementaryExpr::<F>::deriv(ETerm::Pow(Box::new(b), m), w, k));
    assert(c(n) == ElementaryExpr::<F>::exponent_coefficient(n));
    assert(c(n + 1) == ElementaryExpr::<F>::exponent_coefficient(n + 1));
    assert(c(0) == ElementaryExpr::<F>::exponent_coefficient(0));
    if n >= 0 {
    } else if n == -1 {
        // -(0 + 1) + 1 == 0
        <F::Addition as Identity>::lemma_identity(one::<F>());
        F::lemma_negate(one::<F>());
    } else {
        // -((m) + 1) + 1 == -m, with m == -n - 1
        let m = (-n - 1) as nat;
        assert((-n) as nat == m + 1);
        let nm = crate::ring::nat_value::<F>(m);
        lemma_negate_sum::<F>(nm, one::<F>());
        F::lemma_negate(one::<F>());
        <F::Addition as Associative>::lemma_associative(
            F::spec_negate(nm),
            F::spec_negate(one::<F>()),
            one::<F>(),
        );
        <F::Addition as Identity>::lemma_identity(F::spec_negate(nm));
        assert((-(n + 1)) as nat == m);
    }
}

// ----------------------------------------------------------------------------
// The value of monomials
// ----------------------------------------------------------------------------

/// `v^e` for a non-negative `e`.
pub open spec fn power_nat<F: Field>(v: EValue<F>, e: nat) -> EValue<F>
    decreases e,
{
    if e == 0 {
        one::<F>()
    } else {
        times::<F>(power_nat::<F>(v, (e - 1) as nat), v)
    }
}

/// `v^e` for an integer `e`: a negative power is a power of the inverse.
pub open spec fn power_int<F: Field>(v: EValue<F>, e: int) -> EValue<F> {
    if e >= 0 {
        power_nat::<F>(v, e as nat)
    } else {
        power_nat::<F>(F::spec_invert(v), (-e) as nat)
    }
}

/// The value of a product of factors, each atom taking its value from
/// `atom_value`.
pub open spec fn factors_value<F: Field>(
    fs: Seq<EFactor<F>>,
    atom_value: spec_fn(EAtom<EValue<F>>) -> EValue<F>,
) -> EValue<F>
    decreases fs.len(),
{
    if fs.len() == 0 {
        one::<F>()
    } else {
        times::<F>(
            power_int::<F>(atom_value(fs[0].0), fs[0].1),
            factors_value::<F>(fs.drop_first(), atom_value),
        )
    }
}

/// The value of a monomial: its coefficient times its factors.
pub open spec fn monomial_value<F: Field>(
    m: EMono<F>,
    atom_value: spec_fn(EAtom<EValue<F>>) -> EValue<F>,
) -> EValue<F> {
    times::<F>(m.coeff, factors_value::<F>(m.factors, atom_value))
}

/// The value of a sum of monomials.
pub open spec fn monomials_value<F: Field>(
    ms: Seq<EMono<F>>,
    atom_value: spec_fn(EAtom<EValue<F>>) -> EValue<F>,
) -> EValue<F>
    decreases ms.len(),
{
    if ms.len() == 0 {
        zero::<F>()
    } else {
        plus::<F>(
            monomial_value::<F>(ms[0], atom_value),
            monomials_value::<F>(ms.drop_first(), atom_value),
        )
    }
}

proof fn lemma_negated_monomials<F: Field>(
    ms: Seq<EMono<F>>,
    ns: Seq<EMono<F>>,
    atom_value: spec_fn(EAtom<EValue<F>>) -> EValue<F>,
)
    requires
        ns.len() == ms.len(),
        forall|i: int|
            0 <= i < ms.len() ==> #[trigger] ns[i].coeff == F::spec_negate(ms[i].coeff)
                && ns[i].factors == ms[i].factors,
    ensures
        monomials_value::<F>(ns, atom_value) == F::spec_negate(monomials_value::<F>(ms, atom_value)),
    decreases ms.len(),
{
    if ms.len() == 0 {
        <F::Addition as Identity>::lemma_identity(zero::<F>());
        lemma_additive_inverse_unique::<F>(zero::<F>(), zero::<F>());
    } else {
        assert(ns[0].coeff == F::spec_negate(ms[0].coeff));
        assert forall|i: int| 0 <= i < ms.drop_first().len() implies #[trigger] ns.drop_first()[i].coeff
            == F::spec_negate(ms.drop_first()[i].coeff) && ns.drop_first()[i].factors
            == ms.drop_first()[i].factors by {
            assert(ns[i + 1].coeff == F::spec_negate(ms[i + 1].coeff));
        }
        lemma_negated_monomials::<F>(ms.drop_first(), ns.drop_first(), atom_value);
        let p = factors_value::<F>(ms[0].factors, atom_value);
        lemma_negate_times::<F>(ms[0].coeff, p);
        lemma_negate_sum::<F>(
            monomial_value::<F>(ms[0], atom_value),
            monomials_value::<F>(ms.drop_first(), atom_value),
        );
    }
}

/// Expanding a negation negates the value: `Neg(u)` expands exactly when
/// `u` does, into as many monomials, over the same factors, and whatever
/// values the atoms take, the monomials of `Neg(u)` add up to minus those
/// of `u`; so `x + (-x)` adds up to zero.
pub proof fn lemma_expand_negation<F: Field>(
    u: ETermOf<F>,
    fuel: nat,
    atom_value: spec_fn(EAtom<EValue<F>>) -> EValue<F>,
)
    ensures
        (expand::<F>(ETerm::Neg(Box::new(u)), fuel) is Some) == (expand::<F>(u, fuel) is Some),
        expand::<F>(u, fuel) is Some ==> {
            let ms = expand::<F>(u, fuel)->Some_0;
            let ns = expand::<F>(ETerm::Neg(Box::new(u)), fuel)->Some_0;
            &&& ns.len() == ms.len()
            &&& forall|i: int| 0 <= i < ms.len() ==> #[trigger] ns[i].factors == ms[i].factors
            &&& monomials_value::<F>(ns, atom_value) == F::spec_negate(
                monomials_value::<F>(ms, atom_value),
            )
            &&& plus::<F>(
                monomials_value::<F>(ms, atom_value),
                monomials_value::<F>(ns, atom_value),
            ) == zero::<F>()
        },
{
    if expand::<F>(u, fuel) is Some {
        let ms = expand::<F>(u, fuel)->Some_0;
        let ns = expand::<F>(ETerm::Neg(Box::new(u)), fuel)->Some_0;
        assert(ns.len() == ms.len());
        lemma_negated_monomials::<F>(ms, ns, atom_value);
        F::lemma_negate(monomials_value::<F>(ms, atom_value));
    }
}


// ----------------------------------------------------------------------------
// Sums and products of monomial lists
// ----------------------------------------------------------------------------

/// The value of two monomial lists one after the other is the sum of their
/// values.
pub proof fn lemma_monomials_value_concat<F: Field>(
    a: Seq<EMono<F>>,
    b: Seq<EMono<F>>,
    atom_value: spec_fn(EAtom<EValue<F>>) -> EValue<F>,
)
    ensures
        monomials_value::<F>(a + b, atom_value) == plus::<F>(
            monomials_value::<F>(a, atom_value),
            monomials_value::<F>(b, atom_value),
        ),
    decreases a.len(),
{
    if a.len() == 0 {
        assert(a + b =~= b);
        <F::Addition as Commutative>::lemma_commutative(zero::<F>(), monomials_value::<F>(b, atom_value));
        <F::Addition as Identity>::lemma_identity(monomials_value::<F>(b, atom_value));
    } else {
        assert((a + b).drop_first() =~= a.drop_first() + b);
        assert((a + b)[0] == a[0]);
        lemma_monomials_value_concat::<F>(a.drop_first(), b, atom_value);
        <F::Addition as Associative>::lemma_associative(
            monomial_value::<F>(a[0], atom_value),
            monomials_value::<F>(a.drop_first(), atom_value),
            monomials_value::<F>(b, atom_value),
        );
    }
}

proof fn lemma_factors_value_concat<F: Field>(
    f: Seq<EFactor<F>>,
    g: Seq<EFactor<F>>,
    atom_value: spec_fn(EAtom<EValue<F>>) -> EValue<F>,
)
    ensures
        factors_value::<F>(f + g, atom_value) == times::<F>(
            factors_value::<F>(f, atom_value),
            factors_value::<F>(g, atom_value),
        ),
    decreases f.len(),
{
    if f.len() == 0 {
        assert(f + g =~= g);
        <F::Multiplication as Identity>::lemma_identity(factors_value::<F>(g, atom_value));
    } else {
        assert((f + g).drop_first() =~= f.drop_first() + g);
        assert((f + g)[0] == f[0]);
        lemma_factors_value_concat::<F>(f.drop_first(), g, atom_value);
        <F::Multiplication as Associative>::lemma_associative(
            power_int::<F>(atom_value(f[0].0), f[0].1),
            factors_value::<F>(f.drop_first(), atom_value),
            factors_value::<F>(g, atom_value),
        );
    }
}

/// `(a * b) * (c * d) == (a * c) * (b * d)` in a commutative ring.
proof fn lemma_times_interchange<F: Field>(a: EValue<F>, b: EValue<F>, c: EValue<F>, d: EValue<F>)
    ensures
        times::<F>(times::<F>(a, b), times::<F>(c, d)) == times::<F>(
            times::<F>(a, c),
            times::<F>(b, d),
        ),
{
    <F::Multiplication as Associative>::lemma_associative(a, b, times::<F>(c, d));
    <F::Multiplication as Associative>::lemma_associative(b, c, d);
    F::lemma_commutative(b, c);
    <F::Multiplication as Associative>::lemma_associative(c, b, d);
    <F::Multiplication as Associative>::lemma_associative(a, c, times::<F>(b, d));
}

/// The value of a product of monomials is the product of their values.
pub proof fn lemma_product_value<F: Field>(
    a: EMono<F>,
    b: EMono<F>,
    atom_value: spec_fn(EAtom<EValue<F>>) -> EValue<F>,
)
    ensures
        monomial_value::<F>(product::<F>(a, b), atom_value) == times::<F>(
            monomial_value::<F>(a, atom_value),
            monomial_value::<F>(b, atom_value),
        ),
{
    lemma_factors_value_concat::<F>(a.factors, b.factors, atom_value);
    lemma_times_interchange::<F>(
        a.coeff,
        b.coeff,
        factors_value::<F>(a.factors, atom_value),
        factors_value::<F>(b.factors, atom_value),
    );
}

proof fn lemma_scaled_value<F: Field>(
    m: EMono<F>,
    rhs: Seq<EMono<F>>,
    atom_value: spec_fn(EAtom<EValue<F>>) -> EValue<F>,
)
    ensures
        monomials_value::<F>(rhs.map_values(|b: EMono<F>| product::<F>(m, b)), atom_value)
            == times::<F>(monomial_value::<F>(m, atom_value), monomials_value::<F>(rhs, atom_value)),
    decreases rhs.len(),
{
    let mapped = rhs.map_values(|b: EMono<F>| product::<F>(m, b));
    let mv = monomial_value::<F>(m, atom_value);
    if rhs.len() == 0 {
        F::lemma_annihilates(mv);
    } else {
        assert(mapped.drop_first() =~= rhs.drop_first().map_values(|b: EMono<F>| product::<F>(m, b)));
        assert(mapped[0] == product::<F>(m, rhs[0]));
        lemma_scaled_value::<F>(m, rhs.drop_first(), atom_value);
        lemma_product_value::<F>(m, rhs[0], atom_value);
        F::lemma_distributive(
            mv,
            monomial_value::<F>(rhs[0], atom_value),
            monomials_value::<F>(rhs.drop_first(), atom_value),
        );
    }
}

proof fn lemma_monomials_value_last<F: Field>(
    s: Seq<EMono<F>>,
    atom_value: spec_fn(EAtom<EValue<F>>) -> EValue<F>,
)
    requires
        s.len() > 0,
    ensures
        monomials_value::<F>(s, atom_value) == plus::<F>(
            monomials_value::<F>(s.drop_last(), atom_value),
            monomial_value::<F>(s.last(), atom_value),
        ),
{
    assert(s.drop_last() + seq![s.last()] =~= s);
    lemma_monomials_value_concat::<F>(s.drop_last(), seq![s.last()], atom_value);
    assert(seq![s.last()].drop_first() =~= Seq::<EMono<F>>::empty());
    assert(monomials_value::<F>(Seq::<EMono<F>>::empty(), atom_value) == zero::<F>());
    assert(monomials_value::<F>(seq![s.last()], atom_value) == plus::<F>(
        monomial_value::<F>(s.last(), atom_value),
        monomials_value::<F>(seq![s.last()].drop_first(), atom_value),
    ));
    <F::Addition as Identity>::lemma_identity(monomial_value::<F>(s.last(), atom_value));
}

/// Multiplying out two sums of monomials multiplies their values.
pub proof fn lemma_cross_value<F: Field>(
    acc: Seq<EMono<F>>,
    rhs: Seq<EMono<F>>,
    atom_value: spec_fn(EAtom<EValue<F>>) -> EValue<F>,
)
    ensures
        monomials_value::<F>(cross::<F>(acc, rhs), atom_value) == times::<F>(
            monomials_value::<F>(acc, atom_value),
            monomials_value::<F>(rhs, atom_value),
        ),
    decreases acc.len(),
{
    let r = monomials_value::<F>(rhs, atom_value);
    if acc.len() == 0 {
        F::lemma_annihilates(r);
    } else {
        let dl = acc.drop_last();
        lemma_cross_value::<F>(dl, rhs, atom_value);
        lemma_monomials_value_concat::<F>(
            cross::<F>(dl, rhs),
            rhs.map_values(|b: EMono<F>| product::<F>(acc.last(), b)),
            atom_value,
        );
        lemma_scaled_value::<F>(acc.last(), rhs, atom_value);
        lemma_monomials_value_last::<F>(acc, atom_value);
        F::lemma_distributive(
            r,
            monomials_value::<F>(dl, atom_value),
            monomial_value::<F>(acc.last(), atom_value),
        );
    }
}

/// Expansion is additive: the monomials of a sum add up to the value of
/// the sum of all its summands but the last, plus the value of the last;
/// the empty sum is zero.
pub proof fn lemma_expand_sum_value<F: Field>(
    xs: Seq<ETermOf<F>>,
    fuel: nat,
    atom_value: spec_fn(EAtom<EValue<F>>) -> EValue<F>,
)
    ensures
        xs.len() == 0 ==> expand::<F>(ETerm::Add(xs), fuel) == Some(Seq::<EMono<F>>::empty())
            && monomials_value::<F>(Seq::<EMono<F>>::empty(), atom_value) == zero::<F>(),
        xs.len() > 0 && expand::<F>(ETerm::Add(xs), fuel) is Some ==> {
            &&& expand::<F>(ETerm::Add(xs.drop_last()), fuel) is Some
            &&& expand::<F>(xs.last(), fuel) is Some
            &&& monomials_value::<F>(expand::<F>(ETerm::Add(xs), fuel)->Some_0, atom_value)
                == plus::<F>(
                monomials_value::<F>(
                    expand::<F>(ETerm::Add(xs.drop_last()), fuel)->Some_0,
                    atom_value,
                ),
                monomials_value::<F>(expand::<F>(xs.last(), fuel)->Some_0, atom_value),
            )
        },
{
    assert(expand::<F>(ETerm::Add(xs), fuel) == crate::elementary_rewriter::expand_sum::<F>(xs, fuel));
    if xs.len() > 0 && expand::<F>(ETerm::Add(xs), fuel) is Some {
        assert(xs[xs.len() - 1] == xs.last());
        assert(expand::<F>(ETerm::Add(xs.drop_last()), fuel)
            == crate::elementary_rewriter::expand_sum::<F>(xs.drop_last(), fuel));
        lemma_monomials_value_concat::<F>(
            expand::<F>(ETerm::Add(xs.drop_last()), fuel)->Some_0,
            expand::<F>(xs.last(), fuel)->Some_0,
            atom_value,
        );
    }
}

/// Expansion is multiplicative: the monomials of a product add up to the
/// value of the product of all its factors but the last, times the value
/// of the last; the empty product is one.
pub proof fn lemma_expand_product_value<F: Field>(
    xs: Seq<ETermOf<F>>,
    fuel: nat,
    atom_value: spec_fn(EAtom<EValue<F>>) -> EValue<F>,
)
    ensures
        xs.len() == 0 ==> expand::<F>(ETerm::Mul(xs), fuel) is Some && monomials_value::<F>(
            expand::<F>(ETerm::Mul(xs), fuel)->Some_0,
            atom_value,
        ) == one::<F>(),
        xs.len() > 0 && expand::<F>(ETerm::Mul(xs), fuel) is Some ==> {
            &&& expand::<F>(ETerm::Mul(xs.drop_last()), fuel) is Some
            &&& expand::<F>(xs.last(), fuel) is Some
            &&& monomials_value::<F>(expand::<F>(ETerm::Mul(xs), fuel)->Some_0, atom_value)
                == times::<F>(
                monomials_value::<F>(
                    expand::<F>(ETerm::Mul(xs.drop_last()), fuel)->Some_0,
                    atom_value,
                ),
                monomials_value::<F>(expand::<F>(xs.last(), fuel)->Some_0, atom_value),
            )
        },
{
    assert(expand::<F>(ETerm::Mul(xs), fuel) == crate::elementary_rewriter::expand_product::<F>(xs, fuel));
    if xs.len() == 0 {
        let u = unit::<F>();
        assert(u.factors =~= Seq::<EFactor<F>>::empty());
        <F::Multiplication as Identity>::lemma_identity(one::<F>());
        assert(seq![u].drop_first() =~= Seq::<EMono<F>>::empty());
        <F::Addition as Identity>::lemma_identity(one::<F>());
        assert(factors_value::<F>(u.factors, atom_value) == one::<F>());
        assert(monomial_value::<F>(u, atom_value) == one::<F>());
        assert(monomials_value::<F>(Seq::<EMono<F>>::empty(), atom_value) == zero::<F>());
        assert(monomials_value::<F>(seq![u], atom_value) == plus::<F>(
            monomial_value::<F>(seq![u][0], atom_value),
            monomials_value::<F>(seq![u].drop_first(), atom_value),
        ));
        assert(expand::<F>(ETerm::Mul(xs), fuel) == Some(seq![u]));
    } else if expand::<F>(ETerm::Mul(xs), fuel) is Some {
        assert(xs[xs.len() - 1] == xs.last());
        assert(expand::<F>(ETerm::Mul(xs), fuel)
            == crate::elementary_rewriter::expand_product::<F>(xs, fuel));
        assert(expand::<F>(ETerm::Mul(xs.drop_last()), fuel)
            == crate::elementary_rewriter::expand_product::<F>(xs.drop_last(), fuel));
        lemma_cross_value::<F>(
            expand::<F>(ETerm::Mul(xs.drop_last()), fuel)->Some_0,
            expand::<F>(xs.last(), fuel)->Some_0,
            atom_value,
        );
    }
}

// ----------------------------------------------------------------------------
// Powers in a field
// ----------------------------------------------------------------------------

proof fn lemma_power_nat_add<F: Field>(v: EValue<F>, m: nat, n: nat)
    ensures
        times::<F>(power_nat::<F>(v, m), power_nat::<F>(v, n)) == power_nat::<F>(v, m + n),
    decreases n,
{
    if n == 0 {
        <F::Multiplication as Identity>::lemma_identity(power_nat::<F>(v, m));
    } else {
        lemma_power_nat_add::<F>(v, m, (n - 1) as nat);
        assert((m + n - 1) as nat == m + (n - 1) as nat);
        <F::Multiplication as Associative>::lemma_associative(
            power_nat::<F>(v, m),
            power_nat::<F>(v, (n - 1) as nat),
            v,
        );
    }
}

proof fn lemma_power_nat_inverse<F: Field>(v: EValue<F>, n: nat)
    requires
        v != zero::<F>(),
    ensures
        times::<F>(power_nat::<F>(v, n), power_nat::<F>(F::spec_invert(v), n)) == one::<F>(),
    decreases n,
{
    let w = F::spec_invert(v);
    if n == 0 {
        <F::Multiplication as Identity>::lemma_identity(one::<F>());
    } else {
        lemma_power_nat_inverse::<F>(v, (n - 1) as nat);
        lemma_times_interchange::<F>(
            power_nat::<F>(v, (n - 1) as nat),
            v,
            power_nat::<F>(w, (n - 1) as nat),
            w,
        );
        F::lemma_field(v);
        <F::Multiplication as Identity>::lemma_identity(one::<F>());
    }
}

/// `v^a * v^b == v^(a + b)` for a non-zero `v` and any integers `a`, `b`.
pub proof fn lemma_power_int_add<F: Field>(v: EValue<F>, a: int, b: int)
    requires
        v != zero::<F>(),
    ensures
        times::<F>(power_int::<F>(v, a), power_int::<F>(v, b)) == power_int::<F>(v, a + b),
    decreases (if a < 0 { 1int } else { 0int }),
{
    let w = F::spec_invert(v);
    if a >= 0 && b >= 0 {
        lemma_power_nat_add::<F>(v, a as nat, b as nat);
    } else if a < 0 && b < 0 {
        lemma_power_nat_add::<F>(w, (-a) as nat, (-b) as nat);
        assert((-(a + b)) as nat == (-a) as nat + (-b) as nat);
    } else if a >= 0 {
        let n = (-b) as nat;
        if a >= n {
            let r = (a - n) as nat;
            lemma_power_nat_add::<F>(v, r, n);
            assert(r + n == a as nat);
            lemma_power_nat_inverse::<F>(v, n);
            <F::Multiplication as Associative>::lemma_associative(
                power_nat::<F>(v, r),
                power_nat::<F>(v, n),
                power_nat::<F>(w, n),
            );
            <F::Multiplication as Identity>::lemma_identity(power_nat::<F>(v, r));
        } else {
            let r = (n - a) as nat;
            lemma_power_nat_add::<F>(w, a as nat, r);
            assert(a as nat + r == n);
            lemma_power_nat_inverse::<F>(v, a as nat);
            <F::Multiplication as Associative>::lemma_associative(
                power_nat::<F>(v, a as nat),
                power_nat::<F>(w, a as nat),
                power_nat::<F>(w, r),
            );
            <F::Multiplication as Identity>::lemma_identity(power_nat::<F>(w, r));
            assert((-(a + b)) as nat == r);
        }
    } else {
        lemma_power_int_add::<F>(v, b, a);
        F::lemma_commutative(power_int::<F>(v, a), power_int::<F>(v, b));
    }
}

// ----------------------------------------------------------------------------
// The canonical form keeps the value
// ----------------------------------------------------------------------------

/// Whether no atom takes the value zero.
pub open spec fn nonzero_atoms<F: Field>(atom_value: spec_fn(EAtom<EValue<F>>) -> EValue<F>) -> bool {
    forall|a: EAtom<EValue<F>>| #[trigger] atom_value(a) != zero::<F>()
}

/// The value of one factor.
pub open spec fn factor_value<F: Field>(
    f: EFactor<F>,
    atom_value: spec_fn(EAtom<EValue<F>>) -> EValue<F>,
) -> EValue<F> {
    power_int::<F>(atom_value(f.0), f.1)
}

proof fn lemma_factors_value_push<F: Field>(
    s: Seq<EFactor<F>>,
    x: EFactor<F>,
    atom_value: spec_fn(EAtom<EValue<F>>) -> EValue<F>,
)
    ensures
        factors_value::<F>(s.push(x), atom_value) == times::<F>(
            factors_value::<F>(s, atom_value),
            factor_value::<F>(x, atom_value),
        ),
{
    assert(s.push(x) =~= s + seq![x]);
    lemma_factors_value_concat::<F>(s, seq![x], atom_value);
    assert(seq![x].drop_first() =~= Seq::<EFactor<F>>::empty());
    assert(factors_value::<F>(seq![x], atom_value) == times::<F>(
        factor_value::<F>(x, atom_value),
        factors_value::<F>(seq![x].drop_first(), atom_value),
    ));
    <F::Multiplication as Identity>::lemma_identity(factor_value::<F>(x, atom_value));
}

proof fn lemma_factors_insert<F: Field>(
    sorted: Seq<EFactor<F>>,
    x: EFactor<F>,
    after: spec_fn(EFactor<F>, EFactor<F>) -> bool,
    atom_value: spec_fn(EAtom<EValue<F>>) -> EValue<F>,
)
    ensures
        factors_value::<F>(insert_stable(sorted, x, after), atom_value) == times::<F>(
            factors_value::<F>(sorted, atom_value),
            factor_value::<F>(x, atom_value),
        ),
    decreases sorted.len(),
{
    if sorted.len() == 0 {
        lemma_factors_value_push::<F>(sorted, x, atom_value);
        assert(sorted.push(x) =~= seq![x]);
    } else if after(sorted.last(), x) {
        let dl = sorted.drop_last();
        let l = sorted.last();
        lemma_factors_insert::<F>(dl, x, after, atom_value);
        lemma_factors_value_push::<F>(insert_stable(dl, x, after), l, atom_value);
        lemma_factors_value_push::<F>(dl, l, atom_value);
        assert(dl.push(l) =~= sorted);
        let a = factors_value::<F>(dl, atom_value);
        let px = factor_value::<F>(x, atom_value);
        let pl = factor_value::<F>(l, atom_value);
        <F::Multiplication as Associative>::lemma_associative(a, px, pl);
        <F::Multiplication as Associative>::lemma_associative(a, pl, px);
        F::lemma_commutative(px, pl);
    } else {
        lemma_factors_value_push::<F>(sorted, x, atom_value);
    }
}

/// Sorting the factors of a product keeps its value.
pub proof fn lemma_factors_sort<F: Field>(
    s: Seq<EFactor<F>>,
    after: spec_fn(EFactor<F>, EFactor<F>) -> bool,
    atom_value: spec_fn(EAtom<EValue<F>>) -> EValue<F>,
)
    ensures
        factors_value::<F>(sort_stable(s, after), atom_value) == factors_value::<F>(s, atom_value),
    decreases s.len(),
{
    if s.len() > 0 {
        lemma_factors_sort::<F>(s.drop_last(), after, atom_value);
        lemma_factors_insert::<F>(sort_stable(s.drop_last(), after), s.last(), after, atom_value);
        lemma_factors_value_push::<F>(s.drop_last(), s.last(), atom_value);
        assert(s.drop_last().push(s.last()) =~= s);
    }
}

/// Collecting equal adjacent atoms keeps the value, when no atom is zero.
pub proof fn lemma_merge_factors_value<F: Field>(
    fs: Seq<EFactor<F>>,
    atom_value: spec_fn(EAtom<EValue<F>>) -> EValue<F>,
)
    requires
        nonzero_atoms::<F>(atom_value),
        merge_factors(fs) is Some,
    ensures
        factors_value::<F>(merge_factors(fs)->Some_0, atom_value) == factors_value::<F>(fs, atom_value),
    decreases fs.len(),
{
    if fs.len() > 0 {
        let dl = fs.drop_last();
        let m = merge_factors(dl)->Some_0;
        lemma_merge_factors_value::<F>(dl, atom_value);
        let a = fs.last().0;
        let e = fs.last().1;
        lemma_factors_value_push::<F>(dl, fs.last(), atom_value);
        assert(dl.push(fs.last()) =~= fs);
        if m.len() > 0 && m.last().0 == a {
            let k = m.last().1;
            lemma_factors_value_push::<F>(m.drop_last(), m.last(), atom_value);
            assert(m.drop_last().push(m.last()) =~= m);
            lemma_factors_value_push::<F>(m.drop_last(), (a, k + e), atom_value);
            assert(atom_value(a) != zero::<F>());
            lemma_power_int_add::<F>(atom_value(a), k, e);
            <F::Multiplication as Associative>::lemma_associative(
                factors_value::<F>(m.drop_last(), atom_value),
                power_int::<F>(atom_value(a), k),
                power_int::<F>(atom_value(a), e),
            );
        } else {
            lemma_factors_value_push::<F>(m, fs.last(), atom_value);
        }
    }
}

/// Dropping the factors with exponent zero keeps the value.
pub proof fn lemma_drop_zero_exponents_value<F: Field>(
    fs: Seq<EFactor<F>>,
    atom_value: spec_fn(EAtom<EValue<F>>) -> EValue<F>,
)
    ensures
        factors_value::<F>(fs.filter(nonzero_exponent()), atom_value) == factors_value::<F>(
            fs,
            atom_value,
        ),
    decreases fs.len(),
{
    reveal(Seq::filter);
    if fs.len() > 0 {
        let dl = fs.drop_last();
        lemma_drop_zero_exponents_value::<F>(dl, atom_value);
        lemma_factors_value_push::<F>(dl, fs.last(), atom_value);
        assert(dl.push(fs.last()) =~= fs);
        if nonzero_exponent()(fs.last()) {
            lemma_factors_value_push::<F>(dl.filter(nonzero_exponent()), fs.last(), atom_value);
        } else {
            assert(factor_value::<F>(fs.last(), atom_value) == one::<F>());
            <F::Multiplication as Identity>::lemma_identity(factors_value::<F>(dl, atom_value));
        }
    }
}

/// Making a monomial canonical keeps its value, when no atom is zero.
pub proof fn lemma_canonical_monomial_value<F: Field>(
    m: EMono<F>,
    atom_value: spec_fn(EAtom<EValue<F>>) -> EValue<F>,
)
    requires
        nonzero_atoms::<F>(atom_value),
        canonical_monomial(m) is Some,
    ensures
        monomial_value::<F>(canonical_monomial(m)->Some_0, atom_value) == monomial_value::<F>(
            m,
            atom_value,
        ),
{
    let sorted = sort_stable(m.factors, factor_after());
    lemma_factors_sort::<F>(m.factors, factor_after(), atom_value);
    lemma_merge_factors_value::<F>(sorted, atom_value);
    lemma_drop_zero_exponents_value::<F>(merge_factors(sorted)->Some_0, atom_value);
}

proof fn lemma_monomials_value_push<F: Field>(
    s: Seq<EMono<F>>,
    x: EMono<F>,
    atom_value: spec_fn(EAtom<EValue<F>>) -> EValue<F>,
)
    ensures
        monomials_value::<F>(s.push(x), atom_value) == plus::<F>(
            monomials_value::<F>(s, atom_value),
            monomial_value::<F>(x, atom_value),
        ),
{
    lemma_monomials_value_last::<F>(s.push(x), atom_value);
    assert(s.push(x).drop_last() =~= s);
}

proof fn lemma_canonical_each_value<F: Field>(
    ms: Seq<EMono<F>>,
    atom_value: spec_fn(EAtom<EValue<F>>) -> EValue<F>,
)
    requires
        nonzero_atoms::<F>(atom_value),
        canonical_each(ms) is Some,
    ensures
        monomials_value::<F>(canonical_each(ms)->Some_0, atom_value) == monomials_value::<F>(
            ms,
            atom_value,
        ),
    decreases ms.len(),
{
    if ms.len() > 0 {
        let dl = ms.drop_last();
        lemma_canonical_each_value::<F>(dl, atom_value);
        lemma_canonical_monomial_value::<F>(ms.last(), atom_value);
        lemma_monomials_value_push::<F>(
            canonical_each(dl)->Some_0,
            canonical_monomial(ms.last())->Some_0,
            atom_value,
        );
        lemma_monomials_value_push::<F>(dl, ms.last(), atom_value);
        assert(dl.push(ms.last()) =~= ms);
    }
}

proof fn lemma_monomials_insert<F: Field>(
    sorted: Seq<EMono<F>>,
    x: EMono<F>,
    after: spec_fn(EMono<F>, EMono<F>) -> bool,
    atom_value: spec_fn(EAtom<EValue<F>>) -> EValue<F>,
)
    ensures
        monomials_value::<F>(insert_stable(sorted, x, after), atom_value) == plus::<F>(
            monomials_value::<F>(sorted, atom_value),
            monomial_value::<F>(x, atom_value),
        ),
    decreases sorted.len(),
{
    if sorted.len() == 0 {
        lemma_monomials_value_push::<F>(sorted, x, atom_value);
        assert(sorted.push(x) =~= seq![x]);
    } else if after(sorted.last(), x) {
        let dl = sorted.drop_last();
        let l = sorted.last();
        lemma_monomials_insert::<F>(dl, x, after, atom_value);
        lemma_monomials_value_push::<F>(insert_stable(dl, x, after), l, atom_value);
        lemma_monomials_value_push::<F>(dl, l, atom_value);
        assert(dl.push(l) =~= sorted);
        let a = monomials_value::<F>(dl, atom_value);
        let px = monomial_value::<F>(x, atom_value);
        let pl = monomial_value::<F>(l, atom_value);
        <F::Addition as Associative>::lemma_associative(a, px, pl);
        <F::Addition as Associative>::lemma_associative(a, pl, px);
        <F::Addition as Commutative>::lemma_commutative(px, pl);
    } else {
        lemma_monomials_value_push::<F>(sorted, x, atom_value);
    }
}

/// Sorting the monomials of a sum keeps its value.
pub proof fn lemma_monomials_sort<F: Field>(
    s: Seq<EMono<F>>,
    after: spec_fn(EMono<F>, EMono<F>) -> bool,
    atom_value: spec_fn(EAtom<EValue<F>>) -> EValue<F>,
)
    ensures
        monomials_value::<F>(sort_stable(s, after), atom_value) == monomials_value::<F>(
            s,
            atom_value,
        ),
    decreases s.len(),
{
    if s.len() > 0 {
        lemma_monomials_sort::<F>(s.drop_last(), after, atom_value);
        lemma_monomials_insert::<F>(sort_stable(s.drop_last(), after), s.last(), after, atom_value);
        lemma_monomials_value_push::<F>(s.drop_last(), s.last(), atom_value);
        assert(s.drop_last().push(s.last()) =~= s);
    }
}

/// Collecting adjacent monomials over equal factors keeps the value.
pub proof fn lemma_merge_monomials_value<F: Field>(
    ms: Seq<EMono<F>>,
    atom_value: spec_fn(EAtom<EValue<F>>) -> EValue<F>,
)
    ensures
        monomials_value::<F>(merge_monomials::<F>(ms), atom_value) == monomials_value::<F>(
            ms,
            atom_value,
        ),
    decreases ms.len(),
{
    if ms.len() > 0 {
        let dl = ms.drop_last();
        let m = merge_monomials::<F>(dl);
        let t = ms.last();
        lemma_merge_monomials_value::<F>(dl, atom_value);
        lemma_monomials_value_push::<F>(dl, t, atom_value);
        assert(dl.push(t) =~= ms);
        if m.len() > 0 && m.last().factors == t.factors {
            let l = m.last();
            let merged = Monomial { coeff: plus::<F>(l.coeff, t.coeff), ..l };
            lemma_monomials_value_push::<F>(m.drop_last(), l, atom_value);
            assert(m.drop_last().push(l) =~= m);
            lemma_monomials_value_push::<F>(m.drop_last(), merged, atom_value);
            let p = factors_value::<F>(t.factors, atom_value);
            F::lemma_distributive(p, l.coeff, t.coeff);
            <F::Addition as Associative>::lemma_associative(
                monomials_value::<F>(m.drop_last(), atom_value),
                monomial_value::<F>(l, atom_value),
                monomial_value::<F>(t, atom_value),
            );
        } else {
            lemma_monomials_value_push::<F>(m, t, atom_value);
        }
    }
}

/// Dropping the monomials with coefficient zero keeps the value.
pub proof fn lemma_drop_zero_monomials_value<F: Field>(
    ms: Seq<EMono<F>>,
    atom_value: spec_fn(EAtom<EValue<F>>) -> EValue<F>,
)
    ensures
        monomials_value::<F>(ms.filter(nonzero_coeff::<F>()), atom_value) == monomials_value::<F>(
            ms,
            atom_value,
        ),
    decreases ms.len(),
{
    reveal(Seq::filter);
    if ms.len() > 0 {
        let dl = ms.drop_last();
        lemma_drop_zero_monomials_value::<F>(dl, atom_value);
        lemma_monomials_value_push::<F>(dl, ms.last(), atom_value);
        assert(dl.push(ms.last()) =~= ms);
        if nonzero_coeff::<F>()(ms.last()) {
            lemma_monomials_value_push::<F>(dl.filter(nonzero_coeff::<F>()), ms.last(), atom_value);
        } else {
            F::lemma_annihilates(factors_value::<F>(ms.last().factors, atom_value));
            <F::Addition as Identity>::lemma_identity(monomials_value::<F>(dl, atom_value));
        }
    }
}

/// The canonical form of a sum of monomials has the same value, whatever
/// non-zero values the atoms take: sorting and collecting the factors of
/// each monomial, sorting the monomials, collecting like ones and dropping
/// those that vanish change nothing of the sum.
pub proof fn lemma_canonical_value<F: Field>(
    ms: Seq<EMono<F>>,
    atom_value: spec_fn(EAtom<EValue<F>>) -> EValue<F>,
)
    requires
        nonzero_atoms::<F>(atom_value),
        canonical::<F>(ms) is Some,
    ensures
        monomials_value::<F>(canonical::<F>(ms)->Some_0, atom_value) == monomials_value::<F>(
            ms,
            atom_value,
        ),
{
    let cs = canonical_each(ms)->Some_0;
    lemma_canonical_each_value::<F>(ms, atom_value);
    let sorted = sort_stable(cs, monomial_after());
    lemma_monomials_sort::<F>(cs, monomial_after(), atom_value);
    lemma_merge_monomials_value::<F>(sorted, atom_value);
    lemma_drop_zero_monomials_value::<F>(merge_monomials::<F>(sorted), atom_value);
}

/// `u - u` vanishes: where `Add[u, Neg(u)]` has a canonical form, its
/// monomials add up to zero, whatever non-zero values the atoms take.
pub proof fn lemma_difference_with_itself_vanishes<F: Field>(
    u: ETermOf<F>,
    fuel: nat,
    atom_value: spec_fn(EAtom<EValue<F>>) -> EValue<F>,
)
    requires
        nonzero_atoms::<F>(atom_value),
        normalizes::<F>(ETerm::Add(seq![u, ETerm::Neg(Box::new(u))]), fuel),
    ensures
        monomials_value::<F>(
            canonical::<F>(
                expand::<F>(ETerm::Add(seq![u, ETerm::Neg(Box::new(u))]), fuel)->Some_0,
            )->Some_0,
            atom_value,
        ) == zero::<F>(),
{
    let xs = seq![u, ETerm::Neg(Box::new(u))];
    let whole = expand::<F>(ETerm::Add(xs), fuel)->Some_0;
    lemma_canonical_value::<F>(whole, atom_value);
    lemma_expand_sum_value::<F>(xs, fuel, atom_value);
    assert(xs.drop_last() =~= seq![u]);
    assert(xs.last() == ETerm::<EValue<F>>::Neg(Box::new(u)));
    lemma_expand_sum_value::<F>(seq![u], fuel, atom_value);
    assert(seq![u].drop_last() =~= Seq::<ETermOf<F>>::empty());
    lemma_expand_sum_value::<F>(Seq::<ETermOf<F>>::empty(), fuel, atom_value);
    lemma_expand_negation::<F>(u, fuel, atom_value);
    let vu = monomials_value::<F>(expand::<F>(u, fuel)->Some_0, atom_value);
    <F::Addition as Commutative>::lemma_commutative(zero::<F>(), vu);
    <F::Addition as Identity>::lemma_identity(vu);
}

/// Multiplying out the `n`-th power of a sum raises its value to the `n`.
pub proof fn lemma_cross_power_value<F: Field>(
    b: Seq<EMono<F>>,
    n: nat,
    atom_value: spec_fn(EAtom<EValue<F>>) -> EValue<F>,
)
    ensures
        monomials_value::<F>(cross_power::<F>(b, n), atom_value) == power_nat::<F>(
            monomials_value::<F>(b, atom_value),
            n,
        ),
    decreases n,
{
    if n == 0 {
        let u = unit::<F>();
        assert(u.factors =~= Seq::<EFactor<F>>::empty());
        <F::Multiplication as Identity>::lemma_identity(one::<F>());
        assert(seq![u].drop_first() =~= Seq::<EMono<F>>::empty());
        assert(monomials_value::<F>(Seq::<EMono<F>>::empty(), atom_value) == zero::<F>());
        assert(monomials_value::<F>(seq![u], atom_value) == plus::<F>(
            monomial_value::<F>(seq![u][0], atom_value),
            monomials_value::<F>(seq![u].drop_first(), atom_value),
        ));
        <F::Addition as Identity>::lemma_identity(one::<F>());
    } else {
        lemma_cross_power_value::<F>(b, (n - 1) as nat, atom_value);
        lemma_cross_value::<F>(cross_power::<F>(b, (n - 1) as nat), b, atom_value);
    }
}

/// A positive power expands to monomials whose value is the value of the
/// base raised to that power, whatever non-zero values the atoms take.
pub proof fn lemma_expand_positive_power<F: Field>(
    b: ETermOf<F>,
    n: int,
    fuel: nat,
    atom_value: spec_fn(EAtom<EValue<F>>) -> EValue<F>,
)
    requires
        nonzero_atoms::<F>(atom_value),
        n > 0,
        expand::<F>(ETerm::Pow(Box::new(b), n), fuel) is Some,
    ensures
        expand::<F>(b, fuel) is Some,
        monomials_value::<F>(expand::<F>(ETerm::Pow(Box::new(b), n), fuel)->Some_0, atom_value)
            == power_nat::<F>(monomials_value::<F>(expand::<F>(b, fuel)->Some_0, atom_value), n as nat),
{
    assert(expand::<F>(ETerm::Pow(Box::new(b), n), fuel) == crate::elementary_rewriter::expand_power::<F>(
        b,
        n,
        fuel,
    ));
    let bs = expand::<F>(b, fuel)->Some_0;
    let cb = canonical::<F>(bs)->Some_0;
    lemma_canonical_value::<F>(bs, atom_value);
    lemma_cross_power_value::<F>(cb, n as nat, atom_value);
}
} // verus!
