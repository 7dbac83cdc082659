//! What ring expressions mean, and that their normal forms mean the same.
use vstd::prelude::*;

use crate::op::{Associative, Commutative, Identity};
use crate::ring::{one, plus, times, zero, CommutativeRing, Ring, SemiRing};
use crate::ring_expr::{
    commutative_ring_normal_form, lifted, lifted_all, lowered, lowered_all, ring_normal_form,
    RTerm, RTermOf,
};
use crate::semiring_expr::{SRTerm, STerm, SValue, SemiRingExpr};
use crate::semiring_laws::mul_commutes;

verus! {

/// The value of a ring term when each symbol takes its value from `env`.
pub open spec fn ring_eval<R: Ring>(t: RTermOf<R>, env: Map<Seq<char>, SValue<R>>) -> SValue<R>
    decreases t,
{
    match t {
        RTerm::Const(c) => c,
        RTerm::Symbol(s) => env[s],
        RTerm::Neg(x) => R::spec_negate(ring_eval::<R>(*x, env)),
        RTerm::Add(v) => ring_sum::<R>(v, env),
        RTerm::Mul(v) => ring_product::<R>(v, env),
        RTerm::Pow(b, n) => SemiRingExpr::<R>::pow_nat(ring_eval::<R>(*b, env), n),
    }
}

/// The sum of the values of `v`, left to right.
pub open spec fn ring_sum<R: Ring>(v: Seq<RTermOf<R>>, env: Map<Seq<char>, SValue<R>>) -> SValue<R>
    decreases v,
{
    if v.len() == 0 {
        zero::<R>()
    } else {
        plus::<R>(ring_eval::<R>(v[0], env), ring_sum::<R>(v.drop_first(), env))
    }
}

/// The product of the values of `v`, left to right.
pub open spec fn ring_product<R: Ring>(v: Seq<RTermOf<R>>, env: Map<Seq<char>, SValue<R>>) -> SValue<R>
    decreases v,
{
    if v.len() == 0 {
        one::<R>()
    } else {
        times::<R>(ring_eval::<R>(v[0], env), ring_product::<R>(v.drop_first(), env))
    }
}

/// Whether every power in `t` has an exponent of at least one.
pub open spec fn ring_positive<R: Ring>(t: RTermOf<R>) -> bool
    decreases t,
{
    match t {
        RTerm::Neg(x) => ring_positive::<R>(*x),
        RTerm::Add(v) => ring_positive_list::<R>(v),
        RTerm::Mul(v) => ring_positive_list::<R>(v),
        RTerm::Pow(b, n) => n >= 1 && ring_positive::<R>(*b),
        _ => true,
    }
}

/// Whether every term of a list is [`ring_positive`].
pub open spec fn ring_positive_list<R: Ring>(v: Seq<RTermOf<R>>) -> bool
    decreases v,
{
    if v.len() == 0 {
        true
    } else {
        ring_positive::<R>(v[0]) && ring_positive_list::<R>(v.drop_first())
    }
}

/// `(-1) * x == -x`.
proof fn lemma_minus_one_times<R: Ring>(x: SValue<R>)
    ensures
        times::<R>(R::spec_negate(one::<R>()), x) == R::spec_negate(x),
{
    let m = R::spec_negate(one::<R>());
    let y = times::<R>(m, x);
    let nx = R::spec_negate(x);
    R::lemma_negate(one::<R>());
    R::lemma_distributive(x, one::<R>(), m);
    <R::Multiplication as Identity>::lemma_identity(x);
    R::lemma_annihilates(x);
    // x + y == 1 * x + (-1) * x == (1 + -1) * x == 0 * x == 0.
    assert(plus::<R>(x, y) == zero::<R>());
    // y == 0 + y == (-x + x) + y == -x + (x + y) == -x + 0 == -x.
    R::lemma_negate(x);
    <R::Addition as Identity>::lemma_identity(y);
    <R::Addition as Identity>::lemma_identity(nx);
    <R::Addition as Associative>::lemma_associative(nx, x, y);
}

/// Lowering `Neg` to a `-1` coefficient keeps the value and positivity.
proof fn lemma_lowered<R: Ring>(t: RTermOf<R>, env: Map<Seq<char>, SValue<R>>)
    ensures
        SemiRingExpr::<R>::eval(lowered::<R>(t), env) == ring_eval::<R>(t, env),
        ring_positive::<R>(t) ==> SemiRingExpr::<R>::positive(lowered::<R>(t)),
    decreases t,
{
    match t {
        RTerm::Neg(x) => {
            lemma_lowered::<R>(*x, env);
            let m = R::spec_negate(one::<R>());
            let lx = lowered::<R>(*x);
            let fs = seq![SRTerm::Const(m), lx];
            assert(fs.drop_first() =~= seq![lx]);
            assert(fs.drop_first().drop_first() =~= Seq::<STerm<R>>::empty());
            assert(SemiRingExpr::<R>::product(fs.drop_first().drop_first(), env) == one::<R>());
            <R::Multiplication as Identity>::lemma_identity(SemiRingExpr::<R>::eval(lx, env));
            assert(SemiRingExpr::<R>::product(fs.drop_first(), env) == SemiRingExpr::<R>::eval(
                lx,
                env,
            ));
            assert(SemiRingExpr::<R>::eval(fs[0], env) == m);
            assert(lowered::<R>(t) == SRTerm::<SValue<R>>::Mul(fs));
            assert(SemiRingExpr::<R>::product(fs, env) == times::<R>(
                m,
                SemiRingExpr::<R>::product(fs.drop_first(), env),
            ));
            lemma_minus_one_times::<R>(ring_eval::<R>(*x, env));
            if ring_positive::<R>(t) {
                assert(SemiRingExpr::<R>::positive(lx));
                assert(SemiRingExpr::<R>::positive_list(fs.drop_first().drop_first()));
                assert(fs.drop_first()[0] == lx);
                assert(SemiRingExpr::<R>::positive_list(fs.drop_first()));
                assert(SemiRingExpr::<R>::positive(fs[0]));
                assert(SemiRingExpr::<R>::positive_list(fs));
            }
        },
        RTerm::Add(v) => {
            lemma_lowered_all::<R>(v, env);
        },
        RTerm::Mul(v) => {
            lemma_lowered_all::<R>(v, env);
        },
        RTerm::Pow(b, _) => {
            lemma_lowered::<R>(*b, env);
        },
        _ => {},
    }
}

proof fn lemma_lowered_all<R: Ring>(v: Seq<RTermOf<R>>, env: Map<Seq<char>, SValue<R>>)
    ensures
        SemiRingExpr::<R>::sum(lowered_all::<R>(v), env) == ring_sum::<R>(v, env),
        SemiRingExpr::<R>::product(lowered_all::<R>(v), env) == ring_product::<R>(v, env),
        ring_positive_list::<R>(v) ==> SemiRingExpr::<R>::positive_list(lowered_all::<R>(v)),
    decreases v,
{
    if v.len() > 0 {
        lemma_lowered::<R>(v[0], env);
        lemma_lowered_all::<R>(v.drop_first(), env);
        let l = lowered_all::<R>(v);
        assert(l[0] == lowered::<R>(v[0]));
        assert(l.drop_first() =~= lowered_all::<R>(v.drop_first()));
    }
}

/// Reading a semi-ring term back as a ring term keeps its value.
proof fn lemma_lifted<R: Ring>(t: STerm<R>, env: Map<Seq<char>, SValue<R>>)
    ensures
        ring_eval::<R>(lifted::<R>(t), env) == SemiRingExpr::<R>::eval(t, env),
    decreases t,
{
    match t {
        SRTerm::Add(v) => {
            lemma_lifted_all::<R>(v, env);
        },
        SRTerm::Mul(v) => {
            lemma_lifted_all::<R>(v, env);
        },
        SRTerm::Pow(b, _) => {
            lemma_lifted::<R>(*b, env);
        },
        _ => {},
    }
}

proof fn lemma_lifted_all<R: Ring>(v: Seq<STerm<R>>, env: Map<Seq<char>, SValue<R>>)
    ensures
        ring_sum::<R>(lifted_all::<R>(v), env) == SemiRingExpr::<R>::sum(v, env),
        ring_product::<R>(lifted_all::<R>(v), env) == SemiRingExpr::<R>::product(v, env),
    decreases v,
{
    if v.len() > 0 {
        lemma_lifted::<R>(v[0], env);
        lemma_lifted_all::<R>(v.drop_first(), env);
        let l = lifted_all::<R>(v);
        assert(l[0] == lifted::<R>(v[0]));
        assert(l.drop_first() =~= lifted_all::<R>(v.drop_first()));
    }
}

/// Normalizing under the ring laws keeps the value of every expression
/// whose powers have exponents of at least one, whatever the values of its
/// symbols.
pub proof fn lemma_ring_normal_form_preserves_value<R: Ring>(
    t: RTermOf<R>,
    env: Map<Seq<char>, SValue<R>>,
)
    requires
        ring_positive::<R>(t),
    ensures
        ring_eval::<R>(ring_normal_form::<R>(t), env) == ring_eval::<R>(t, env),
{
    lemma_lowered::<R>(t, env);
    SemiRingExpr::<R>::lemma_normal_form_preserves_value(lowered::<R>(t), env);
    lemma_lifted::<R>(SemiRingExpr::<R>::normal_form(lowered::<R>(t)), env);
}

/// Normalizing under the laws of a commutative ring keeps the value of
/// every expression whose powers have exponents of at least one, whatever
/// the values of its symbols.
pub proof fn lemma_commutative_ring_normal_form_preserves_value<R: CommutativeRing>(
    t: RTermOf<R>,
    env: Map<Seq<char>, SValue<R>>,
)
    requires
        ring_positive::<R>(t),
    ensures
        ring_eval::<R>(commutative_ring_normal_form::<R>(t), env) == ring_eval::<R>(t, env),
{
    assert forall|a: SValue<R>, b: SValue<R>| #[trigger] times::<R>(a, b) == times::<R>(b, a) by {
        R::lemma_commutative(a, b);
    }
    assert(mul_commutes::<R>());
    lemma_lowered::<R>(t, env);
    crate::semiring_laws::lemma_commutative_normal_form_preserves_value::<R>(lowered::<R>(t), env);
    lemma_lifted::<R>(SemiRingExpr::<R>::commutative_normal_form(lowered::<R>(t)), env);
}

} // verus!
