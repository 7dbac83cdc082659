//! What semi-ring expressions mean, and that their normal forms mean the
//! same.
use vstd::prelude::*;

use crate::op::{Associative, Commutative, Identity};
use crate::ring::{one, plus, times, zero, SemiRing};
use crate::semiring_expr::{SRTerm, STerm, SValue, SemiRingExpr};

verus! {

impl<SR: SemiRing> SemiRingExpr<SR> {
    // ============================================================================
    // Values
    // ============================================================================

    /// The value of a term when each symbol takes its value from `env`.
    pub open spec fn eval(t: STerm<SR>, env: Map<Seq<char>, SValue<SR>>) -> SValue<SR>
        decreases t,
    {
        match t {
            SRTerm::Const(c) => c,
            SRTerm::Symbol(s) => env[s],
            SRTerm::Add(es) => Self::sum(es, env),
            SRTerm::Mul(es) => Self::product(es, env),
            SRTerm::Pow(b, n) => Self::pow_nat(Self::eval(*b, env), n),
        }
    }

    /// The sum of the values of `es`, left to right.
    pub open spec fn sum(es: Seq<STerm<SR>>, env: Map<Seq<char>, SValue<SR>>) -> SValue<SR>
        decreases es,
    {
        if es.len() == 0 {
            zero::<SR>()
        } else {
            plus::<SR>(Self::eval(es[0], env), Self::sum(es.drop_first(), env))
        }
    }

    /// The product of the values of `es`, left to right.
    pub open spec fn product(es: Seq<STerm<SR>>, env: Map<Seq<char>, SValue<SR>>) -> SValue<SR>
        decreases es,
    {
        if es.len() == 0 {
            one::<SR>()
        } else {
            times::<SR>(Self::eval(es[0], env), Self::product(es.drop_first(), env))
        }
    }

    /// `x * x * ... * x` with `n` factors; one when `n` is zero.
    pub open spec fn pow_nat(x: SValue<SR>, n: nat) -> SValue<SR>
        decreases n,
    {
        if n == 0 {
            one::<SR>()
        } else {
            times::<SR>(Self::pow_nat(x, (n - 1) as nat), x)
        }
    }

    /// Whether every power in `t` has an exponent of at least one.
    pub open spec fn positive(t: STerm<SR>) -> bool
        decreases t,
    {
        match t {
            SRTerm::Add(es) => Self::positive_list(es),
            SRTerm::Mul(es) => Self::positive_list(es),
            SRTerm::Pow(b, n) => n >= 1 && Self::positive(*b),
            _ => true,
        }
    }

    /// Whether every term of a list is [`Self::positive`].
    pub open spec fn positive_list(es: Seq<STerm<SR>>) -> bool
        decreases es,
    {
        if es.len() == 0 {
            true
        } else {
            Self::positive(es[0]) && Self::positive_list(es.drop_first())
        }
    }

    /// Every term of `es` is positive.
    pub open spec fn all_positive(es: Seq<STerm<SR>>) -> bool {
        forall|i: int| 0 <= i < es.len() ==> #[trigger] Self::positive(es[i])
    }

    proof fn lemma_positive_list(es: Seq<STerm<SR>>)
        ensures
            Self::positive_list(es) == Self::all_positive(es),
        decreases es.len(),
    {
        if es.len() > 0 {
            Self::lemma_positive_list(es.drop_first());
            if Self::all_positive(es) {
                assert(Self::positive(es[0]));
                assert forall|i: int| 0 <= i < es.drop_first().len() implies #[trigger] Self::positive(
                    es.drop_first()[i],
                ) by {
                    assert(es.drop_first()[i] == es[i + 1]);
                }
            }
            if Self::positive_list(es) {
                assert forall|i: int| 0 <= i < es.len() implies #[trigger] Self::positive(es[i]) by {
                    if i > 0 {
                        assert(es.drop_first()[i - 1] == es[i]);
                    }
                }
            }
        }
    }

    // ============================================================================
    // Sums and products of lists
    // ============================================================================

    proof fn lemma_sum_concat(a: Seq<STerm<SR>>, b: Seq<STerm<SR>>, env: Map<Seq<char>, SValue<SR>>)
        ensures
            Self::sum(a + b, env) == plus::<SR>(Self::sum(a, env), Self::sum(b, env)),
        decreases a.len(),
    {
        if a.len() == 0 {
            assert(a + b =~= b);
            <SR::Addition as Identity>::lemma_identity(Self::sum(b, env));
        } else {
            Self::lemma_sum_concat(a.drop_first(), b, env);
            assert((a + b).drop_first() =~= a.drop_first() + b);
            assert((a + b)[0] == a[0]);
            <SR::Addition as Associative>::lemma_associative(
                Self::eval(a[0], env),
                Self::sum(a.drop_first(), env),
                Self::sum(b, env),
            );
        }
    }

    proof fn lemma_product_concat(a: Seq<STerm<SR>>, b: Seq<STerm<SR>>, env: Map<Seq<char>, SValue<SR>>)
        ensures
            Self::product(a + b, env) == times::<SR>(Self::product(a, env), Self::product(b, env)),
        decreases a.len(),
    {
        if a.len() == 0 {
            assert(a + b =~= b);
            <SR::Multiplication as Identity>::lemma_identity(Self::product(b, env));
        } else {
            Self::lemma_product_concat(a.drop_first(), b, env);
            assert((a + b).drop_first() =~= a.drop_first() + b);
            assert((a + b)[0] == a[0]);
            <SR::Multiplication as Associative>::lemma_associative(
                Self::eval(a[0], env),
                Self::product(a.drop_first(), env),
                Self::product(b, env),
            );
        }
    }

    proof fn lemma_sum_single(t: STerm<SR>, env: Map<Seq<char>, SValue<SR>>)
        ensures
            Self::sum(seq![t], env) == Self::eval(t, env),
    {
        assert(seq![t].drop_first() =~= Seq::<STerm<SR>>::empty());
        assert(Self::sum(seq![t].drop_first(), env) == zero::<SR>());
        <SR::Addition as Identity>::lemma_identity(Self::eval(t, env));
    }

    proof fn lemma_product_single(t: STerm<SR>, env: Map<Seq<char>, SValue<SR>>)
        ensures
            Self::product(seq![t], env) == Self::eval(t, env),
    {
        assert(seq![t].drop_first() =~= Seq::<STerm<SR>>::empty());
        assert(Self::product(seq![t].drop_first(), env) == one::<SR>());
        <SR::Multiplication as Identity>::lemma_identity(Self::eval(t, env));
    }

    proof fn lemma_sum_push(a: Seq<STerm<SR>>, t: STerm<SR>, env: Map<Seq<char>, SValue<SR>>)
        ensures
            Self::sum(a.push(t), env) == plus::<SR>(Self::sum(a, env), Self::eval(t, env)),
    {
        assert(a.push(t) =~= a + seq![t]);
        Self::lemma_sum_concat(a, seq![t], env);
        Self::lemma_sum_single(t, env);
    }

    proof fn lemma_product_push(a: Seq<STerm<SR>>, t: STerm<SR>, env: Map<Seq<char>, SValue<SR>>)
        ensures
            Self::product(a.push(t), env) == times::<SR>(Self::product(a, env), Self::eval(t, env)),
    {
        assert(a.push(t) =~= a + seq![t]);
        Self::lemma_product_concat(a, seq![t], env);
        Self::lemma_product_single(t, env);
    }
}

impl<SR: SemiRing> SemiRingExpr<SR> {
    /// Splicing nested sums keeps the sum, and positivity.
    proof fn lemma_flatten_sums(items: Seq<STerm<SR>>, env: Map<Seq<char>, SValue<SR>>)
        ensures
            Self::sum(Self::flatten_sums(items), env) == Self::sum(items, env),
            Self::all_positive(items) ==> Self::all_positive(Self::flatten_sums(items)),
        decreases items.len(),
    {
        if items.len() > 0 {
            let init = items.drop_last();
            let last = items.last();
            Self::lemma_flatten_sums(init, env);
            let rest = Self::flatten_sums(init);
            assert(items =~= init.push(last));
            Self::lemma_sum_push(init, last, env);
            if Self::all_positive(items) {
                assert forall|i: int| 0 <= i < init.len() implies #[trigger] Self::positive(init[i]) by {
                    assert(init[i] == items[i]);
                }
                assert(Self::positive(items[items.len() - 1]));
            }
            match last {
                SRTerm::Add(inner) => {
                    Self::lemma_sum_concat(rest, inner, env);
                    if Self::all_positive(items) {
                        Self::lemma_positive_list(inner);
                        let r = rest + inner;
                        assert forall|i: int| 0 <= i < r.len() implies #[trigger] Self::positive(r[i]) by {
                            if i < rest.len() {
                                assert(r[i] == rest[i]);
                            } else {
                                assert(r[i] == inner[i - rest.len()]);
                            }
                        }
                    }
                },
                t => {
                    Self::lemma_sum_push(rest, t, env);
                    if Self::all_positive(items) {
                        let r = rest.push(t);
                        assert forall|i: int| 0 <= i < r.len() implies #[trigger] Self::positive(r[i]) by {
                            if i < rest.len() {
                                assert(r[i] == rest[i]);
                            }
                        }
                    }
                },
            }
        }
    }

    /// Splicing nested products keeps the product, and positivity.
    proof fn lemma_flatten_products(items: Seq<STerm<SR>>, env: Map<Seq<char>, SValue<SR>>)
        ensures
            Self::product(Self::flatten_products(items), env) == Self::product(items, env),
            Self::all_positive(items) ==> Self::all_positive(Self::flatten_products(items)),
        decreases items.len(),
    {
        if items.len() > 0 {
            let init = items.drop_last();
            let last = items.last();
            Self::lemma_flatten_products(init, env);
            let rest = Self::flatten_products(init);
            assert(items =~= init.push(last));
            Self::lemma_product_push(init, last, env);
            if Self::all_positive(items) {
                assert forall|i: int| 0 <= i < init.len() implies #[trigger] Self::positive(init[i]) by {
                    assert(init[i] == items[i]);
                }
                assert(Self::positive(items[items.len() - 1]));
            }
            match last {
                SRTerm::Mul(inner) => {
                    Self::lemma_product_concat(rest, inner, env);
                    if Self::all_positive(items) {
                        Self::lemma_positive_list(inner);
                        let r = rest + inner;
                        assert forall|i: int| 0 <= i < r.len() implies #[trigger] Self::positive(r[i]) by {
                            if i < rest.len() {
                                assert(r[i] == rest[i]);
                            } else {
                                assert(r[i] == inner[i - rest.len()]);
                            }
                        }
                    }
                },
                t => {
                    Self::lemma_product_push(rest, t, env);
                    if Self::all_positive(items) {
                        let r = rest.push(t);
                        assert forall|i: int| 0 <= i < r.len() implies #[trigger] Self::positive(r[i]) by {
                            if i < rest.len() {
                                assert(r[i] == rest[i]);
                            }
                        }
                    }
                },
            }
        }
    }

    /// A summand is its coefficient times its core.
    proof fn lemma_split_coefficient(item: STerm<SR>, env: Map<Seq<char>, SValue<SR>>)
        ensures
            Self::eval(item, env) == times::<SR>(
                Self::split_coefficient(item).0,
                Self::eval(Self::split_coefficient(item).1, env),
            ),
            Self::positive(item) ==> Self::positive(Self::split_coefficient(item).1),
    {
        <SR::Multiplication as Identity>::lemma_identity(Self::eval(item, env));
        match item {
            SRTerm::Mul(factors) => {
                if factors.len() > 0 {
                    match factors[0] {
                        SRTerm::Const(c) => {
                            let rest = factors.drop_first();
                            assert(Self::eval(factors[0], env) == c);
                            assert(Self::product(factors, env) == times::<SR>(
                                c,
                                Self::product(rest, env),
                            ));
                            if Self::positive(item) {
                                Self::lemma_positive_list(factors);
                                Self::lemma_positive_list(rest);
                                assert forall|i: int| 0 <= i < rest.len() implies #[trigger] Self::positive(
                                    rest[i],
                                ) by {
                                    assert(rest[i] == factors[i + 1]);
                                }
                            }
                            if factors.len() == 2 {
                                assert(rest =~= seq![factors[1]]);
                                Self::lemma_product_single(factors[1], env);
                            }
                        },
                        _ => {},
                    }
                }
            },
            _ => {},
        }
    }

    /// The value of a coefficient table: each core times its coefficient,
    /// summed.
    pub open spec fn table_value(coeffs: Seq<(STerm<SR>, SValue<SR>)>, env: Map<Seq<char>, SValue<SR>>) -> SValue<SR>
        decreases coeffs.len(),
    {
        if coeffs.len() == 0 {
            zero::<SR>()
        } else {
            plus::<SR>(
                times::<SR>(coeffs[0].1, Self::eval(coeffs[0].0, env)),
                Self::table_value(coeffs.drop_first(), env),
            )
        }
    }

    /// Whether every core of a table is positive.
    pub open spec fn positive_cores(coeffs: Seq<(STerm<SR>, SValue<SR>)>) -> bool {
        forall|i: int| 0 <= i < coeffs.len() ==> #[trigger] Self::positive(coeffs[i].0)
    }

    proof fn lemma_table_push(
        coeffs: Seq<(STerm<SR>, SValue<SR>)>,
        e: (STerm<SR>, SValue<SR>),
        env: Map<Seq<char>, SValue<SR>>,
    )
        ensures
            Self::table_value(coeffs.push(e), env) == plus::<SR>(
                Self::table_value(coeffs, env),
                times::<SR>(e.1, Self::eval(e.0, env)),
            ),
        decreases coeffs.len(),
    {
        let v = times::<SR>(e.1, Self::eval(e.0, env));
        if coeffs.len() == 0 {
            assert(coeffs.push(e).drop_first() =~= Seq::<(STerm<SR>, SValue<SR>)>::empty());
            assert(coeffs.push(e)[0] == e);
            assert(Self::table_value(coeffs.push(e).drop_first(), env) == zero::<SR>());
            <SR::Addition as Identity>::lemma_identity(v);
        } else {
            Self::lemma_table_push(coeffs.drop_first(), e, env);
            assert(coeffs.push(e).drop_first() =~= coeffs.drop_first().push(e));
            assert(coeffs.push(e)[0] == coeffs[0]);
            <SR::Addition as Associative>::lemma_associative(
                times::<SR>(coeffs[0].1, Self::eval(coeffs[0].0, env)),
                Self::table_value(coeffs.drop_first(), env),
                v,
            );
        }
    }

    proof fn lemma_find_core(coeffs: Seq<(STerm<SR>, SValue<SR>)>, core: STerm<SR>)
        ensures
            Self::find_core(coeffs, core) matches Some(i) ==> 0 <= i < coeffs.len() && coeffs[i].0
                == core,
        decreases coeffs.len(),
    {
        if coeffs.len() > 0 && coeffs[0].0 != core {
            Self::lemma_find_core(coeffs.drop_first(), core);
        }
    }

    /// Adding to the `i`-th coefficient adds that many of its core.
    proof fn lemma_table_raise(
        coeffs: Seq<(STerm<SR>, SValue<SR>)>,
        i: int,
        c: SValue<SR>,
        env: Map<Seq<char>, SValue<SR>>,
    )
        requires
            0 <= i < coeffs.len(),
        ensures
            Self::table_value(coeffs.update(i, (coeffs[i].0, plus::<SR>(coeffs[i].1, c))), env)
                == plus::<SR>(
                Self::table_value(coeffs, env),
                times::<SR>(c, Self::eval(coeffs[i].0, env)),
            ),
        decreases coeffs.len(),
    {
        let x = Self::eval(coeffs[i].0, env);
        let y = times::<SR>(c, x);
        let raised = coeffs.update(i, (coeffs[i].0, plus::<SR>(coeffs[i].1, c)));
        let rest = Self::table_value(coeffs.drop_first(), env);
        if i == 0 {
            assert(raised.drop_first() =~= coeffs.drop_first());
            let h = times::<SR>(coeffs[0].1, x);
            SR::lemma_distributive(x, coeffs[0].1, c);
            <SR::Addition as Associative>::lemma_associative(h, y, rest);
            <SR::Addition as Commutative>::lemma_commutative(y, rest);
            <SR::Addition as Associative>::lemma_associative(h, rest, y);
        } else {
            Self::lemma_table_raise(coeffs.drop_first(), i - 1, c, env);
            assert(raised.drop_first() =~= coeffs.drop_first().update(
                i - 1,
                (coeffs[i].0, plus::<SR>(coeffs[i].1, c)),
            ));
            assert(coeffs.drop_first()[i - 1] == coeffs[i]);
            <SR::Addition as Associative>::lemma_associative(
                times::<SR>(coeffs[0].1, Self::eval(coeffs[0].0, env)),
                rest,
                y,
            );
        }
    }

    /// Adding `c` of `core` to the table adds `c * core` to its value.
    proof fn lemma_add_term(
        coeffs: Seq<(STerm<SR>, SValue<SR>)>,
        core: STerm<SR>,
        c: SValue<SR>,
        env: Map<Seq<char>, SValue<SR>>,
    )
        ensures
            Self::table_value(Self::add_term(coeffs, core, c), env) == plus::<SR>(
                Self::table_value(coeffs, env),
                times::<SR>(c, Self::eval(core, env)),
            ),
            Self::positive_cores(coeffs) && Self::positive(core) ==> Self::positive_cores(
                Self::add_term(coeffs, core, c),
            ),
    {
        Self::lemma_find_core(coeffs, core);
        match Self::find_core(coeffs, core) {
            Some(i) => {
                Self::lemma_table_raise(coeffs, i, c, env);
                let r = Self::add_term(coeffs, core, c);
                assert(r == coeffs.update(i, (core, plus::<SR>(coeffs[i].1, c))));
                if Self::positive_cores(coeffs) && Self::positive(core) {
                    assert forall|j: int| 0 <= j < r.len() implies #[trigger] Self::positive(r[j].0) by {
                        if j != i {
                            assert(r[j] == coeffs[j]);
                            assert(Self::positive(coeffs[j].0));
                        } else {
                            assert(r[j].0 == core);
                        }
                    }
                }
            },
            None => {
                Self::lemma_table_push(coeffs, (core, c), env);
                let r = coeffs.push((core, c));
                if Self::positive_cores(coeffs) && Self::positive(core) {
                    assert forall|j: int| 0 <= j < r.len() implies #[trigger] Self::positive(r[j].0) by {
                        if j < coeffs.len() {
                            assert(r[j] == coeffs[j]);
                            assert(Self::positive(coeffs[j].0));
                        }
                    }
                }
            },
        }
    }

    /// The coefficient table of a sum holds its value: the constant term
    /// plus the table.
    proof fn lemma_collect_terms(items: Seq<STerm<SR>>, env: Map<Seq<char>, SValue<SR>>)
        ensures
            Self::sum(items, env) == plus::<SR>(
                Self::collect_terms(items).0,
                Self::table_value(Self::collect_terms(items).1, env),
            ),
            Self::all_positive(items) ==> Self::positive_cores(Self::collect_terms(items).1),
        decreases items.len(),
    {
        if items.len() == 0 {
            <SR::Addition as Identity>::lemma_identity(zero::<SR>());
        } else {
            let init = items.drop_last();
            let item = items.last();
            Self::lemma_collect_terms(init, env);
            assert(items =~= init.push(item));
            Self::lemma_sum_push(init, item, env);
            if Self::all_positive(items) {
                assert forall|i: int| 0 <= i < init.len() implies #[trigger] Self::positive(init[i]) by {
                    assert(init[i] == items[i]);
                }
                assert(Self::positive(items[items.len() - 1]));
            }
            let state = Self::collect_terms(init);
            let k = state.0;
            let tv = Self::table_value(state.1, env);
            let x = Self::eval(item, env);
            match item {
                SRTerm::Const(c) => {
                    <SR::Addition as Associative>::lemma_associative(k, tv, c);
                    <SR::Addition as Commutative>::lemma_commutative(tv, c);
                    <SR::Addition as Associative>::lemma_associative(k, c, tv);
                },
                _ => {
                    let split = Self::split_coefficient(item);
                    Self::lemma_split_coefficient(item, env);
                    Self::lemma_add_term(state.1, split.1, split.0, env);
                    <SR::Addition as Associative>::lemma_associative(k, tv, x);
                },
            }
        }
    }

    /// `scaled(core, c)` means `c * core`.
    proof fn lemma_scaled(core: STerm<SR>, c: SValue<SR>, env: Map<Seq<char>, SValue<SR>>)
        ensures
            Self::eval(Self::scaled(core, c), env) == times::<SR>(c, Self::eval(core, env)),
            Self::positive(core) ==> Self::positive(Self::scaled(core, c)),
    {
        let rest = match core {
            SRTerm::Mul(inner) => inner,
            t => seq![t],
        };
        let fs = seq![SRTerm::Const(c)] + rest;
        assert(fs[0] == SRTerm::<SValue<SR>>::Const(c));
        assert(fs.drop_first() =~= rest);
        assert(Self::scaled(core, c) == SRTerm::<SValue<SR>>::Mul(fs));
        assert(Self::eval(fs[0], env) == c);
        assert(Self::product(fs, env) == times::<SR>(c, Self::product(rest, env)));
        match core {
            SRTerm::Mul(_) => {},
            t => {
                Self::lemma_product_single(t, env);
            },
        }
        if Self::positive(core) {
            match core {
                SRTerm::Mul(inner) => {
                    Self::lemma_positive_list(inner);
                },
                t => {
                    assert(Self::all_positive(seq![t]));
                },
            }
            assert forall|i: int| 0 <= i < fs.len() implies #[trigger] Self::positive(fs[i]) by {
                if i > 0 {
                    assert(fs[i] == rest[i - 1]);
                }
            }
            Self::lemma_positive_list(fs);
        }
    }

    /// The summands emitted for a table hold its value.
    proof fn lemma_emit(
        out: Seq<STerm<SR>>,
        coeffs: Seq<(STerm<SR>, SValue<SR>)>,
        env: Map<Seq<char>, SValue<SR>>,
    )
        ensures
            Self::sum(Self::emit(out, coeffs), env) == plus::<SR>(
                Self::sum(out, env),
                Self::table_value(coeffs, env),
            ),
            Self::all_positive(out) && Self::positive_cores(coeffs) ==> Self::all_positive(
                Self::emit(out, coeffs),
            ),
        decreases coeffs.len(),
    {
        if coeffs.len() == 0 {
            <SR::Addition as Identity>::lemma_identity(Self::sum(out, env));
        } else {
            let core = coeffs[0].0;
            let c = coeffs[0].1;
            let x = Self::eval(core, env);
            let rest = coeffs.drop_first();
            let tr = Self::table_value(rest, env);
            let so = Self::sum(out, env);
            if Self::positive_cores(coeffs) {
                assert(Self::positive(coeffs[0].0));
                assert forall|i: int| 0 <= i < rest.len() implies #[trigger] Self::positive(rest[i].0) by {
                    assert(rest[i] == coeffs[i + 1]);
                }
            }
            if c == zero::<SR>() {
                Self::lemma_emit(out, rest, env);
                SR::lemma_annihilates(x);
                <SR::Addition as Identity>::lemma_identity(tr);
            } else {
                let item = if c == one::<SR>() {
                    core
                } else {
                    Self::scaled(core, c)
                };
                if c == one::<SR>() {
                    <SR::Multiplication as Identity>::lemma_identity(x);
                } else {
                    Self::lemma_scaled(core, c, env);
                }
                let next = out.push(item);
                Self::lemma_emit(next, rest, env);
                Self::lemma_sum_push(out, item, env);
                <SR::Addition as Associative>::lemma_associative(so, times::<SR>(c, x), tr);
                if Self::all_positive(out) && Self::positive_cores(coeffs) {
                    assert forall|i: int| 0 <= i < next.len() implies #[trigger] Self::positive(next[i]) by {
                        if i < out.len() {
                            assert(next[i] == out[i]);
                        }
                    }
                }
            }
        }
    }

    /// A finished sum means the sum of its summands.
    proof fn lemma_finish_sum(out: Seq<STerm<SR>>, env: Map<Seq<char>, SValue<SR>>)
        ensures
            Self::eval(Self::finish_sum(out), env) == Self::sum(out, env),
            Self::all_positive(out) ==> Self::positive(Self::finish_sum(out)),
    {
        if out.len() == 1 {
            assert(out =~= seq![out[0]]);
            Self::lemma_sum_single(out[0], env);
        }
        if out.len() > 1 && Self::all_positive(out) {
            Self::lemma_positive_list(out);
        }
    }

    /// A sum rebuilt from its table holds the table's value.
    proof fn lemma_build_sum(table: (SValue<SR>, Seq<(STerm<SR>, SValue<SR>)>), env: Map<Seq<char>, SValue<SR>>)
        ensures
            Self::eval(Self::build_sum(table), env) == plus::<SR>(
                table.0,
                Self::table_value(table.1, env),
            ),
            Self::positive_cores(table.1) ==> Self::positive(Self::build_sum(table)),
    {
        let start = if table.1.len() == 0 || table.0 != zero::<SR>() {
            seq![SRTerm::Const(table.0)]
        } else {
            Seq::empty()
        };
        if table.1.len() == 0 || table.0 != zero::<SR>() {
            Self::lemma_sum_single(SRTerm::Const(table.0), env);
        }
        assert(Self::sum(start, env) == table.0);
        assert(Self::all_positive(start));
        Self::lemma_emit(start, table.1, env);
        Self::lemma_finish_sum(Self::emit(start, table.1), env);
    }
}

impl<SR: SemiRing> SemiRingExpr<SR> {
    /// Folding the factors of a product keeps its value; where a zero
    /// annihilates it, its value is zero.
    proof fn lemma_fold_factors(items: Seq<STerm<SR>>, env: Map<Seq<char>, SValue<SR>>)
        ensures
            match Self::fold_factors(items) {
                None => Self::product(items, env) == zero::<SR>(),
                Some(st) => Self::product(st, env) == Self::product(items, env) && (Self::all_positive(
                    items,
                ) ==> Self::all_positive(st)),
            },
        decreases items.len(),
    {
        if items.len() > 0 {
            let init = items.drop_last();
            let item = items.last();
            Self::lemma_fold_factors(init, env);
            assert(items =~= init.push(item));
            Self::lemma_product_push(init, item, env);
            let x = Self::eval(item, env);
            if Self::all_positive(items) {
                assert forall|i: int| 0 <= i < init.len() implies #[trigger] Self::positive(init[i]) by {
                    assert(init[i] == items[i]);
                }
                assert(Self::positive(items[items.len() - 1]));
            }
            match Self::fold_factors(init) {
                None => {
                    SR::lemma_annihilates(x);
                },
                Some(st) => {
                    let p = Self::product(st, env);
                    if item == SRTerm::<SValue<SR>>::Const(one::<SR>()) {
                        <SR::Multiplication as Identity>::lemma_identity(p);
                    } else if item == SRTerm::<SValue<SR>>::Const(zero::<SR>()) {
                        SR::lemma_annihilates(p);
                    } else {
                        match item {
                            SRTerm::Const(s) => {
                                if st.len() > 0 {
                                    match st.last() {
                                        SRTerm::Const(t) => {
                                            let q = st.drop_last();
                                            assert(st =~= q.push(st.last()));
                                            Self::lemma_product_push(q, st.last(), env);
                                            let qv = Self::product(q, env);
                                            let c = times::<SR>(t, s);
                                            <SR::Multiplication as Associative>::lemma_associative(
                                                qv,
                                                t,
                                                s,
                                            );
                                            if c == zero::<SR>() {
                                                SR::lemma_annihilates(qv);
                                            } else if c != one::<SR>() {
                                                Self::lemma_product_push(q, SRTerm::Const(c), env);
                                            } else {
                                                <SR::Multiplication as Identity>::lemma_identity(qv);
                                            }
                                            if Self::all_positive(items) {
                                                let r = q.push(SRTerm::<SValue<SR>>::Const(c));
                                                assert forall|i: int| 0 <= i < q.len() implies #[trigger] Self::positive(
                                                    q[i],
                                                ) by {
                                                    assert(q[i] == st[i]);
                                                }
                                                assert forall|i: int| 0 <= i < r.len() implies #[trigger] Self::positive(
                                                    r[i],
                                                ) by {
                                                    if i < q.len() {
                                                        assert(r[i] == q[i]);
                                                    }
                                                }
                                            }
                                        },
                                        _ => {
                                            Self::lemma_product_push(st, item, env);
                                            if Self::all_positive(items) {
                                                let r = st.push(item);
                                                assert forall|i: int| 0 <= i < r.len() implies #[trigger] Self::positive(
                                                    r[i],
                                                ) by {
                                                    if i < st.len() {
                                                        assert(r[i] == st[i]);
                                                    }
                                                }
                                            }
                                        },
                                    }
                                } else {
                                    Self::lemma_product_push(st, item, env);
                                    if Self::all_positive(items) {
                                        let r = st.push(item);
                                        assert forall|i: int| 0 <= i < r.len() implies #[trigger] Self::positive(
                                            r[i],
                                        ) by {
                                            if i < st.len() {
                                                assert(r[i] == st[i]);
                                            }
                                        }
                                    }
                                }
                            },
                            _ => {
                                Self::lemma_product_push(st, item, env);
                                if Self::all_positive(items) {
                                    let r = st.push(item);
                                    assert forall|i: int| 0 <= i < r.len() implies #[trigger] Self::positive(
                                        r[i],
                                    ) by {
                                        if i < st.len() {
                                            assert(r[i] == st[i]);
                                        }
                                    }
                                }
                            },
                        }
                    }
                },
            }
        }
    }

    /// The sum of the products of a list of factor lists.
    pub open spec fn products_value(ps: Seq<Seq<STerm<SR>>>, env: Map<Seq<char>, SValue<SR>>) -> SValue<SR>
        decreases ps.len(),
    {
        if ps.len() == 0 {
            zero::<SR>()
        } else {
            plus::<SR>(Self::product(ps[0], env), Self::products_value(ps.drop_first(), env))
        }
    }

    /// Every factor list holds only positive terms.
    pub open spec fn products_positive(ps: Seq<Seq<STerm<SR>>>) -> bool {
        forall|i: int| 0 <= i < ps.len() ==> #[trigger] Self::all_positive(ps[i])
    }

    proof fn lemma_products_value_concat(
        a: Seq<Seq<STerm<SR>>>,
        b: Seq<Seq<STerm<SR>>>,
        env: Map<Seq<char>, SValue<SR>>,
    )
        ensures
            Self::products_value(a + b, env) == plus::<SR>(
                Self::products_value(a, env),
                Self::products_value(b, env),
            ),
        decreases a.len(),
    {
        if a.len() == 0 {
            assert(a + b =~= b);
            <SR::Addition as Identity>::lemma_identity(Self::products_value(b, env));
        } else {
            Self::lemma_products_value_concat(a.drop_first(), b, env);
            assert((a + b).drop_first() =~= a.drop_first() + b);
            assert((a + b)[0] == a[0]);
            <SR::Addition as Associative>::lemma_associative(
                Self::product(a[0], env),
                Self::products_value(a.drop_first(), env),
                Self::products_value(b, env),
            );
        }
    }

    /// `p` extended by each of `terms` sums to `p` times their sum.
    proof fn lemma_extend_by_terms(p: Seq<STerm<SR>>, terms: Seq<STerm<SR>>, env: Map<Seq<char>, SValue<SR>>)
        ensures
            Self::products_value(terms.map_values(|t: STerm<SR>| p.push(t)), env) == times::<SR>(
                Self::product(p, env),
                Self::sum(terms, env),
            ),
        decreases terms.len(),
    {
        let m = terms.map_values(|t: STerm<SR>| p.push(t));
        let pv = Self::product(p, env);
        if terms.len() == 0 {
            SR::lemma_annihilates(pv);
        } else {
            Self::lemma_extend_by_terms(p, terms.drop_first(), env);
            assert(m.drop_first() =~= terms.drop_first().map_values(|t: STerm<SR>| p.push(t)));
            Self::lemma_product_push(p, terms[0], env);
            SR::lemma_distributive(pv, Self::eval(terms[0], env), Self::sum(terms.drop_first(), env));
        }
    }

    /// Each factor list extended by `f` sums to their sum times `f`.
    proof fn lemma_extend_by_factor(ps: Seq<Seq<STerm<SR>>>, f: STerm<SR>, env: Map<Seq<char>, SValue<SR>>)
        ensures
            Self::products_value(ps.map_values(|p: Seq<STerm<SR>>| p.push(f)), env) == times::<SR>(
                Self::products_value(ps, env),
                Self::eval(f, env),
            ),
        decreases ps.len(),
    {
        let m = ps.map_values(|p: Seq<STerm<SR>>| p.push(f));
        let x = Self::eval(f, env);
        if ps.len() == 0 {
            SR::lemma_annihilates(x);
        } else {
            Self::lemma_extend_by_factor(ps.drop_first(), f, env);
            assert(m.drop_first() =~= ps.drop_first().map_values(|p: Seq<STerm<SR>>| p.push(f)));
            Self::lemma_product_push(ps[0], f, env);
            SR::lemma_distributive(x, Self::product(ps[0], env), Self::products_value(ps.drop_first(), env));
        }
    }

    /// Spreading the factor lists over the terms of a sum multiplies their
    /// value by the sum.
    proof fn lemma_spread(ps: Seq<Seq<STerm<SR>>>, terms: Seq<STerm<SR>>, env: Map<Seq<char>, SValue<SR>>)
        ensures
            Self::products_value(Self::spread(ps, terms), env) == times::<SR>(
                Self::products_value(ps, env),
                Self::sum(terms, env),
            ),
        decreases ps.len(),
    {
        let sv = Self::sum(terms, env);
        if ps.len() == 0 {
            SR::lemma_annihilates(sv);
        } else {
            Self::lemma_spread(ps.drop_first(), terms, env);
            let head = terms.map_values(|t: STerm<SR>| ps[0].push(t));
            Self::lemma_extend_by_terms(ps[0], terms, env);
            Self::lemma_products_value_concat(head, Self::spread(ps.drop_first(), terms), env);
            SR::lemma_distributive(sv, Self::product(ps[0], env), Self::products_value(ps.drop_first(), env));
        }
    }

    proof fn lemma_spread_positive(ps: Seq<Seq<STerm<SR>>>, terms: Seq<STerm<SR>>)
        requires
            Self::products_positive(ps),
            Self::all_positive(terms),
        ensures
            Self::products_positive(Self::spread(ps, terms)),
        decreases ps.len(),
    {
        if ps.len() > 0 {
            assert forall|i: int| 0 <= i < ps.drop_first().len() implies #[trigger] Self::all_positive(
                ps.drop_first()[i],
            ) by {
                assert(ps.drop_first()[i] == ps[i + 1]);
            }
            Self::lemma_spread_positive(ps.drop_first(), terms);
            let head = terms.map_values(|t: STerm<SR>| ps[0].push(t));
            let tail = Self::spread(ps.drop_first(), terms);
            assert(Self::all_positive(ps[0]));
            assert forall|i: int| 0 <= i < (head + tail).len() implies #[trigger] Self::all_positive(
                (head + tail)[i],
            ) by {
                if i < head.len() {
                    let q = head[i];
                    assert(q == ps[0].push(terms[i]));
                    assert(Self::positive(terms[i]));
                    assert forall|j: int| 0 <= j < q.len() implies #[trigger] Self::positive(q[j]) by {
                        if j < ps[0].len() {
                            assert(q[j] == ps[0][j]);
                        }
                    }
                } else {
                    assert((head + tail)[i] == tail[i - head.len()]);
                }
            }
        }
    }

    /// The cartesian expansion of the factors sums to their product.
    proof fn lemma_products_of(fs: Seq<STerm<SR>>, env: Map<Seq<char>, SValue<SR>>)
        ensures
            Self::products_value(Self::products_of(fs), env) == Self::product(fs, env),
            Self::all_positive(fs) ==> Self::products_positive(Self::products_of(fs)),
        decreases fs.len(),
    {
        if fs.len() == 0 {
            let e = seq![Seq::<STerm<SR>>::empty()];
            assert(e.drop_first() =~= Seq::<Seq<STerm<SR>>>::empty());
            assert(e[0] == Seq::<STerm<SR>>::empty());
            assert(Self::products_value(e.drop_first(), env) == zero::<SR>());
            <SR::Addition as Identity>::lemma_identity(one::<SR>());
            assert(Self::all_positive(Seq::<STerm<SR>>::empty()));
        } else {
            let init = fs.drop_last();
            let last = fs.last();
            Self::lemma_products_of(init, env);
            assert(fs =~= init.push(last));
            Self::lemma_product_push(init, last, env);
            let ps = Self::products_of(init);
            if Self::all_positive(fs) {
                assert forall|i: int| 0 <= i < init.len() implies #[trigger] Self::positive(init[i]) by {
                    assert(init[i] == fs[i]);
                }
                assert(Self::positive(fs[fs.len() - 1]));
            }
            match last {
                SRTerm::Add(terms) => {
                    Self::lemma_spread(ps, terms, env);
                    if Self::all_positive(fs) {
                        Self::lemma_positive_list(terms);
                        Self::lemma_spread_positive(ps, terms);
                    }
                },
                f => {
                    Self::lemma_extend_by_factor(ps, f, env);
                    if Self::all_positive(fs) {
                        let m = ps.map_values(|p: Seq<STerm<SR>>| p.push(f));
                        assert forall|i: int| 0 <= i < m.len() implies #[trigger] Self::all_positive(m[i]) by {
                            let q = m[i];
                            assert(Self::all_positive(ps[i]));
                            assert forall|j: int| 0 <= j < q.len() implies #[trigger] Self::positive(q[j]) by {
                                if j < ps[i].len() {
                                    assert(q[j] == ps[i][j]);
                                }
                            }
                        }
                    }
                },
            }
        }
    }

    /// A distributed product means the product, and keeps positivity.
    proof fn lemma_distribute(fs: Seq<STerm<SR>>, env: Map<Seq<char>, SValue<SR>>)
        ensures
            Self::eval(Self::distribute(fs), env) == Self::product(fs, env),
            Self::all_positive(fs) ==> Self::positive(Self::distribute(fs)),
    {
        let ps = Self::products_of(fs);
        let ts = ps.map_values(|p: Seq<STerm<SR>>| SRTerm::Mul(p));
        Self::lemma_products_of(fs, env);
        Self::lemma_sum_of_products(ps, env);
        if Self::all_positive(fs) {
            assert forall|i: int| 0 <= i < ts.len() implies #[trigger] Self::positive(ts[i]) by {
                assert(Self::all_positive(ps[i]));
                Self::lemma_positive_list(ps[i]);
            }
            Self::lemma_positive_list(ts);
        }
    }

    proof fn lemma_sum_of_products(ps: Seq<Seq<STerm<SR>>>, env: Map<Seq<char>, SValue<SR>>)
        ensures
            ps.map_values(|p: Seq<STerm<SR>>| SRTerm::Mul(p)).len() == ps.len(),
            Self::sum(ps.map_values(|p: Seq<STerm<SR>>| SRTerm::Mul(p)), env) == Self::products_value(
                ps,
                env,
            ),
        decreases ps.len(),
    {
        if ps.len() > 0 {
            let ts = ps.map_values(|p: Seq<STerm<SR>>| SRTerm::Mul(p));
            Self::lemma_sum_of_products(ps.drop_first(), env);
            assert(ts.drop_first() =~= ps.drop_first().map_values(
                |p: Seq<STerm<SR>>| SRTerm::Mul(p),
            ));
            assert(ts[0] == SRTerm::<SValue<SR>>::Mul(ps[0]));
            assert(Self::eval(ts[0], env) == Self::product(ps[0], env));
        }
    }

    /// A built product means the product of its factors.
    proof fn lemma_build_product(fs: Seq<STerm<SR>>, env: Map<Seq<char>, SValue<SR>>)
        ensures
            Self::eval(Self::build_product(fs), env) == Self::product(fs, env),
            Self::all_positive(fs) ==> Self::positive(Self::build_product(fs)),
    {
        if fs.len() == 1 {
            assert(fs =~= seq![fs[0]]);
            Self::lemma_product_single(fs[0], env);
        }
        if fs.len() > 1 && Self::all_positive(fs) {
            Self::lemma_positive_list(fs);
        }
    }

    /// `x^(m + n) == x^m * x^n`.
    proof fn lemma_pow_nat_add(x: SValue<SR>, m: nat, n: nat)
        ensures
            Self::pow_nat(x, m + n) == times::<SR>(Self::pow_nat(x, m), Self::pow_nat(x, n)),
        decreases n,
    {
        if n == 0 {
            <SR::Multiplication as Identity>::lemma_identity(Self::pow_nat(x, m));
        } else {
            Self::lemma_pow_nat_add(x, m, (n - 1) as nat);
            assert((m + n - 1) as nat == m + (n - 1) as nat);
            <SR::Multiplication as Associative>::lemma_associative(
                Self::pow_nat(x, m),
                Self::pow_nat(x, (n - 1) as nat),
                x,
            );
        }
    }

    /// `x^(m * n) == (x^m)^n`.
    proof fn lemma_pow_nat_mul(x: SValue<SR>, m: nat, n: nat)
        ensures
            Self::pow_nat(x, m * n) == Self::pow_nat(Self::pow_nat(x, m), n),
        decreases n,
    {
        if n == 0 {
            assert(m * n == 0) by (nonlinear_arith)
                requires
                    n == 0,
            ;
        } else {
            Self::lemma_pow_nat_mul(x, m, (n - 1) as nat);
            assert(m * (n - 1) + m == m * n) by (nonlinear_arith)
                requires
                    n >= 1,
            ;
            Self::lemma_pow_nat_add(x, m * (n - 1) as nat, m);
        }
    }

    /// Folding a constant power computes the power.
    proof fn lemma_power(c: SValue<SR>, n: nat)
        requires
            n >= 1,
        ensures
            Self::power(c, n) == Self::pow_nat(c, n),
        decreases n,
    {
        if n == 1 {
            <SR::Multiplication as Identity>::lemma_identity(c);
            assert(Self::pow_nat(c, 1) == times::<SR>(Self::pow_nat(c, 0), c));
        } else {
            Self::lemma_power(c, (n - 1) as nat);
        }
    }

    /// A reduced power means the power, and keeps positivity.
    proof fn lemma_reduce_pow(base: STerm<SR>, n: nat, env: Map<Seq<char>, SValue<SR>>)
        requires
            n >= 1,
        ensures
            Self::eval(Self::reduce_pow(base, n), env) == Self::pow_nat(Self::eval(base, env), n),
            Self::positive(base) ==> Self::positive(Self::reduce_pow(base, n)),
    {
        let x = Self::eval(base, env);
        match base {
            SRTerm::Const(c) => {
                Self::lemma_power(c, n);
            },
            _ => {
                if n == 1 {
                    <SR::Multiplication as Identity>::lemma_identity(x);
                    assert(Self::pow_nat(x, 1) == times::<SR>(Self::pow_nat(x, 0), x));
                } else {
                    match base {
                        SRTerm::Pow(b, m) => {
                            if m * n <= usize::MAX {
                                Self::lemma_pow_nat_mul(Self::eval(*b, env), m, n);
                                if Self::positive(base) {
                                    assert(m * n >= 1) by (nonlinear_arith)
                                        requires
                                            m >= 1,
                                            n >= 1,
                                    ;
                                }
                            }
                        },
                        _ => {},
                    }
                }
            },
        }
    }
}

/// Whether the multiplication of `SR` commutes on all values.
pub open spec fn mul_commutes<SR: SemiRing>() -> bool {
    forall|a: SValue<SR>, b: SValue<SR>| #[trigger] times::<SR>(a, b) == times::<SR>(b, a)
}

impl<SR: SemiRing> SemiRingExpr<SR> {
    /// Inserting an entry into a table adds its value, and keeps positive
    /// cores.
    proof fn lemma_insert_table(
        sorted: Seq<(STerm<SR>, SValue<SR>)>,
        x: (STerm<SR>, SValue<SR>),
        env: Map<Seq<char>, SValue<SR>>,
    )
        ensures
            Self::table_value(Self::insert_by_term(sorted, x), env) == plus::<SR>(
                Self::table_value(sorted, env),
                times::<SR>(x.1, Self::eval(x.0, env)),
            ),
            Self::positive_cores(sorted) && Self::positive(x.0) ==> Self::positive_cores(
                Self::insert_by_term(sorted, x),
            ),
        decreases sorted.len(),
    {
        let v = times::<SR>(x.1, Self::eval(x.0, env));
        if sorted.len() == 0 {
            Self::lemma_table_push(sorted, x, env);
            assert(seq![x] =~= sorted.push(x));
        } else {
            let init = sorted.drop_last();
            let last = sorted.last();
            assert(sorted =~= init.push(last));
            Self::lemma_table_push(init, last, env);
            if Self::positive_cores(sorted) {
                assert forall|i: int| 0 <= i < init.len() implies #[trigger] Self::positive(init[i].0) by {
                    assert(init[i] == sorted[i]);
                }
                assert(Self::positive(sorted[sorted.len() - 1].0));
            }
            if Self::structural_order(last.0, x.0) == crate::symbol::Cmp::Greater {
                Self::lemma_insert_table(init, x, env);
                let inner = Self::insert_by_term(init, x);
                Self::lemma_table_push(inner, last, env);
                let ti = Self::table_value(init, env);
                let vl = times::<SR>(last.1, Self::eval(last.0, env));
                <SR::Addition as Associative>::lemma_associative(ti, v, vl);
                <SR::Addition as Commutative>::lemma_commutative(v, vl);
                <SR::Addition as Associative>::lemma_associative(ti, vl, v);
                if Self::positive_cores(sorted) && Self::positive(x.0) {
                    let r = inner.push(last);
                    assert forall|i: int| 0 <= i < r.len() implies #[trigger] Self::positive(r[i].0) by {
                        if i < inner.len() {
                            assert(r[i] == inner[i]);
                        }
                    }
                }
            } else {
                Self::lemma_table_push(sorted, x, env);
                if Self::positive_cores(sorted) && Self::positive(x.0) {
                    let r = sorted.push(x);
                    assert forall|i: int| 0 <= i < r.len() implies #[trigger] Self::positive(r[i].0) by {
                        if i < sorted.len() {
                            assert(r[i] == sorted[i]);
                        }
                    }
                }
            }
        }
    }

    /// Sorting a table keeps its value and positive cores.
    proof fn lemma_sort_table(table: Seq<(STerm<SR>, SValue<SR>)>, env: Map<Seq<char>, SValue<SR>>)
        ensures
            Self::table_value(Self::sort_by_term(table), env) == Self::table_value(table, env),
            Self::positive_cores(table) ==> Self::positive_cores(Self::sort_by_term(table)),
        decreases table.len(),
    {
        if table.len() > 0 {
            let init = table.drop_last();
            let last = table.last();
            Self::lemma_sort_table(init, env);
            Self::lemma_insert_table(Self::sort_by_term(init), last, env);
            assert(table =~= init.push(last));
            Self::lemma_table_push(init, last, env);
            if Self::positive_cores(table) {
                assert forall|i: int| 0 <= i < init.len() implies #[trigger] Self::positive(init[i].0) by {
                    assert(init[i] == table[i]);
                }
                assert(Self::positive(table[table.len() - 1].0));
            }
        }
    }

    /// A product is its constants' product times its other factors'
    /// product, where multiplication commutes.
    proof fn lemma_const_split(fs: Seq<STerm<SR>>, env: Map<Seq<char>, SValue<SR>>)
        requires
            mul_commutes::<SR>(),
        ensures
            Self::product(fs, env) == times::<SR>(
                Self::const_product(fs),
                Self::product(Self::non_constants(fs), env),
            ),
            Self::all_positive(fs) ==> Self::all_positive(Self::non_constants(fs)),
        decreases fs.len(),
    {
        if fs.len() == 0 {
            <SR::Multiplication as Identity>::lemma_identity(one::<SR>());
        } else {
            let init = fs.drop_last();
            let last = fs.last();
            Self::lemma_const_split(init, env);
            assert(fs =~= init.push(last));
            Self::lemma_product_push(init, last, env);
            let cp = Self::const_product(init);
            let nc = Self::non_constants(init);
            let pn = Self::product(nc, env);
            if Self::all_positive(fs) {
                assert forall|i: int| 0 <= i < init.len() implies #[trigger] Self::positive(init[i]) by {
                    assert(init[i] == fs[i]);
                }
                assert(Self::positive(fs[fs.len() - 1]));
            }
            match last {
                SRTerm::Const(c) => {
                    <SR::Multiplication as Associative>::lemma_associative(cp, pn, c);
                    assert(times::<SR>(pn, c) == times::<SR>(c, pn));
                    <SR::Multiplication as Associative>::lemma_associative(cp, c, pn);
                },
                f => {
                    Self::lemma_product_push(nc, f, env);
                    <SR::Multiplication as Associative>::lemma_associative(cp, pn, Self::eval(f, env));
                    if Self::all_positive(fs) {
                        let r = nc.push(f);
                        assert forall|i: int| 0 <= i < r.len() implies #[trigger] Self::positive(r[i]) by {
                            if i < nc.len() {
                                assert(r[i] == nc[i]);
                            }
                        }
                    }
                },
            }
        }
    }

    /// The product of a table of powers.
    pub open spec fn powers_value(pows: Seq<(STerm<SR>, nat)>, env: Map<Seq<char>, SValue<SR>>) -> SValue<SR>
        decreases pows.len(),
    {
        if pows.len() == 0 {
            one::<SR>()
        } else {
            times::<SR>(
                Self::pow_nat(Self::eval(pows[0].0, env), pows[0].1),
                Self::powers_value(pows.drop_first(), env),
            )
        }
    }

    /// Whether a power has a positive base and exponent.
    pub open spec fn positive_power(p: (STerm<SR>, nat)) -> bool {
        Self::positive(p.0) && p.1 >= 1
    }

    /// Whether every power of a table is [`Self::positive_power`].
    pub open spec fn positive_pows(pows: Seq<(STerm<SR>, nat)>) -> bool {
        forall|i: int| 0 <= i < pows.len() ==> #[trigger] Self::positive_power(pows[i])
    }

    proof fn lemma_powers_push(
        pows: Seq<(STerm<SR>, nat)>,
        p: (STerm<SR>, nat),
        env: Map<Seq<char>, SValue<SR>>,
    )
        ensures
            Self::powers_value(pows.push(p), env) == times::<SR>(
                Self::powers_value(pows, env),
                Self::pow_nat(Self::eval(p.0, env), p.1),
            ),
        decreases pows.len(),
    {
        let v = Self::pow_nat(Self::eval(p.0, env), p.1);
        if pows.len() == 0 {
            assert(pows.push(p).drop_first() =~= Seq::<(STerm<SR>, nat)>::empty());
            assert(pows.push(p)[0] == p);
            assert(Self::powers_value(pows.push(p).drop_first(), env) == one::<SR>());
            <SR::Multiplication as Identity>::lemma_identity(v);
        } else {
            Self::lemma_powers_push(pows.drop_first(), p, env);
            assert(pows.push(p).drop_first() =~= pows.drop_first().push(p));
            assert(pows.push(p)[0] == pows[0]);
            <SR::Multiplication as Associative>::lemma_associative(
                Self::pow_nat(Self::eval(pows[0].0, env), pows[0].1),
                Self::powers_value(pows.drop_first(), env),
                v,
            );
        }
    }

    proof fn lemma_find_base(pows: Seq<(STerm<SR>, nat)>, b: STerm<SR>)
        ensures
            Self::find_base(pows, b) matches Some(i) ==> 0 <= i < pows.len() && pows[i].0 == b,
        decreases pows.len(),
    {
        if pows.len() > 0 && pows[0].0 != b {
            Self::lemma_find_base(pows.drop_first(), b);
        }
    }

    /// Raising the `i`-th exponent by `e` multiplies the product by
    /// `b^e`, where multiplication commutes.
    proof fn lemma_powers_raise(
        pows: Seq<(STerm<SR>, nat)>,
        i: int,
        e: nat,
        env: Map<Seq<char>, SValue<SR>>,
    )
        requires
            mul_commutes::<SR>(),
            0 <= i < pows.len(),
        ensures
            Self::powers_value(pows.update(i, (pows[i].0, pows[i].1 + e)), env) == times::<SR>(
                Self::powers_value(pows, env),
                Self::pow_nat(Self::eval(pows[i].0, env), e),
            ),
        decreases pows.len(),
    {
        let x = Self::eval(pows[i].0, env);
        let y = Self::pow_nat(x, e);
        let raised = pows.update(i, (pows[i].0, pows[i].1 + e));
        let rest = Self::powers_value(pows.drop_first(), env);
        if i == 0 {
            assert(raised.drop_first() =~= pows.drop_first());
            Self::lemma_pow_nat_add(x, pows[0].1, e);
            let h = Self::pow_nat(x, pows[0].1);
            <SR::Multiplication as Associative>::lemma_associative(h, y, rest);
            assert(times::<SR>(y, rest) == times::<SR>(rest, y));
            <SR::Multiplication as Associative>::lemma_associative(h, rest, y);
        } else {
            Self::lemma_powers_raise(pows.drop_first(), i - 1, e, env);
            assert(raised.drop_first() =~= pows.drop_first().update(
                i - 1,
                (pows[i].0, pows[i].1 + e),
            ));
            assert(pows.drop_first()[i - 1] == pows[i]);
            <SR::Multiplication as Associative>::lemma_associative(
                Self::pow_nat(Self::eval(pows[0].0, env), pows[0].1),
                rest,
                y,
            );
        }
    }

    /// A factor is its base to its exponent.
    proof fn lemma_base_and_exponent(f: STerm<SR>, env: Map<Seq<char>, SValue<SR>>)
        ensures
            Self::eval(f, env) == Self::pow_nat(
                Self::eval(Self::base_and_exponent(f).0, env),
                Self::base_and_exponent(f).1,
            ),
            Self::positive(f) ==> Self::positive(Self::base_and_exponent(f).0)
                && Self::base_and_exponent(f).1 >= 1,
    {
        match f {
            SRTerm::Pow(_, _) => {},
            _ => {
                let x = Self::eval(f, env);
                <SR::Multiplication as Identity>::lemma_identity(x);
                assert(Self::pow_nat(x, 1) == times::<SR>(Self::pow_nat(x, 0), x));
            },
        }
    }

    /// Collecting repeated factors into powers keeps the product, where
    /// multiplication commutes.
    proof fn lemma_collect_powers(fs: Seq<STerm<SR>>, env: Map<Seq<char>, SValue<SR>>)
        requires
            mul_commutes::<SR>(),
        ensures
            Self::powers_value(Self::collect_powers(fs), env) == Self::product(fs, env),
            Self::all_positive(fs) ==> Self::positive_pows(Self::collect_powers(fs)),
        decreases fs.len(),
    {
        if fs.len() > 0 {
            let init = fs.drop_last();
            let f = fs.last();
            Self::lemma_collect_powers(init, env);
            assert(fs =~= init.push(f));
            Self::lemma_product_push(init, f, env);
            if Self::all_positive(fs) {
                assert forall|i: int| 0 <= i < init.len() implies #[trigger] Self::positive(init[i]) by {
                    assert(init[i] == fs[i]);
                }
                assert(Self::positive(fs[fs.len() - 1]));
            }
            let pows = Self::collect_powers(init);
            let (b, e) = Self::base_and_exponent(f);
            Self::lemma_base_and_exponent(f, env);
            Self::lemma_find_base(pows, b);
            match Self::find_base(pows, b) {
                Some(i) => {
                    Self::lemma_powers_raise(pows, i, e, env);
                    let r = pows.update(i, (b, pows[i].1 + e));
                    if Self::all_positive(fs) {
                        assert forall|j: int| 0 <= j < r.len() implies #[trigger] Self::positive_power(r[j]) by {
                            if j != i {
                                assert(r[j] == pows[j]);
                            }
                        }
                    }
                },
                None => {
                    Self::lemma_powers_push(pows, (b, e), env);
                    let r = pows.push((b, e));
                    if Self::all_positive(fs) {
                        assert forall|j: int| 0 <= j < r.len() implies #[trigger] Self::positive_power(r[j]) by {
                            if j < pows.len() {
                                assert(r[j] == pows[j]);
                            }
                        }
                    }
                },
            }
        }
    }

    /// Inserting a power multiplies the product by it, where
    /// multiplication commutes.
    proof fn lemma_insert_powers(
        sorted: Seq<(STerm<SR>, nat)>,
        x: (STerm<SR>, nat),
        env: Map<Seq<char>, SValue<SR>>,
    )
        requires
            mul_commutes::<SR>(),
        ensures
            Self::powers_value(Self::insert_by_term(sorted, x), env) == times::<SR>(
                Self::powers_value(sorted, env),
                Self::pow_nat(Self::eval(x.0, env), x.1),
            ),
            Self::positive_pows(sorted) && Self::positive(x.0) && x.1 >= 1 ==> Self::positive_pows(
                Self::insert_by_term(sorted, x),
            ),
        decreases sorted.len(),
    {
        let v = Self::pow_nat(Self::eval(x.0, env), x.1);
        if sorted.len() == 0 {
            Self::lemma_powers_push(sorted, x, env);
            assert(seq![x] =~= sorted.push(x));
        } else {
            let init = sorted.drop_last();
            let last = sorted.last();
            assert(sorted =~= init.push(last));
            Self::lemma_powers_push(init, last, env);
            if Self::positive_pows(sorted) {
                assert forall|i: int| 0 <= i < init.len() implies #[trigger] Self::positive_power(init[i]) by {
                    assert(init[i] == sorted[i]);
                }
                assert(Self::positive_power(sorted[sorted.len() - 1]));
            }
            if Self::structural_order(last.0, x.0) == crate::symbol::Cmp::Greater {
                Self::lemma_insert_powers(init, x, env);
                let inner = Self::insert_by_term(init, x);
                Self::lemma_powers_push(inner, last, env);
                let ti = Self::powers_value(init, env);
                let vl = Self::pow_nat(Self::eval(last.0, env), last.1);
                <SR::Multiplication as Associative>::lemma_associative(ti, v, vl);
                assert(times::<SR>(v, vl) == times::<SR>(vl, v));
                <SR::Multiplication as Associative>::lemma_associative(ti, vl, v);
                if Self::positive_pows(sorted) && Self::positive(x.0) && x.1 >= 1 {
                    let r = inner.push(last);
                    assert forall|i: int| 0 <= i < r.len() implies #[trigger] Self::positive_power(r[i]) by {
                        if i < inner.len() {
                            assert(r[i] == inner[i]);
                        }
                    }
                }
            } else {
                Self::lemma_powers_push(sorted, x, env);
                if Self::positive_pows(sorted) && Self::positive(x.0) && x.1 >= 1 {
                    let r = sorted.push(x);
                    assert forall|i: int| 0 <= i < r.len() implies #[trigger] Self::positive_power(r[i]) by {
                        if i < sorted.len() {
                            assert(r[i] == sorted[i]);
                        }
                    }
                }
            }
        }
    }

    /// Sorting powers keeps their product, where multiplication commutes.
    proof fn lemma_sort_powers(pows: Seq<(STerm<SR>, nat)>, env: Map<Seq<char>, SValue<SR>>)
        requires
            mul_commutes::<SR>(),
        ensures
            Self::powers_value(Self::sort_by_term(pows), env) == Self::powers_value(pows, env),
            Self::positive_pows(pows) ==> Self::positive_pows(Self::sort_by_term(pows)),
        decreases pows.len(),
    {
        if pows.len() > 0 {
            let init = pows.drop_last();
            let last = pows.last();
            Self::lemma_sort_powers(init, env);
            Self::lemma_insert_powers(Self::sort_by_term(init), last, env);
            assert(pows =~= init.push(last));
            Self::lemma_powers_push(init, last, env);
            if Self::positive_pows(pows) {
                assert forall|i: int| 0 <= i < init.len() implies #[trigger] Self::positive_power(init[i]) by {
                    assert(init[i] == pows[i]);
                }
                assert(Self::positive_power(pows[pows.len() - 1]));
            }
        }
    }

    /// The powers as factors multiply to their product.
    proof fn lemma_power_factors(pows: Seq<(STerm<SR>, nat)>, env: Map<Seq<char>, SValue<SR>>)
        ensures
            Self::product(pows.map_values(|p: (STerm<SR>, nat)| Self::power_factor(p)), env)
                == Self::powers_value(pows, env),
            Self::positive_pows(pows) ==> Self::all_positive(
                pows.map_values(|p: (STerm<SR>, nat)| Self::power_factor(p)),
            ),
        decreases pows.len(),
    {
        let fs = pows.map_values(|p: (STerm<SR>, nat)| Self::power_factor(p));
        if pows.len() > 0 {
            Self::lemma_power_factors(pows.drop_first(), env);
            assert(fs.drop_first() =~= pows.drop_first().map_values(
                |p: (STerm<SR>, nat)| Self::power_factor(p),
            ));
            let x = Self::eval(pows[0].0, env);
            if pows[0].1 == 1 {
                <SR::Multiplication as Identity>::lemma_identity(x);
                assert(Self::pow_nat(x, 1) == times::<SR>(Self::pow_nat(x, 0), x));
            }
            assert(fs[0] == Self::power_factor(pows[0]));
            assert(Self::eval(fs[0], env) == Self::pow_nat(x, pows[0].1));
            assert(Self::product(fs, env) == times::<SR>(
                Self::eval(fs[0], env),
                Self::product(fs.drop_first(), env),
            ));
            if Self::positive_pows(pows) {
                assert(Self::positive_power(pows[0]));
                assert forall|i: int| 0 <= i < pows.drop_first().len() implies #[trigger] Self::positive_power(
                    pows.drop_first()[i],
                ) by {
                    assert(pows.drop_first()[i] == pows[i + 1]);
                }
                assert forall|i: int| 0 <= i < fs.len() implies #[trigger] Self::positive(fs[i]) by {
                    if i > 0 {
                        assert(fs[i] == fs.drop_first()[i - 1]);
                    }
                }
            }
        }
    }

    /// A product under commutativity means the product, and keeps
    /// positivity, where multiplication commutes.
    proof fn lemma_commute(fs: Seq<STerm<SR>>, env: Map<Seq<char>, SValue<SR>>)
        requires
            mul_commutes::<SR>(),
        ensures
            Self::eval(Self::commute(fs), env) == Self::product(fs, env),
            Self::all_positive(fs) ==> Self::positive(Self::commute(fs)),
    {
        let c = Self::const_product(fs);
        let nc = Self::non_constants(fs);
        Self::lemma_const_split(fs, env);
        Self::lemma_collect_powers(nc, env);
        let pn = Self::product(nc, env);
        if c == zero::<SR>() {
            SR::lemma_annihilates(pn);
        } else {
            let pows = Self::sort_by_term(Self::collect_powers(nc));
            Self::lemma_sort_powers(Self::collect_powers(nc), env);
            let factors = pows.map_values(|p: (STerm<SR>, nat)| Self::power_factor(p));
            Self::lemma_power_factors(pows, env);
            let lead = if c != one::<SR>() {
                seq![SRTerm::Const(c)]
            } else {
                Seq::empty()
            };
            Self::lemma_product_concat(lead, factors, env);
            if c != one::<SR>() {
                Self::lemma_product_single(SRTerm::Const(c), env);
            } else {
                <SR::Multiplication as Identity>::lemma_identity(Self::product(factors, env));
            }
            let all = lead + factors;
            Self::lemma_build_product(all, env);
            if Self::all_positive(fs) {
                assert forall|i: int| 0 <= i < all.len() implies #[trigger] Self::positive(all[i]) by {
                    if i >= lead.len() {
                        assert(all[i] == factors[i - lead.len()]);
                    }
                }
            }
        }
    }
}

impl<SR: SemiRing> SemiRingExpr<SR> {
    /// Normalizing keeps the value of a term whose powers have positive
    /// exponents, and keeps that positivity (where multiplication commutes,
    /// if `comm`).
    proof fn lemma_norm(t: STerm<SR>, budget: nat, comm: bool, env: Map<Seq<char>, SValue<SR>>)
        requires
            Self::positive(t),
            comm ==> mul_commutes::<SR>(),
        ensures
            Self::eval(Self::norm(t, budget, comm), env) == Self::eval(t, env),
            Self::positive(Self::norm(t, budget, comm)),
        decreases budget, t,
    {
        match t {
            SRTerm::Add(es) => {
                Self::lemma_positive_list(es);
                Self::lemma_norms(es, budget, comm, env);
                let ns = Self::norms(es, budget, comm);
                Self::lemma_flatten_sums(ns, env);
                let flat = Self::flatten_sums(ns);
                Self::lemma_collect_terms(flat, env);
                let table = Self::collect_terms(flat);
                if comm {
                    Self::lemma_sort_table(table.1, env);
                    Self::lemma_build_sum((table.0, Self::sort_by_term(table.1)), env);
                } else {
                    Self::lemma_build_sum(table, env);
                }
            },
            SRTerm::Mul(es) => {
                Self::lemma_positive_list(es);
                Self::lemma_norms(es, budget, comm, env);
                let ns = Self::norms(es, budget, comm);
                Self::lemma_flatten_products(ns, env);
                let flat = Self::flatten_products(ns);
                Self::lemma_fold_factors(flat, env);
                match Self::fold_factors(flat) {
                    None => {},
                    Some(fs) => {
                        if Self::has_sum(fs) && budget > 0 {
                            Self::lemma_distribute(fs, env);
                            Self::lemma_norm(Self::distribute(fs), (budget - 1) as nat, comm, env);
                        } else if comm {
                            Self::lemma_commute(fs, env);
                        } else {
                            Self::lemma_build_product(fs, env);
                        }
                    },
                }
            },
            SRTerm::Pow(b, n) => {
                Self::lemma_norm(*b, budget, comm, env);
                Self::lemma_reduce_pow(Self::norm(*b, budget, comm), n, env);
            },
            _ => {},
        }
    }

    /// Normalizing each term of a list keeps its sum and its product.
    proof fn lemma_norms(es: Seq<STerm<SR>>, budget: nat, comm: bool, env: Map<Seq<char>, SValue<SR>>)
        requires
            Self::all_positive(es),
            comm ==> mul_commutes::<SR>(),
        ensures
            Self::sum(Self::norms(es, budget, comm), env) == Self::sum(es, env),
            Self::product(Self::norms(es, budget, comm), env) == Self::product(es, env),
            Self::all_positive(Self::norms(es, budget, comm)),
        decreases budget, es,
    {
        if es.len() > 0 {
            assert(Self::positive(es[0]));
            assert forall|i: int| 0 <= i < es.drop_first().len() implies #[trigger] Self::positive(
                es.drop_first()[i],
            ) by {
                assert(es.drop_first()[i] == es[i + 1]);
            }
            Self::lemma_norm(es[0], budget, comm, env);
            Self::lemma_norms(es.drop_first(), budget, comm, env);
            let ns = Self::norms(es, budget, comm);
            let rest = Self::norms(es.drop_first(), budget, comm);
            assert(ns[0] == Self::norm(es[0], budget, comm));
            assert(ns.drop_first() =~= rest);
            assert forall|i: int| 0 <= i < ns.len() implies #[trigger] Self::positive(ns[i]) by {
                if i > 0 {
                    assert(ns[i] == rest[i - 1]);
                }
            }
        }
    }

    /// Normalizing under the semi-ring laws keeps the value of every
    /// expression whose powers have exponents of at least one, whatever the
    /// values of its symbols.
    pub proof fn lemma_normal_form_preserves_value(t: STerm<SR>, env: Map<Seq<char>, SValue<SR>>)
        requires
            Self::positive(t),
        ensures
            Self::eval(Self::normal_form(t), env) == Self::eval(t, env),
    {
        Self::lemma_norm(t, 1, false, env);
    }
}

/// Normalizing under the semi-ring laws and commutativity of
/// multiplication keeps, where multiplication does commute, the value of
/// every expression whose powers have exponents of at least one, whatever
/// the values of its symbols.
pub proof fn lemma_commutative_normal_form_preserves_value<SR: SemiRing>(
    t: STerm<SR>,
    env: Map<Seq<char>, SValue<SR>>,
)
    requires
        SemiRingExpr::<SR>::positive(t),
        mul_commutes::<SR>(),
    ensures
        SemiRingExpr::<SR>::eval(SemiRingExpr::<SR>::commutative_normal_form(t), env)
            == SemiRingExpr::<SR>::eval(t, env),
{
    SemiRingExpr::<SR>::lemma_norm(t, 1, true, env);
}

} // verus!
