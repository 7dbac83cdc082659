//! What group expressions mean, and that their normal forms mean the same.
use vstd::prelude::*;

use crate::op::Commutative;
use crate::group::{
    fits_isize, lemma_inverse_involutive, lemma_inverse_of_product, lemma_inverse_unique,
    GTerm, GValue, Group, GroupExpr, GroupTerm,
};

verus! {

/// The inverse of the identity is the identity.
pub proof fn lemma_inverse_identity<G: Group>()
    ensures
        G::spec_inverse(G::spec_identity()) == G::spec_identity(),
{
    G::lemma_identity(G::spec_identity());
    lemma_inverse_unique::<G>(G::spec_identity(), G::spec_identity());
}

impl<G: Group> GroupExpr<G> {
    // ============================================================================
    // Values
    // ============================================================================

    /// The value of a term when each symbol takes its value from `env`.
    pub open spec fn eval(t: GTerm<G>, env: Map<Seq<char>, GValue<G>>) -> GValue<G>
        decreases t,
    {
        match t {
            GroupTerm::Const(c) => c,
            GroupTerm::Symbol(s) => env[s],
            GroupTerm::Inv(x) => G::spec_inverse(Self::eval(*x, env)),
            GroupTerm::Op(ts) => Self::product(ts, env),
            GroupTerm::Pow(b, k) => Self::pow_int(Self::eval(*b, env), k),
        }
    }

    /// The product of the values of `terms`, left to right.
    pub open spec fn product(terms: Seq<GTerm<G>>, env: Map<Seq<char>, GValue<G>>) -> GValue<G>
        decreases terms,
    {
        if terms.len() == 0 {
            G::spec_identity()
        } else {
            G::spec_apply(Self::eval(terms[0], env), Self::product(terms.drop_first(), env))
        }
    }

    // ============================================================================
    // Powers
    // ============================================================================

    /// `b^(n + 1) == b * b^n`.
    proof fn lemma_pow_nat_left(b: GValue<G>, n: nat)
        ensures
            Self::pow_nat(b, n + 1) == G::spec_apply(b, Self::pow_nat(b, n)),
        decreases n,
    {
        if n == 0 {
            G::lemma_identity(b);
        } else {
            Self::lemma_pow_nat_left(b, (n - 1) as nat);
            assert((n + 1 - 1) as nat == n);
            G::lemma_associative(b, Self::pow_nat(b, (n - 1) as nat), b);
        }
    }

    /// `(b^-1)^n == (b^n)^-1`.
    proof fn lemma_pow_nat_inverse(b: GValue<G>, n: nat)
        ensures
            Self::pow_nat(G::spec_inverse(b), n) == G::spec_inverse(Self::pow_nat(b, n)),
        decreases n,
    {
        if n == 0 {
            lemma_inverse_identity::<G>();
        } else {
            Self::lemma_pow_nat_inverse(b, (n - 1) as nat);
            Self::lemma_pow_nat_left(b, (n - 1) as nat);
            assert((n - 1 + 1) as nat == n);
            lemma_inverse_of_product::<G>(b, Self::pow_nat(b, (n - 1) as nat));
        }
    }

    /// `b^(k + 1) == b^k * b` for every integer `k`.
    proof fn lemma_pow_int_up(b: GValue<G>, k: int)
        ensures
            Self::pow_int(b, k + 1) == G::spec_apply(Self::pow_int(b, k), b),
    {
        let ib = G::spec_inverse(b);
        if k < 0 {
            let n = (-k - 1) as nat;
            assert(Self::pow_nat(ib, (-k) as nat) == G::spec_apply(Self::pow_nat(ib, n), ib));
            G::lemma_inverse(b);
            G::lemma_associative(Self::pow_nat(ib, n), ib, b);
            G::lemma_identity(Self::pow_nat(ib, n));
            if k == -1 {
                assert(Self::pow_int(b, k + 1) == Self::pow_nat(b, 0));
                assert(Self::pow_nat(ib, n) == G::spec_identity());
            } else {
                assert(Self::pow_int(b, k + 1) == Self::pow_nat(ib, n));
            }
        } else {
            assert((k + 1) as nat - 1 == k as nat);
        }
    }

    /// `b^(k - 1) == b^k * b^-1` for every integer `k`.
    proof fn lemma_pow_int_down(b: GValue<G>, k: int)
        ensures
            Self::pow_int(b, k - 1) == G::spec_apply(Self::pow_int(b, k), G::spec_inverse(b)),
    {
        let ib = G::spec_inverse(b);
        if k > 0 {
            let n = (k - 1) as nat;
            assert(Self::pow_nat(b, k as nat) == G::spec_apply(Self::pow_nat(b, n), b));
            G::lemma_inverse(b);
            G::lemma_associative(Self::pow_nat(b, n), b, ib);
            G::lemma_identity(Self::pow_nat(b, n));
        } else {
            let n = (-(k - 1)) as nat;
            assert((n - 1) as nat == (-k) as nat);
            assert(Self::pow_nat(ib, n) == G::spec_apply(Self::pow_nat(ib, (n - 1) as nat), ib));
            if k == 0 {
                assert(Self::pow_nat(ib, 0) == Self::pow_nat(b, 0));
            }
        }
    }

    /// `b^(m + n) == b^m * b^n` for all integers `m` and `n`.
    pub proof fn lemma_pow_int_add(b: GValue<G>, m: int, n: int)
        ensures
            Self::pow_int(b, m + n) == G::spec_apply(Self::pow_int(b, m), Self::pow_int(b, n)),
        decreases (if n >= 0 {
            n
        } else {
            -n
        }),
    {
        if n == 0 {
            G::lemma_identity(Self::pow_int(b, m));
        } else if n > 0 {
            Self::lemma_pow_int_add(b, m, n - 1);
            Self::lemma_pow_int_up(b, m + n - 1);
            Self::lemma_pow_int_up(b, n - 1);
            G::lemma_associative(Self::pow_int(b, m), Self::pow_int(b, n - 1), b);
        } else {
            Self::lemma_pow_int_add(b, m, n + 1);
            Self::lemma_pow_int_down(b, m + n + 1);
            Self::lemma_pow_int_down(b, n + 1);
            G::lemma_associative(
                Self::pow_int(b, m),
                Self::pow_int(b, n + 1),
                G::spec_inverse(b),
            );
        }
    }

    /// `b^-k == (b^k)^-1`.
    pub proof fn lemma_pow_int_negate(b: GValue<G>, k: int)
        ensures
            Self::pow_int(b, -k) == G::spec_inverse(Self::pow_int(b, k)),
    {
        if k > 0 {
            Self::lemma_pow_nat_inverse(b, k as nat);
        } else if k < 0 {
            Self::lemma_pow_nat_inverse(b, (-k) as nat);
            lemma_inverse_involutive::<G>(Self::pow_nat(b, (-k) as nat));
        } else {
            lemma_inverse_identity::<G>();
        }
    }

    /// `(b^-1)^k == b^-k`.
    pub proof fn lemma_pow_int_of_inverse(b: GValue<G>, k: int)
        ensures
            Self::pow_int(G::spec_inverse(b), k) == Self::pow_int(b, -k),
    {
        if k < 0 {
            lemma_inverse_involutive::<G>(b);
        }
    }

    /// `b^(j * k) == (b^j)^k`.
    pub proof fn lemma_pow_int_mul(b: GValue<G>, j: int, k: int)
        ensures
            Self::pow_int(b, j * k) == Self::pow_int(Self::pow_int(b, j), k),
        decreases (if k >= 0 {
            k
        } else {
            -k
        }),
    {
        let x = Self::pow_int(b, j);
        if k == 0 {
            assert(j * k == 0) by (nonlinear_arith)
                requires
                    k == 0,
            ;
        } else if k > 0 {
            Self::lemma_pow_int_mul(b, j, k - 1);
            Self::lemma_pow_int_up(x, k - 1);
            assert(j * (k - 1) + j == j * k) by (nonlinear_arith);
            Self::lemma_pow_int_add(b, j * (k - 1), j);
        } else {
            Self::lemma_pow_int_mul(b, j, k + 1);
            Self::lemma_pow_int_down(x, k + 1);
            Self::lemma_pow_int_negate(b, j);
            assert(j * (k + 1) + (-j) == j * k) by (nonlinear_arith);
            Self::lemma_pow_int_add(b, j * (k + 1), -j);
        }
    }

    proof fn lemma_pow_int_one(b: GValue<G>)
        ensures
            Self::pow_int(b, 1) == b,
            Self::pow_int(b, -1) == G::spec_inverse(b),
            Self::pow_int(b, 0) == G::spec_identity(),
    {
        G::lemma_identity(b);
        G::lemma_identity(G::spec_inverse(b));
        assert(Self::pow_nat(b, 1) == G::spec_apply(Self::pow_nat(b, 0), b));
        assert(Self::pow_nat(G::spec_inverse(b), 1) == G::spec_apply(
            Self::pow_nat(G::spec_inverse(b), 0),
            G::spec_inverse(b),
        ));
    }
}

impl<G: Group> GroupExpr<G> {
    // ============================================================================
    // Products
    // ============================================================================

    proof fn lemma_product_single(t: GTerm<G>, env: Map<Seq<char>, GValue<G>>)
        ensures
            Self::product(seq![t], env) == Self::eval(t, env),
    {
        assert(seq![t].drop_first() =~= Seq::<GTerm<G>>::empty());
        assert(Self::product(seq![t].drop_first(), env) == G::spec_identity());
        G::lemma_identity(Self::eval(t, env));
    }

    /// The product of a concatenation is the product of the products.
    pub proof fn lemma_product_concat(
        a: Seq<GTerm<G>>,
        b: Seq<GTerm<G>>,
        env: Map<Seq<char>, GValue<G>>,
    )
        ensures
            Self::product(a + b, env) == G::spec_apply(Self::product(a, env), Self::product(b, env)),
        decreases a.len(),
    {
        if a.len() == 0 {
            assert(a + b =~= b);
            G::lemma_identity(Self::product(b, env));
        } else {
            Self::lemma_product_concat(a.drop_first(), b, env);
            assert((a + b).drop_first() =~= a.drop_first() + b);
            G::lemma_associative(
                Self::eval(a[0], env),
                Self::product(a.drop_first(), env),
                Self::product(b, env),
            );
        }
    }

    proof fn lemma_product_push(a: Seq<GTerm<G>>, t: GTerm<G>, env: Map<Seq<char>, GValue<G>>)
        ensures
            Self::product(a.push(t), env) == G::spec_apply(Self::product(a, env), Self::eval(t, env)),
    {
        assert(a.push(t) =~= a + seq![t]);
        Self::lemma_product_concat(a, seq![t], env);
        Self::lemma_product_single(t, env);
    }

    proof fn lemma_product_split(t: GTerm<G>, env: Map<Seq<char>, GValue<G>>)
        ensures
            Self::product(Self::split_term(t), env) == Self::eval(t, env),
    {
        match t {
            GroupTerm::Op(_) => {},
            _ => Self::lemma_product_single(t, env),
        }
    }

    /// Splicing nested products keeps the product.
    proof fn lemma_product_flatten(terms: Seq<GTerm<G>>, env: Map<Seq<char>, GValue<G>>)
        ensures
            Self::product(Self::flatten_terms(terms), env) == Self::product(terms, env),
        decreases terms.len(),
    {
        if terms.len() > 0 {
            Self::lemma_product_flatten(terms.drop_first(), env);
            Self::lemma_product_concat(
                Self::split_term(terms[0]),
                Self::flatten_terms(terms.drop_first()),
                env,
            );
            Self::lemma_product_split(terms[0], env);
        }
    }

    proof fn lemma_eval_finish(terms: Seq<GTerm<G>>, env: Map<Seq<char>, GValue<G>>)
        ensures
            Self::eval(Self::finish_terms(terms), env) == Self::product(terms, env),
    {
        if terms.len() == 1 {
            assert(terms =~= seq![terms[0]]);
            Self::lemma_product_single(terms[0], env);
        }
    }

    /// `power(b, k)` means `b^k`.
    proof fn lemma_eval_power(b: GTerm<G>, k: int, env: Map<Seq<char>, GValue<G>>)
        ensures
            Self::eval(Self::power(b, k), env) == Self::pow_int(Self::eval(b, env), k),
    {
        Self::lemma_pow_int_one(Self::eval(b, env));
    }

    /// A term is its base to its exponent.
    proof fn lemma_eval_split_power(t: GTerm<G>, env: Map<Seq<char>, GValue<G>>)
        ensures
            Self::eval(t, env) == Self::pow_int(
                Self::eval(Self::split_power(t).0, env),
                Self::split_power(t).1,
            ),
    {
        match t {
            GroupTerm::Inv(b) => {
                Self::lemma_pow_int_one(Self::eval(*b, env));
            },
            GroupTerm::Pow(_, _) => {},
            _ => {
                Self::lemma_pow_int_one(Self::eval(t, env));
            },
        }
    }

    /// One step of the order-preserving fold keeps the product.
    proof fn lemma_product_fold_step(
        out: Seq<GTerm<G>>,
        e: GTerm<G>,
        env: Map<Seq<char>, GValue<G>>,
    )
        ensures
            Self::product(Self::fold_step(out, e), env) == G::spec_apply(
                Self::product(out, env),
                Self::eval(e, env),
            ),
    {
        let p = Self::product(out, env);
        if e == Self::identity_term() {
            G::lemma_identity(p);
        } else if out.len() == 0 {
            Self::lemma_product_push(out, e, env);
        } else {
            let lhs = out.last();
            let rest = out.drop_last();
            assert(out =~= rest.push(lhs));
            Self::lemma_product_push(rest, lhs, env);
            let r = Self::product(rest, env);
            let l = Self::eval(lhs, env);
            let x = Self::eval(e, env);
            G::lemma_associative(r, l, x);
            if lhs is Const && e is Const {
                let v = G::spec_apply(lhs->Const_0, e->Const_0);
                if v != G::spec_identity() {
                    Self::lemma_product_push(rest, GroupTerm::Const(v), env);
                } else {
                    G::lemma_identity(r);
                }
            } else if Self::inverse_pair(lhs, e) {
                G::lemma_inverse(x);
                G::lemma_inverse(l);
                if let GroupTerm::Inv(a) = lhs {
                    if *a == e {
                        assert(l == G::spec_inverse(x));
                    } else {
                        assert(x == G::spec_inverse(l));
                    }
                } else {
                    assert(x == G::spec_inverse(l));
                }
                G::lemma_identity(r);
            } else {
                let (lb, le) = Self::split_power(lhs);
                let (rb, re) = Self::split_power(e);
                Self::lemma_eval_split_power(lhs, env);
                Self::lemma_eval_split_power(e, env);
                if lb == rb && fits_isize(le + re) {
                    Self::lemma_pow_int_add(Self::eval(lb, env), le, re);
                    if le + re != 0 {
                        Self::lemma_eval_power(lb, le + re, env);
                        Self::lemma_product_concat(
                            rest,
                            Self::split_term(Self::power(lb, le + re)),
                            env,
                        );
                        Self::lemma_product_split(Self::power(lb, le + re), env);
                    } else {
                        Self::lemma_pow_int_one(Self::eval(lb, env));
                        G::lemma_identity(r);
                    }
                } else {
                    Self::lemma_eval_power(lb, le, env);
                    Self::lemma_eval_power(rb, re, env);
                    Self::lemma_product_push(rest, Self::power(lb, le), env);
                    Self::lemma_product_push(
                        rest.push(Self::power(lb, le)),
                        Self::power(rb, re),
                        env,
                    );
                }
            }
        }
    }

    /// The order-preserving fold keeps the product.
    proof fn lemma_product_fold_from(
        out: Seq<GTerm<G>>,
        terms: Seq<GTerm<G>>,
        env: Map<Seq<char>, GValue<G>>,
    )
        ensures
            Self::product(Self::fold_from(out, terms), env) == G::spec_apply(
                Self::product(out, env),
                Self::product(terms, env),
            ),
        decreases terms.len(),
    {
        if terms.len() == 0 {
            G::lemma_identity(Self::product(out, env));
        } else {
            let next = Self::fold_step(out, terms[0]);
            Self::lemma_product_fold_from(next, terms.drop_first(), env);
            Self::lemma_product_fold_step(out, terms[0], env);
            G::lemma_associative(
                Self::product(out, env),
                Self::eval(terms[0], env),
                Self::product(terms.drop_first(), env),
            );
        }
    }

    /// The order-preserving product of normal factors means their product.
    proof fn lemma_eval_combine_ordered(terms: Seq<GTerm<G>>, env: Map<Seq<char>, GValue<G>>)
        ensures
            Self::eval(Self::combine(Self::flatten_terms(terms), false), env) == Self::product(
                terms,
                env,
            ),
    {
        let flat = Self::flatten_terms(terms);
        Self::lemma_product_flatten(terms, env);
        Self::lemma_product_fold_from(Seq::empty(), flat, env);
        G::lemma_identity(Self::product(flat, env));
        Self::lemma_eval_finish(Self::fold_from(Seq::empty(), flat), env);
    }
}

/// Whether the operation of `G` commutes on all values.
pub open spec fn commutes<G: Group>() -> bool {
    forall|a: GValue<G>, b: GValue<G>| #[trigger] G::spec_apply(a, b) == G::spec_apply(b, a)
}

impl<G: Group> GroupExpr<G> {
    /// The product of `b^k` over the collected powers `(b, k)`, left to
    /// right.
    pub open spec fn power_product(powers: Seq<(GTerm<G>, int)>, env: Map<Seq<char>, GValue<G>>) -> GValue<G>
        decreases powers.len(),
    {
        if powers.len() == 0 {
            G::spec_identity()
        } else {
            G::spec_apply(
                Self::pow_int(Self::eval(powers[0].0, env), powers[0].1),
                Self::power_product(powers.drop_first(), env),
            )
        }
    }

    /// `(w * x) * (y * z) == (w * y) * (x * z)` where the operation
    /// commutes.
    proof fn lemma_rearrange(w: GValue<G>, x: GValue<G>, y: GValue<G>, z: GValue<G>)
        requires
            commutes::<G>(),
        ensures
            G::spec_apply(G::spec_apply(w, x), G::spec_apply(y, z)) == G::spec_apply(
                G::spec_apply(w, y),
                G::spec_apply(x, z),
            ),
    {
        G::lemma_associative(w, x, G::spec_apply(y, z));
        G::lemma_associative(x, y, z);
        assert(G::spec_apply(x, y) == G::spec_apply(y, x));
        G::lemma_associative(y, x, z);
        G::lemma_associative(w, y, G::spec_apply(x, z));
    }

    /// `(a * b)^k == a^k * b^k` where the operation commutes.
    proof fn lemma_pow_int_distributes(a: GValue<G>, b: GValue<G>, k: int)
        requires
            commutes::<G>(),
        ensures
            Self::pow_int(G::spec_apply(a, b), k) == G::spec_apply(
                Self::pow_int(a, k),
                Self::pow_int(b, k),
            ),
        decreases (if k >= 0 {
            k
        } else {
            -k
        }),
    {
        let ab = G::spec_apply(a, b);
        if k == 0 {
            Self::lemma_pow_int_one(ab);
            Self::lemma_pow_int_one(a);
            Self::lemma_pow_int_one(b);
            G::lemma_identity(G::spec_identity());
        } else if k > 0 {
            Self::lemma_pow_int_distributes(a, b, k - 1);
            Self::lemma_pow_int_up(ab, k - 1);
            Self::lemma_pow_int_up(a, k - 1);
            Self::lemma_pow_int_up(b, k - 1);
            Self::lemma_rearrange(Self::pow_int(a, k - 1), Self::pow_int(b, k - 1), a, b);
        } else {
            Self::lemma_pow_int_distributes(a, b, k + 1);
            Self::lemma_pow_int_down(ab, k + 1);
            Self::lemma_pow_int_down(a, k + 1);
            Self::lemma_pow_int_down(b, k + 1);
            lemma_inverse_of_product::<G>(a, b);
            assert(G::spec_apply(G::spec_inverse(b), G::spec_inverse(a)) == G::spec_apply(
                G::spec_inverse(a),
                G::spec_inverse(b),
            ));
            Self::lemma_rearrange(
                Self::pow_int(a, k + 1),
                Self::pow_int(b, k + 1),
                G::spec_inverse(a),
                G::spec_inverse(b),
            );
        }
    }

    proof fn lemma_power_product_push(
        powers: Seq<(GTerm<G>, int)>,
        p: (GTerm<G>, int),
        env: Map<Seq<char>, GValue<G>>,
    )
        ensures
            Self::power_product(powers.push(p), env) == G::spec_apply(
                Self::power_product(powers, env),
                Self::pow_int(Self::eval(p.0, env), p.1),
            ),
        decreases powers.len(),
    {
        let v = Self::pow_int(Self::eval(p.0, env), p.1);
        if powers.len() == 0 {
            assert(powers.push(p).drop_first() =~= Seq::<(GTerm<G>, int)>::empty());
            assert(powers.push(p)[0] == p);
            assert(Self::power_product(powers.push(p).drop_first(), env) == G::spec_identity());
            G::lemma_identity(v);
        } else {
            Self::lemma_power_product_push(powers.drop_first(), p, env);
            assert(powers.push(p).drop_first() =~= powers.drop_first().push(p));
            assert(powers.push(p)[0] == powers[0]);
            G::lemma_associative(
                Self::pow_int(Self::eval(powers[0].0, env), powers[0].1),
                Self::power_product(powers.drop_first(), env),
                v,
            );
        }
    }

    /// Raising the exponent of the `j`-th power by `x` multiplies the
    /// product by `b^x`, where the operation commutes.
    proof fn lemma_power_product_raise(
        powers: Seq<(GTerm<G>, int)>,
        j: int,
        x: int,
        env: Map<Seq<char>, GValue<G>>,
    )
        requires
            commutes::<G>(),
            0 <= j < powers.len(),
        ensures
            Self::power_product(powers.update(j, (powers[j].0, powers[j].1 + x)), env)
                == G::spec_apply(
                Self::power_product(powers, env),
                Self::pow_int(Self::eval(powers[j].0, env), x),
            ),
        decreases powers.len(),
    {
        let b = Self::eval(powers[j].0, env);
        let y = Self::pow_int(b, x);
        let raised = powers.update(j, (powers[j].0, powers[j].1 + x));
        let rest = Self::power_product(powers.drop_first(), env);
        if j == 0 {
            assert(raised.drop_first() =~= powers.drop_first());
            Self::lemma_pow_int_add(b, powers[0].1, x);
            let h = Self::pow_int(b, powers[0].1);
            G::lemma_associative(h, y, rest);
            assert(G::spec_apply(y, rest) == G::spec_apply(rest, y));
            G::lemma_associative(h, rest, y);
        } else {
            Self::lemma_power_product_raise(powers.drop_first(), j - 1, x, env);
            assert(raised.drop_first() =~= powers.drop_first().update(
                j - 1,
                (powers[j].0, powers[j].1 + x),
            ));
            assert(powers.drop_first()[j - 1] == powers[j]);
            G::lemma_associative(
                Self::pow_int(Self::eval(powers[0].0, env), powers[0].1),
                rest,
                y,
            );
        }
    }

    /// Where some power has base `b`, a first one has.
    proof fn lemma_first_base(powers: Seq<(GTerm<G>, int)>, b: GTerm<G>, j: int)
        requires
            0 <= j < powers.len(),
            powers[j].0 == b,
        ensures
            exists|k: int|
                0 <= k < powers.len() && powers[k].0 == b && forall|i: int|
                    0 <= i < k ==> powers[i].0 != b,
        decreases j,
    {
        if exists|i: int| 0 <= i < j && powers[i].0 == b {
            let i = choose|i: int| 0 <= i < j && powers[i].0 == b;
            Self::lemma_first_base(powers, b, i);
        } else {
            assert(forall|i: int| 0 <= i < j ==> powers[i].0 != b);
        }
    }

    /// Adding `b^x` to the collected powers multiplies their product by
    /// `b^x`, where the operation commutes.
    proof fn lemma_power_product_add(
        powers: Seq<(GTerm<G>, int)>,
        b: GTerm<G>,
        x: int,
        env: Map<Seq<char>, GValue<G>>,
    )
        requires
            commutes::<G>(),
        ensures
            Self::power_product(Self::add_power(powers, b, x), env) == G::spec_apply(
                Self::power_product(powers, env),
                Self::pow_int(Self::eval(b, env), x),
            ),
    {
        if exists|j: int| 0 <= j < powers.len() && powers[j].0 == b {
            let j0 = choose|j: int| 0 <= j < powers.len() && powers[j].0 == b;
            Self::lemma_first_base(powers, b, j0);
            let j = choose|j: int|
                0 <= j < powers.len() && powers[j].0 == b && forall|i: int|
                    0 <= i < j ==> powers[i].0 != b;
            if fits_isize(powers[j].1 + x) {
                Self::lemma_power_product_raise(powers, j, x, env);
                assert(powers.update(j, (powers[j].0, powers[j].1 + x)) == powers.update(
                    j,
                    (b, powers[j].1 + x),
                ));
            } else {
                Self::lemma_power_product_push(powers, (b, x), env);
            }
        } else {
            Self::lemma_power_product_push(powers, (b, x), env);
        }
    }

    /// Splitting constants from powers keeps the product, where the
    /// operation commutes.
    proof fn lemma_powers_from(
        acc: GValue<G>,
        powers: Seq<(GTerm<G>, int)>,
        terms: Seq<GTerm<G>>,
        env: Map<Seq<char>, GValue<G>>,
    )
        requires
            commutes::<G>(),
        ensures
            G::spec_apply(
                G::spec_apply(acc, Self::power_product(powers, env)),
                Self::product(terms, env),
            ) == G::spec_apply(
                Self::fold_consts(acc, terms),
                Self::power_product(Self::powers_from(powers, terms), env),
            ),
        decreases terms.len(),
    {
        let pp = Self::power_product(powers, env);
        if terms.len() == 0 {
            G::lemma_identity(G::spec_apply(acc, pp));
        } else {
            let t = terms[0];
            let r = Self::product(terms.drop_first(), env);
            match t {
                GroupTerm::Const(c) => {
                    Self::lemma_powers_from(G::spec_apply(acc, c), powers, terms.drop_first(), env);
                    assert(Self::eval(t, env) == c);
                    assert(Self::product(terms, env) == G::spec_apply(Self::eval(terms[0], env), r));
                    assert(Self::fold_consts(acc, terms) == Self::fold_consts(
                        G::spec_apply(acc, c),
                        terms.drop_first(),
                    ));
                    assert(Self::powers_from(powers, terms) == Self::powers_from(
                        powers,
                        terms.drop_first(),
                    ));
                    G::lemma_associative(acc, pp, G::spec_apply(c, r));
                    G::lemma_associative(pp, c, r);
                    assert(G::spec_apply(pp, c) == G::spec_apply(c, pp));
                    G::lemma_associative(c, pp, r);
                    G::lemma_associative(acc, c, G::spec_apply(pp, r));
                    G::lemma_associative(G::spec_apply(acc, c), pp, r);
                },
                _ => {
                    let (b, x) = Self::split_power(t);
                    Self::lemma_eval_split_power(t, env);
                    Self::lemma_power_product_add(powers, b, x, env);
                    Self::lemma_powers_from(
                        acc,
                        Self::add_power(powers, b, x),
                        terms.drop_first(),
                        env,
                    );
                    let e = Self::eval(t, env);
                    assert(Self::product(terms, env) == G::spec_apply(e, r));
                    assert(Self::fold_consts(acc, terms) == Self::fold_consts(acc, terms.drop_first()));
                    assert(Self::powers_from(powers, terms) == Self::powers_from(
                        Self::add_power(powers, b, x),
                        terms.drop_first(),
                    ));
                    G::lemma_associative(acc, pp, e);
                    G::lemma_associative(G::spec_apply(acc, pp), e, r);
                },
            }
        }
    }

    /// Dropping vanishing powers keeps the product.
    proof fn lemma_nonzero_powers(powers: Seq<(GTerm<G>, int)>, env: Map<Seq<char>, GValue<G>>)
        ensures
            Self::power_product(Self::nonzero_powers(powers), env) == Self::power_product(
                powers,
                env,
            ),
        decreases powers.len(),
    {
        if powers.len() > 0 {
            Self::lemma_nonzero_powers(powers.drop_first(), env);
            let rest = Self::nonzero_powers(powers.drop_first());
            if powers[0].1 != 0 {
                assert((seq![powers[0]] + rest).drop_first() =~= rest);
            } else {
                assert(Seq::<(GTerm<G>, int)>::empty() + rest =~= rest);
                Self::lemma_pow_int_one(Self::eval(powers[0].0, env));
                G::lemma_identity(Self::power_product(powers.drop_first(), env));
            }
        }
    }

    /// Inserting a power anywhere multiplies the product by it, where the
    /// operation commutes.
    proof fn lemma_insert_sorted_product(
        sorted: Seq<(GTerm<G>, int)>,
        p: (GTerm<G>, int),
        env: Map<Seq<char>, GValue<G>>,
    )
        requires
            commutes::<G>(),
        ensures
            Self::power_product(Self::insert_sorted(sorted, p), env) == G::spec_apply(
                Self::power_product(sorted, env),
                Self::pow_int(Self::eval(p.0, env), p.1),
            ),
        decreases sorted.len(),
    {
        let v = Self::pow_int(Self::eval(p.0, env), p.1);
        if sorted.len() == 0 {
            assert(seq![p].drop_first() =~= Seq::<(GTerm<G>, int)>::empty());
            assert(seq![p][0] == p);
            assert(Self::power_product(seq![p].drop_first(), env) == G::spec_identity());
            G::lemma_identity(v);
        } else if Self::compare_terms(sorted[0].0, p.0) == crate::symbol::Cmp::Greater {
            assert((seq![p] + sorted).drop_first() =~= sorted);
            assert((seq![p] + sorted)[0] == p);
            let ps = Self::power_product(sorted, env);
            assert(G::spec_apply(v, ps) == G::spec_apply(ps, v));
        } else {
            Self::lemma_insert_sorted_product(sorted.drop_first(), p, env);
            let rest = Self::insert_sorted(sorted.drop_first(), p);
            assert((seq![sorted[0]] + rest).drop_first() =~= rest);
            assert((seq![sorted[0]] + rest)[0] == sorted[0]);
            G::lemma_associative(
                Self::pow_int(Self::eval(sorted[0].0, env), sorted[0].1),
                Self::power_product(sorted.drop_first(), env),
                v,
            );
        }
    }

    /// Sorting the powers keeps their product, where the operation
    /// commutes.
    proof fn lemma_sort_powers_product(powers: Seq<(GTerm<G>, int)>, env: Map<Seq<char>, GValue<G>>)
        requires
            commutes::<G>(),
        ensures
            Self::power_product(Self::sort_powers(powers), env) == Self::power_product(powers, env),
        decreases powers.len(),
    {
        if powers.len() > 0 {
            Self::lemma_sort_powers_product(powers.drop_last(), env);
            Self::lemma_insert_sorted_product(
                Self::sort_powers(powers.drop_last()),
                powers.last(),
                env,
            );
            assert(powers =~= powers.drop_last().push(powers.last()));
            Self::lemma_power_product_push(powers.drop_last(), powers.last(), env);
        }
    }

    /// The powers as factors multiply to their product.
    proof fn lemma_power_factors(powers: Seq<(GTerm<G>, int)>, env: Map<Seq<char>, GValue<G>>)
        ensures
            Self::product(powers.map_values(|p: (GTerm<G>, int)| Self::power(p.0, p.1)), env)
                == Self::power_product(powers, env),
        decreases powers.len(),
    {
        let fs = powers.map_values(|p: (GTerm<G>, int)| Self::power(p.0, p.1));
        if powers.len() > 0 {
            Self::lemma_power_factors(powers.drop_first(), env);
            assert(fs.drop_first() =~= powers.drop_first().map_values(
                |p: (GTerm<G>, int)| Self::power(p.0, p.1),
            ));
            Self::lemma_eval_power(powers[0].0, powers[0].1, env);
        }
    }

    /// An abelian product of terms means their product, where the
    /// operation commutes.
    proof fn lemma_eval_collect(terms: Seq<GTerm<G>>, env: Map<Seq<char>, GValue<G>>)
        requires
            commutes::<G>(),
        ensures
            Self::eval(Self::collect_terms(terms), env) == Self::product(terms, env),
    {
        let id = G::spec_identity();
        let constant = Self::fold_consts(id, terms);
        let collected = Self::powers_from(Seq::empty(), terms);
        let powers = Self::sort_powers(Self::nonzero_powers(collected));
        let factors = powers.map_values(|p: (GTerm<G>, int)| Self::power(p.0, p.1));
        Self::lemma_powers_from(id, Seq::empty(), terms, env);
        G::lemma_identity(id);
        G::lemma_identity(Self::product(terms, env));
        Self::lemma_nonzero_powers(collected, env);
        Self::lemma_sort_powers_product(Self::nonzero_powers(collected), env);
        Self::lemma_power_factors(powers, env);
        let pf = Self::product(factors, env);
        if powers.len() == 0 || constant != id {
            let list = seq![GroupTerm::Const(constant)] + factors;
            Self::lemma_product_concat(seq![GroupTerm::Const(constant)], factors, env);
            Self::lemma_product_single(GroupTerm::Const(constant), env);
            Self::lemma_eval_finish(list, env);
        } else {
            G::lemma_identity(pf);
            Self::lemma_eval_finish(factors, env);
        }
    }

    /// A product of normal factors means their product, ordered or
    /// abelian (where the operation commutes).
    proof fn lemma_eval_combine(terms: Seq<GTerm<G>>, abelian: bool, env: Map<Seq<char>, GValue<G>>)
        requires
            abelian ==> commutes::<G>(),
        ensures
            Self::eval(Self::combine(Self::flatten_terms(terms), abelian), env) == Self::product(
                terms,
                env,
            ),
    {
        if abelian {
            Self::lemma_product_flatten(terms, env);
            Self::lemma_eval_collect(Self::flatten_terms(terms), env);
        } else {
            Self::lemma_eval_combine_ordered(terms, env);
        }
    }

    /// A list whose entries mean the `k`-th powers of the entries of `ys`
    /// has the `k`-th power of their product as its product, where the
    /// operation commutes.
    proof fn lemma_product_of_powers(
        xs: Seq<GTerm<G>>,
        ys: Seq<GTerm<G>>,
        k: int,
        env: Map<Seq<char>, GValue<G>>,
    )
        requires
            commutes::<G>(),
            xs.len() == ys.len(),
            forall|i: int|
                0 <= i < xs.len() ==> #[trigger] Self::eval(xs[i], env) == Self::pow_int(
                    Self::eval(ys[i], env),
                    k,
                ),
        ensures
            Self::product(xs, env) == Self::pow_int(Self::product(ys, env), k),
        decreases ys.len(),
    {
        if ys.len() == 0 {
            Self::lemma_pow_int_one(G::spec_identity());
            Self::lemma_pow_identity(k);
        } else {
            assert forall|i: int| 0 <= i < xs.drop_first().len() implies #[trigger] Self::eval(
                xs.drop_first()[i],
                env,
            ) == Self::pow_int(Self::eval(ys.drop_first()[i], env), k) by {
                assert(xs.drop_first()[i] == xs[i + 1]);
                assert(ys.drop_first()[i] == ys[i + 1]);
            }
            Self::lemma_product_of_powers(xs.drop_first(), ys.drop_first(), k, env);
            assert(Self::eval(xs[0], env) == Self::pow_int(Self::eval(ys[0], env), k));
            Self::lemma_pow_int_distributes(
                Self::eval(ys[0], env),
                Self::product(ys.drop_first(), env),
                k,
            );
        }
    }

    /// `1^k == 1`.
    proof fn lemma_pow_identity(k: int)
        ensures
            Self::pow_int(G::spec_identity(), k) == G::spec_identity(),
        decreases (if k >= 0 {
            k
        } else {
            -k
        }),
    {
        let id = G::spec_identity();
        G::lemma_identity(id);
        lemma_inverse_identity::<G>();
        if k > 0 {
            Self::lemma_pow_identity(k - 1);
            Self::lemma_pow_int_up(id, k - 1);
        } else if k < 0 {
            Self::lemma_pow_identity(k + 1);
            Self::lemma_pow_int_down(id, k + 1);
        }
    }
}

impl<G: Group> GroupExpr<G> {
    /// A list whose `i`-th entry means the inverse of the `i`-th entry from
    /// the end of `ys` has the inverse of the product of `ys` as its
    /// product.
    proof fn lemma_product_of_inverses(
        xs: Seq<GTerm<G>>,
        ys: Seq<GTerm<G>>,
        env: Map<Seq<char>, GValue<G>>,
    )
        requires
            xs.len() == ys.len(),
            forall|i: int|
                0 <= i < xs.len() ==> #[trigger] Self::eval(xs[i], env) == G::spec_inverse(
                    Self::eval(ys[ys.len() - 1 - i], env),
                ),
        ensures
            Self::product(xs, env) == G::spec_inverse(Self::product(ys, env)),
        decreases ys.len(),
    {
        if ys.len() == 0 {
            lemma_inverse_identity::<G>();
        } else {
            let rest = ys.drop_first();
            let front = xs.drop_last();
            assert forall|i: int| 0 <= i < front.len() implies #[trigger] Self::eval(front[i], env)
                == G::spec_inverse(Self::eval(rest[rest.len() - 1 - i], env)) by {
                assert(front[i] == xs[i]);
                assert(rest[rest.len() - 1 - i] == ys[ys.len() - 1 - i]);
            }
            Self::lemma_product_of_inverses(front, rest, env);
            assert(xs =~= front.push(xs.last()));
            Self::lemma_product_push(front, xs.last(), env);
            assert(Self::eval(xs[xs.len() - 1], env) == G::spec_inverse(Self::eval(ys[0], env)));
            lemma_inverse_of_product::<G>(Self::eval(ys[0], env), Self::product(rest, env));
        }
    }

    /// The inverse of a normal term means the inverse of its value (where
    /// the operation commutes, if abelian).
    proof fn lemma_inv_normal_value(y: GTerm<G>, abelian: bool, env: Map<Seq<char>, GValue<G>>)
        requires
            abelian ==> commutes::<G>(),
        ensures
            Self::eval(Self::inv_normal(y, abelian), env) == G::spec_inverse(Self::eval(y, env)),
        decreases 2 * Self::size(y) + 1, 1int,
    {
        match y {
            GroupTerm::Inv(z) => {
                lemma_inverse_involutive::<G>(Self::eval(*z, env));
            },
            GroupTerm::Pow(b, k) => {
                if fits_isize(-k) {
                    Self::lemma_pow_normal_value(*b, -k, abelian, env);
                    Self::lemma_pow_int_negate(Self::eval(*b, env), k);
                }
            },
            GroupTerm::Op(ys) => {
                Self::lemma_sizes_reverse(ys);
                let zs = ys.reverse();
                Self::lemma_inv_normals_value(zs, abelian, env);
                let xs = Self::inv_normals(zs, abelian);
                Self::lemma_eval_combine(xs, abelian, env);
                assert forall|i: int| 0 <= i < xs.len() implies #[trigger] Self::eval(xs[i], env)
                    == G::spec_inverse(Self::eval(ys[ys.len() - 1 - i], env)) by {
                    assert(zs[i] == ys[ys.len() - 1 - i]);
                }
                Self::lemma_product_of_inverses(xs, ys, env);
            },
            _ => {},
        }
    }

    /// Each inverse of a list of normal terms means the inverse of its
    /// entry.
    proof fn lemma_inv_normals_value(zs: Seq<GTerm<G>>, abelian: bool, env: Map<Seq<char>, GValue<G>>)
        requires
            abelian ==> commutes::<G>(),
        ensures
            Self::inv_normals(zs, abelian).len() == zs.len(),
            forall|i: int|
                0 <= i < zs.len() ==> #[trigger] Self::eval(Self::inv_normals(zs, abelian)[i], env)
                    == G::spec_inverse(Self::eval(zs[i], env)),
        decreases 2 * Self::sizes(zs) + 1, 2int,
    {
        if zs.len() > 0 {
            Self::lemma_size_positive(zs[0]);
            Self::lemma_inv_normal_value(zs[0], abelian, env);
            Self::lemma_inv_normals_value(zs.drop_first(), abelian, env);
            let xs = Self::inv_normals(zs, abelian);
            assert forall|i: int| 0 <= i < zs.len() implies #[trigger] Self::eval(xs[i], env)
                == G::spec_inverse(Self::eval(zs[i], env)) by {
                if i > 0 {
                    assert(xs[i] == Self::inv_normals(zs.drop_first(), abelian)[i - 1]);
                    assert(zs.drop_first()[i - 1] == zs[i]);
                }
            }
        }
    }

    /// A power of a normal term means that power of its value (where the
    /// operation commutes, if abelian).
    proof fn lemma_pow_normal_value(
        y: GTerm<G>,
        k: int,
        abelian: bool,
        env: Map<Seq<char>, GValue<G>>,
    )
        requires
            abelian ==> commutes::<G>(),
        ensures
            Self::eval(Self::pow_normal(y, k, abelian), env) == Self::pow_int(
                Self::eval(y, env),
                k,
            ),
        decreases 2 * Self::size(y) + 2, 1int,
    {
        Self::lemma_pow_int_one(Self::eval(y, env));
        match y {
            GroupTerm::Const(_) => {},
            _ => {
                if k == 1 {
                } else if k == -1 {
                    Self::lemma_inv_normal_value(y, abelian, env);
                } else {
                    match y {
                        GroupTerm::Pow(b, j) => {
                            if fits_isize(j * k) {
                                Self::lemma_pow_normal_value(*b, j * k, abelian, env);
                                Self::lemma_pow_int_mul(Self::eval(*b, env), j, k);
                            }
                        },
                        GroupTerm::Inv(b) => {
                            if fits_isize(-k) {
                                Self::lemma_pow_normal_value(*b, -k, abelian, env);
                                Self::lemma_pow_int_of_inverse(Self::eval(*b, env), k);
                            }
                        },
                        GroupTerm::Op(ys) => {
                            if abelian {
                                Self::lemma_pow_normals_value(ys, k, abelian, env);
                                let xs = Self::pow_normals(ys, k, abelian);
                                Self::lemma_eval_combine(xs, true, env);
                                Self::lemma_product_of_powers(xs, ys, k, env);
                            }
                        },
                        _ => {},
                    }
                }
            },
        }
    }

    /// Each power of a list of normal terms means that power of its entry.
    proof fn lemma_pow_normals_value(
        ys: Seq<GTerm<G>>,
        k: int,
        abelian: bool,
        env: Map<Seq<char>, GValue<G>>,
    )
        requires
            abelian ==> commutes::<G>(),
        ensures
            Self::pow_normals(ys, k, abelian).len() == ys.len(),
            forall|i: int|
                0 <= i < ys.len() ==> #[trigger] Self::eval(Self::pow_normals(ys, k, abelian)[i], env)
                    == Self::pow_int(Self::eval(ys[i], env), k),
        decreases 2 * Self::sizes(ys) + 2, 2int,
    {
        if ys.len() > 0 {
            Self::lemma_size_positive(ys[0]);
            Self::lemma_pow_normal_value(ys[0], k, abelian, env);
            Self::lemma_pow_normals_value(ys.drop_first(), k, abelian, env);
            let xs = Self::pow_normals(ys, k, abelian);
            assert forall|i: int| 0 <= i < ys.len() implies #[trigger] Self::eval(xs[i], env)
                == Self::pow_int(Self::eval(ys[i], env), k) by {
                if i > 0 {
                    assert(xs[i] == Self::pow_normals(ys.drop_first(), k, abelian)[i - 1]);
                    assert(ys.drop_first()[i - 1] == ys[i]);
                }
            }
        }
    }

    /// Normalizing keeps the value of every term (where the operation
    /// commutes, if abelian).
    proof fn lemma_normal_form_value(t: GTerm<G>, abelian: bool, env: Map<Seq<char>, GValue<G>>)
        requires
            abelian ==> commutes::<G>(),
        ensures
            Self::eval(Self::normal_form(t, abelian), env) == Self::eval(t, env),
        decreases t,
    {
        match t {
            GroupTerm::Inv(x) => {
                Self::lemma_normal_form_value(*x, abelian, env);
                Self::lemma_inv_normal_value(Self::normal_form(*x, abelian), abelian, env);
            },
            GroupTerm::Op(ts) => {
                Self::lemma_normal_forms_value(ts, abelian, env);
                Self::lemma_eval_combine(Self::normal_forms(ts, abelian), abelian, env);
            },
            GroupTerm::Pow(b, k) => {
                Self::lemma_pow_int_one(Self::eval(*b, env));
                if k != 0 {
                    Self::lemma_normal_form_value(*b, abelian, env);
                    Self::lemma_pow_normal_value(Self::normal_form(*b, abelian), k, abelian, env);
                }
            },
            _ => {},
        }
    }

    /// Normalizing each term of a list keeps the product.
    proof fn lemma_normal_forms_value(ts: Seq<GTerm<G>>, abelian: bool, env: Map<Seq<char>, GValue<G>>)
        requires
            abelian ==> commutes::<G>(),
        ensures
            Self::product(Self::normal_forms(ts, abelian), env) == Self::product(ts, env),
        decreases ts,
    {
        if ts.len() > 0 {
            Self::lemma_normal_form_value(ts[0], abelian, env);
            Self::lemma_normal_forms_value(ts.drop_first(), abelian, env);
            let nfs = Self::normal_forms(ts, abelian);
            assert(nfs[0] == Self::normal_form(ts[0], abelian));
            assert(nfs.drop_first() =~= Self::normal_forms(ts.drop_first(), abelian));
        }
    }

    /// Normalizing under the group laws, order preserved, keeps the value
    /// of every expression, whatever the values of its symbols.
    pub proof fn lemma_normal_form_preserves_value(t: GTerm<G>, env: Map<Seq<char>, GValue<G>>)
        ensures
            Self::eval(Self::normal_form(t, false), env) == Self::eval(t, env),
    {
        Self::lemma_normal_form_value(t, false, env);
    }
}

/// Normalizing under the laws of an abelian group keeps the value of every
/// expression, whatever the values of its symbols.
pub proof fn lemma_abelian_normal_form_preserves_value<G: Group + Commutative>(
    t: GTerm<G>,
    env: Map<Seq<char>, GValue<G>>,
)
    ensures
        GroupExpr::<G>::eval(GroupExpr::<G>::normal_form(t, true), env) == GroupExpr::<G>::eval(
            t,
            env,
        ),
{
    assert forall|a: GValue<G>, b: GValue<G>| #[trigger] G::spec_apply(a, b) == G::spec_apply(
        b,
        a,
    ) by {
        <G as Commutative>::lemma_commutative(a, b);
    }
    GroupExpr::<G>::lemma_normal_form_value(t, true, env);
}

} // verus!
