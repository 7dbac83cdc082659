//! Monoids, and expression trees over them with their normal forms.
use std::marker::PhantomData;
use vstd::prelude::*;
use vstd::std_specs::cmp::PartialEqSpecImpl;

use crate::op::{AlgebraicSet, Associative, BinaryOperator, Identity};
use crate::symbol::{names, note_name, Symbol};

verus! {

/// A monoid: an associative operation with an identity element. Every such
/// operation is one.
pub trait Monoid: Associative + Identity {

}

impl<Op: Associative + Identity> Monoid for Op {

}

/// An expression tree over a monoid: constants, named symbols, and n-ary
/// applications of the monoid's operation.
#[derive(Debug)]
pub enum MonoidExpr<M: Monoid> {
    Const(M::Domain),
    Symbol(Symbol),
    Op(Vec<MonoidExpr<M>>),
}

/// The mathematical content of a [`MonoidExpr`]: constants by value,
/// symbols by name.
pub enum MonoidTerm<V> {
    Const(V),
    Symbol(Seq<char>),
    Op(Seq<MonoidTerm<V>>),
}

/// The term type of expressions over `M`.
pub type TermOf<M> = MonoidTerm<<<M as BinaryOperator>::Domain as View>::V>;

impl<M: Monoid> View for MonoidExpr<M> {
    type V = TermOf<M>;

    open spec fn view(&self) -> Self::V {
        Self::term(*self)
    }
}

impl<M: Monoid> MonoidExpr<M> {
    pub open spec fn term(e: Self) -> TermOf<M>
        decreases e,
    {
        match e {
            MonoidExpr::Const(c) => MonoidTerm::Const(c@),
            MonoidExpr::Symbol(s) => MonoidTerm::Symbol(s@),
            MonoidExpr::Op(v) => MonoidTerm::Op(Self::terms(v@)),
        }
    }

    pub open spec fn terms(s: Seq<Self>) -> Seq<TermOf<M>>
        decreases s,
    {
        if s.len() == 0 {
            Seq::empty()
        } else {
            seq![Self::term(s[0])] + Self::terms(s.drop_first())
        }
    }

    pub proof fn lemma_terms(s: Seq<Self>)
        ensures
            Self::terms(s).len() == s.len(),
            forall|i: int| 0 <= i < s.len() ==> #[trigger] Self::terms(s)[i] == Self::term(s[i]),
        decreases s.len(),
    {
        if s.len() > 0 {
            Self::lemma_terms(s.drop_first());
            assert forall|i: int| 0 <= i < s.len() implies #[trigger] Self::terms(s)[i] == Self::term(s[i]) by {
                if i > 0 {
                    assert(s.drop_first()[i - 1] == s[i]);
                }
            }
        }
    }

    pub proof fn lemma_terms_push(s: Seq<Self>, x: Self)
        ensures
            Self::terms(s.push(x)) == Self::terms(s).push(Self::term(x)),
    {
        Self::lemma_terms(s);
        Self::lemma_terms(s.push(x));
        assert(Self::terms(s.push(x)) =~= Self::terms(s).push(Self::term(x)));
    }

    pub proof fn lemma_terms_concat(a: Seq<Self>, b: Seq<Self>)
        ensures
            Self::terms(a + b) == Self::terms(a) + Self::terms(b),
    {
        Self::lemma_terms(a);
        Self::lemma_terms(b);
        Self::lemma_terms(a + b);
        assert(Self::terms(a + b) =~= Self::terms(a) + Self::terms(b));
    }

    // ============================================================================
    // Normal forms
    // ============================================================================

    /// The identity as a constant term.
    pub open spec fn identity_term() -> TermOf<M> {
        MonoidTerm::Const(M::spec_identity())
    }

    /// A product of `terms`: the identity when empty, the term itself when
    /// single, else an application.
    pub open spec fn finish_terms(terms: Seq<TermOf<M>>) -> TermOf<M> {
        if terms.len() == 0 {
            Self::identity_term()
        } else if terms.len() == 1 {
            terms[0]
        } else {
            MonoidTerm::Op(terms)
        }
    }

    /// The factors a term contributes to an enclosing application.
    pub open spec fn split_term(t: TermOf<M>) -> Seq<TermOf<M>> {
        match t {
            MonoidTerm::Op(inner) => inner,
            _ => seq![t],
        }
    }

    /// Splices one level of nested applications.
    pub open spec fn flatten_terms(terms: Seq<TermOf<M>>) -> Seq<TermOf<M>>
        decreases terms.len(),
    {
        if terms.len() == 0 {
            Seq::empty()
        } else {
            Self::split_term(terms[0]) + Self::flatten_terms(terms.drop_first())
        }
    }

    /// Appends one factor to an order-preserving product: identities vanish
    /// and a constant folds into a constant just before it, vanishing too
    /// where the two make the identity.
    pub open spec fn fold_step(out: Seq<TermOf<M>>, item: TermOf<M>) -> Seq<TermOf<M>> {
        if item == Self::identity_term() {
            out
        } else if item is Const && out.len() > 0 && out.last() is Const {
            let v = M::spec_apply(out.last()->Const_0, item->Const_0);
            if v == M::spec_identity() {
                out.drop_last()
            } else {
                out.drop_last().push(MonoidTerm::Const(v))
            }
        } else {
            out.push(item)
        }
    }

    /// Appends `terms` one by one to `out` with [`Self::fold_step`].
    pub open spec fn fold_from(out: Seq<TermOf<M>>, terms: Seq<TermOf<M>>) -> Seq<TermOf<M>>
        decreases terms.len(),
    {
        if terms.len() == 0 {
            out
        } else {
            Self::fold_from(Self::fold_step(out, terms[0]), terms.drop_first())
        }
    }

    /// The normal form under the monoid laws, order preserved: children are
    /// normalized, nested applications spliced, identities dropped and
    /// adjacent constants folded.
    pub open spec fn normal_form(t: TermOf<M>) -> TermOf<M>
        decreases t,
    {
        match t {
            MonoidTerm::Op(terms) => Self::finish_terms(
                Self::fold_from(Seq::empty(), Self::flatten_terms(Self::normal_forms(terms))),
            ),
            _ => t,
        }
    }

    pub open spec fn normal_forms(terms: Seq<TermOf<M>>) -> Seq<TermOf<M>>
        decreases terms,
    {
        if terms.len() == 0 {
            Seq::empty()
        } else {
            seq![Self::normal_form(terms[0])] + Self::normal_forms(terms.drop_first())
        }
    }

    // ============================================================================
    // Values
    // ============================================================================

    /// The value of a term when each symbol takes its value from `env`.
    pub open spec fn eval(t: TermOf<M>, env: Map<Seq<char>, <M::Domain as View>::V>) -> <
        M::Domain as View
    >::V
        decreases t,
    {
        match t {
            MonoidTerm::Const(c) => c,
            MonoidTerm::Symbol(s) => env[s],
            MonoidTerm::Op(terms) => Self::product(terms, env),
        }
    }

    /// The product of the values of `terms`, left to right.
    pub open spec fn product(
        terms: Seq<TermOf<M>>,
        env: Map<Seq<char>, <M::Domain as View>::V>,
    ) -> <M::Domain as View>::V
        decreases terms,
    {
        if terms.len() == 0 {
            M::spec_identity()
        } else {
            M::spec_apply(Self::eval(terms[0], env), Self::product(terms.drop_first(), env))
        }
    }

    // ============================================================================
    // Laws
    // ============================================================================

    pub proof fn lemma_product_single(t: TermOf<M>, env: Map<Seq<char>, <M::Domain as View>::V>)
        ensures
            Self::product(seq![t], env) == Self::eval(t, env),
    {
        assert(seq![t].drop_first() =~= Seq::<TermOf<M>>::empty());
        assert(Self::product(seq![t].drop_first(), env) == M::spec_identity());
        M::lemma_identity(Self::eval(t, env));
    }

    /// The product of a concatenation is the product of the products.
    pub proof fn lemma_product_concat(
        a: Seq<TermOf<M>>,
        b: Seq<TermOf<M>>,
        env: Map<Seq<char>, <M::Domain as View>::V>,
    )
        ensures
            Self::product(a + b, env) == M::spec_apply(
                Self::product(a, env),
                Self::product(b, env),
            ),
        decreases a.len(),
    {
        if a.len() == 0 {
            assert(a + b =~= b);
            M::lemma_identity(Self::product(b, env));
        } else {
            Self::lemma_product_concat(a.drop_first(), b, env);
            assert((a + b).drop_first() =~= a.drop_first() + b);
            M::lemma_associative(
                Self::eval(a[0], env),
                Self::product(a.drop_first(), env),
                Self::product(b, env),
            );
        }
    }

    pub proof fn lemma_product_push(
        a: Seq<TermOf<M>>,
        t: TermOf<M>,
        env: Map<Seq<char>, <M::Domain as View>::V>,
    )
        ensures
            Self::product(a.push(t), env) == M::spec_apply(
                Self::product(a, env),
                Self::eval(t, env),
            ),
    {
        assert(a.push(t) =~= a + seq![t]);
        Self::lemma_product_concat(a, seq![t], env);
        Self::lemma_product_single(t, env);
    }

    pub proof fn lemma_product_split(t: TermOf<M>, env: Map<Seq<char>, <M::Domain as View>::V>)
        ensures
            Self::product(Self::split_term(t), env) == Self::eval(t, env),
    {
        match t {
            MonoidTerm::Op(_) => {},
            _ => Self::lemma_product_single(t, env),
        }
    }

    /// Splicing nested applications keeps the product.
    pub proof fn lemma_product_flatten(
        terms: Seq<TermOf<M>>,
        env: Map<Seq<char>, <M::Domain as View>::V>,
    )
        ensures
            Self::product(Self::flatten_terms(terms), env) == Self::product(terms, env),
        decreases terms.len(),
    {
        if terms.len() > 0 {
            Self::lemma_product_flatten(terms.drop_first(), env);
            Self::lemma_product_concat(
                Self::split_term(terms[0]),
                Self::flatten_terms(terms.drop_first()),
                env,
            );
            Self::lemma_product_split(terms[0], env);
        }
    }

    pub proof fn lemma_product_fold_step(
        out: Seq<TermOf<M>>,
        item: TermOf<M>,
        env: Map<Seq<char>, <M::Domain as View>::V>,
    )
        ensures
            Self::product(Self::fold_step(out, item), env) == M::spec_apply(
                Self::product(out, env),
                Self::eval(item, env),
            ),
    {
        if item == Self::identity_term() {
            M::lemma_identity(Self::product(out, env));
        } else if item is Const && out.len() > 0 && out.last() is Const {
            let init = out.drop_last();
            assert(out =~= init.push(out.last()));
            Self::lemma_product_push(init, out.last(), env);
            let folded = MonoidTerm::Const(M::spec_apply(out.last()->Const_0, item->Const_0));
            Self::lemma_product_push(init, folded, env);
            M::lemma_identity(Self::product(init, env));
            M::lemma_associative(
                Self::product(init, env),
                out.last()->Const_0,
                item->Const_0,
            );
        } else {
            Self::lemma_product_push(out, item, env);
        }
    }

    /// Folding adjacent constants and dropping identities keeps the product.
    pub proof fn lemma_product_fold_from(
        out: Seq<TermOf<M>>,
        terms: Seq<TermOf<M>>,
        env: Map<Seq<char>, <M::Domain as View>::V>,
    )
        ensures
            Self::product(Self::fold_from(out, terms), env) == M::spec_apply(
                Self::product(out, env),
                Self::product(terms, env),
            ),
        decreases terms.len(),
    {
        if terms.len() == 0 {
            M::lemma_identity(Self::product(out, env));
        } else {
            let next = Self::fold_step(out, terms[0]);
            Self::lemma_product_fold_from(next, terms.drop_first(), env);
            Self::lemma_product_fold_step(out, terms[0], env);
            M::lemma_associative(
                Self::product(out, env),
                Self::eval(terms[0], env),
                Self::product(terms.drop_first(), env),
            );
        }
    }

    pub proof fn lemma_eval_finish(terms: Seq<TermOf<M>>, env: Map<Seq<char>, <M::Domain as View>::V>)
        ensures
            Self::eval(Self::finish_terms(terms), env) == Self::product(terms, env),
    {
        if terms.len() == 1 {
            assert(terms =~= seq![terms[0]]);
            Self::lemma_product_single(terms[0], env);
        }
    }

    /// Normalizing keeps the value of every term, whatever the values of its
    /// symbols.
    pub proof fn lemma_normal_form_preserves_value(
        t: TermOf<M>,
        env: Map<Seq<char>, <M::Domain as View>::V>,
    )
        ensures
            Self::eval(Self::normal_form(t), env) == Self::eval(t, env),
        decreases t,
    {
        if let MonoidTerm::Op(terms) = t {
            Self::lemma_normal_forms_preserve_product(terms, env);
            let flat = Self::flatten_terms(Self::normal_forms(terms));
            Self::lemma_product_flatten(Self::normal_forms(terms), env);
            Self::lemma_product_fold_from(Seq::empty(), flat, env);
            M::lemma_identity(Self::product(flat, env));
            Self::lemma_eval_finish(Self::fold_from(Seq::empty(), flat), env);
        }
    }

    pub proof fn lemma_normal_forms_preserve_product(
        terms: Seq<TermOf<M>>,
        env: Map<Seq<char>, <M::Domain as View>::V>,
    )
        ensures
            Self::product(Self::normal_forms(terms), env) == Self::product(terms, env),
        decreases terms,
    {
        if terms.len() > 0 {
            Self::lemma_normal_form_preserves_value(terms[0], env);
            Self::lemma_normal_forms_preserve_product(terms.drop_first(), env);
            let nfs = Self::normal_forms(terms);
            assert(nfs[0] == Self::normal_form(terms[0]));
            assert(nfs.drop_first() =~= Self::normal_forms(terms.drop_first()));
        }
    }
}

impl<M: Monoid> MonoidExpr<M> {
    /// Wraps a domain element as a constant expression.
    pub fn constant(value: M::Domain) -> (r: Self)
        ensures
            r@ == MonoidTerm::Const(value@),
    {
        MonoidExpr::Const(value)
    }

    /// The product `self * rhs`, splicing applications on either side.
    pub fn apply(self, rhs: Self) -> (r: Self)
        ensures
            r@ == MonoidTerm::<<M::Domain as View>::V>::Op(
                Self::split_term(self@) + Self::split_term(rhs@),
            ),
    {
        let mut out: Vec<Self> = Vec::new();
        let ghost l = self;
        let ghost r = rhs;
        match self {
            MonoidExpr::Op(mut lhs) => out.append(&mut lhs),
            other => out.push(other),
        }
        proof {
            Self::lemma_terms(out@);
            assert(Self::terms(out@) =~= Self::split_term(l@));
        }
        let ghost mid = out@;
        match rhs {
            MonoidExpr::Op(mut more) => {
                proof {
                    Self::lemma_terms_concat(mid, more@);
                    assert(Self::split_term(r@) == Self::terms(more@));
                }
                out.append(&mut more);
            },
            other => {
                proof {
                    Self::lemma_terms_push(mid, other);
                    assert(Self::split_term(r@) == seq![Self::term(other)]);
                    assert(Self::terms(mid).push(Self::term(other)) =~= Self::terms(mid) + seq![Self::term(other)]);
                }
                out.push(other);
            },
        }
        MonoidExpr::Op(out)
    }

    /// A copy of the expression.
    pub fn duplicate(&self) -> (r: Self)
        ensures
            r@ == self@,
        decreases self,
    {
        match self {
            MonoidExpr::Const(c) => MonoidExpr::Const(c.duplicate()),
            MonoidExpr::Symbol(s) => MonoidExpr::Symbol(s.clone()),
            MonoidExpr::Op(v) => {
                let mut out: Vec<Self> = Vec::new();
                let mut i: usize = 0;
                while i < v.len()
                    invariant
                        *self == MonoidExpr::<M>::Op(*v),
                        i <= v.len(),
                        Self::terms(out@) == Self::terms(v@.take(i as int)),
                    decreases v.len() - i,
                {
                    proof {
                        assert(decreases_to!(*self => self->Op_0));
                        assert(decreases_to!(v => v@));
                        assert(decreases_to!(v@ => v@[i as int]));
                    }
                    let c = v[i].duplicate();
                    proof {
                        Self::lemma_terms_push(out@, c);
                        Self::lemma_terms_push(v@.take(i as int), v@[i as int]);
                        assert(v@.take(i + 1) =~= v@.take(i as int).push(v@[i as int]));
                    }
                    out.push(c);
                    i = i + 1;
                }
                proof {
                    assert(v@.take(v.len() as int) =~= v@);
                }
                MonoidExpr::Op(out)
            },
        }
    }

    /// Structural equality of the mathematical content: constants by value,
    /// symbols by name, applications factor by factor.
    pub fn equals(&self, other: &Self) -> (r: bool)
        ensures
            r == (self@ == other@),
        decreases self,
    {
        match (self, other) {
            (MonoidExpr::Const(a), MonoidExpr::Const(b)) => a.equals(b),
            (MonoidExpr::Symbol(a), MonoidExpr::Symbol(b)) => a.same(b),
            (MonoidExpr::Op(a), MonoidExpr::Op(b)) => {
                proof {
                    Self::lemma_terms(a@);
                    Self::lemma_terms(b@);
                }
                if a.len() != b.len() {
                    return false;
                }
                let mut i: usize = 0;
                while i < a.len()
                    invariant
                        *self == MonoidExpr::<M>::Op(*a),
                        *other == MonoidExpr::<M>::Op(*b),
                        i <= a.len(),
                        a.len() == b.len(),
                        Self::terms(a@).len() == a.len(),
                        Self::terms(b@).len() == b.len(),
                        forall|j: int| 0 <= j < a.len() ==> #[trigger] Self::terms(a@)[j] == Self::term(a@[j]),
                        forall|j: int| 0 <= j < b.len() ==> #[trigger] Self::terms(b@)[j] == Self::term(b@[j]),
                        forall|j: int| 0 <= j < i ==> Self::term(#[trigger] a@[j]) == Self::term(b@[j]),
                    decreases a.len() - i,
                {
                    proof {
                        assert(decreases_to!(*self => self->Op_0));
                        assert(decreases_to!(a => a@));
                        assert(decreases_to!(a@ => a@[i as int]));
                    }
                    if !a[i].equals(&b[i]) {
                        proof {
                            assert(Self::terms(a@)[i as int] == Self::term(a@[i as int]));
                            assert(Self::terms(b@)[i as int] == Self::term(b@[i as int]));
                            assert(Self::terms(a@)[i as int] != Self::terms(b@)[i as int]);
                            assert(self@ == MonoidTerm::<<M::Domain as View>::V>::Op(Self::terms(a@)));
                            assert(other@ == MonoidTerm::<<M::Domain as View>::V>::Op(Self::terms(b@)));
                            assert(Self::terms(a@) != Self::terms(b@));
                        }
                        return false;
                    }
                    i = i + 1;
                }
                proof {
                    assert(Self::terms(a@) =~= Self::terms(b@));
                }
                true
            },
            _ => false,
        }
    }

    // ============================================================================
    // Normalization
    // ============================================================================

    fn is_identity(e: &Self) -> (r: bool)
        ensures
            r == (e@ == Self::identity_term()),
    {
        match e {
            MonoidExpr::Const(c) => {
                let id = M::identity();
                c.equals(&id)
            },
            _ => false,
        }
    }

    fn finish(exprs: Vec<Self>) -> (r: Self)
        ensures
            r@ == Self::finish_terms(Self::terms(exprs@)),
    {
        proof {
            Self::lemma_terms(exprs@);
        }
        let mut exprs = exprs;
        if exprs.len() == 0 {
            MonoidExpr::Const(M::identity())
        } else if exprs.len() == 1 {
            exprs.pop().unwrap()
        } else {
            MonoidExpr::Op(exprs)
        }
    }

    fn flatten(exprs: Vec<Self>) -> (r: Vec<Self>)
        ensures
            Self::terms(r@) == Self::flatten_terms(Self::terms(exprs@)),
    {
        let ghost all = exprs@;
        let mut rest = exprs;
        let mut out: Vec<Self> = Vec::new();
        proof {
            assert(Self::terms(out@) + Self::flatten_terms(Self::terms(rest@)) =~= Self::flatten_terms(Self::terms(all)));
        }
        while rest.len() > 0
            invariant
                Self::terms(out@) + Self::flatten_terms(Self::terms(rest@)) == Self::flatten_terms(
                    Self::terms(all),
                ),
            decreases rest.len(),
        {
            let ghost before = rest@;
            let ghost out_before = out@;
            let item = rest.remove(0);
            proof {
                assert(rest@ =~= before.drop_first());
                assert(Self::terms(before) == seq![Self::term(item)] + Self::terms(rest@));
                let tb = Self::terms(before);
                assert(tb[0] == Self::term(item));
                assert(tb.drop_first() =~= Self::terms(rest@));
                assert(Self::flatten_terms(tb) == Self::split_term(Self::term(item))
                    + Self::flatten_terms(Self::terms(rest@)));
            }
            match item {
                MonoidExpr::Op(mut inner) => {
                    proof {
                        Self::lemma_terms_concat(out_before, inner@);
                        assert(Self::split_term(Self::term(MonoidExpr::Op(inner))) == Self::terms(inner@));
                    }
                    out.append(&mut inner);
                },
                other => {
                    proof {
                        Self::lemma_terms_push(out_before, other);
                        assert(Self::split_term(Self::term(other)) == seq![Self::term(other)]);
                        assert(Self::terms(out_before).push(Self::term(other)) =~= Self::terms(out_before) + seq![Self::term(other)]);
                    }
                    out.push(other);
                },
            }
            proof {
                assert(Self::terms(out@) + Self::flatten_terms(Self::terms(rest@)) =~= Self::terms(
                    out_before,
                ) + Self::flatten_terms(Self::terms(before)));
            }
        }
        proof {
            assert(Self::terms(out@) + Self::flatten_terms(Self::terms(rest@)) =~= Self::terms(out@));
        }
        out
    }

    /// Order-preserving product of factors: drops identities and folds
    /// adjacent constants.
    fn fold_adjacent(exprs: Vec<Self>) -> (r: Self)
        ensures
            r@ == Self::finish_terms(Self::fold_from(Seq::empty(), Self::terms(exprs@))),
    {
        let ghost all = exprs@;
        let mut rest = exprs;
        let mut out: Vec<Self> = Vec::new();
        while rest.len() > 0
            invariant
                Self::fold_from(Self::terms(out@), Self::terms(rest@)) == Self::fold_from(
                    Seq::empty(),
                    Self::terms(all),
                ),
            decreases rest.len(),
        {
            let ghost before = rest@;
            let ghost out_before = out@;
            let item = rest.remove(0);
            proof {
                assert(rest@ =~= before.drop_first());
                Self::lemma_terms(out_before);
                let tb = Self::terms(before);
                assert(tb == seq![Self::term(item)] + Self::terms(rest@));
                assert(tb[0] == Self::term(item));
                assert(tb.drop_first() =~= Self::terms(rest@));
                assert(Self::fold_from(Self::terms(out_before), tb) == Self::fold_from(
                    Self::fold_step(Self::terms(out_before), Self::term(item)),
                    Self::terms(rest@),
                ));
            }
            if Self::is_identity(&item) {
            } else {
                let item_const = match &item {
                    MonoidExpr::Const(_) => true,
                    _ => false,
                };
                let last_const = out.len() > 0 && match &out[out.len() - 1] {
                    MonoidExpr::Const(_) => true,
                    _ => false,
                };
                if item_const && last_const {
                    let last = out.pop().unwrap();
                    match (last, item) {
                        (MonoidExpr::Const(t), MonoidExpr::Const(s)) => {
                            let v = M::apply(t, s);
                            proof {
                                Self::lemma_terms(out@);
                                assert(Self::terms(out_before).drop_last() =~= Self::terms(out@));
                                assert(Self::terms(out_before).last() == Self::term(out_before.last()));
                            }
                            if !v.equals(&M::identity()) {
                                let folded = MonoidExpr::Const(v);
                                proof {
                                    Self::lemma_terms_push(out@, folded);
                                }
                                out.push(folded);
                            }
                        },
                        _ => {},
                    }
                } else {
                    proof {
                        Self::lemma_terms_push(out_before, item);
                    }
                    out.push(item);
                }
            }
        }
        Self::finish(out)
    }

    /// The normal form of the expression; see [`Self::normal_form`].
    #[verifier::loop_isolation(false)]
    fn normalized(self) -> (r: Self)
        ensures
            r@ == Self::normal_form(self@),
        decreases self,
    {
        let ghost whole = self;
        match self {
            MonoidExpr::Op(exprs) => {
                let ghost orig = exprs;
                let mut rest = exprs;
                let mut done: Vec<Self> = Vec::new();
                proof {
                    assert(rest@.len() == orig@.len());
                }
                while rest.len() > 0
                    invariant
                        whole == MonoidExpr::<M>::Op(orig),
                        rest@.len() <= orig@.len(),
                        forall|j: int| 0 <= j < rest@.len() ==> rest@[j] == orig@[orig@.len() - rest@.len() + j],
                        Self::terms(done@) + Self::normal_forms(Self::terms(rest@)) == Self::normal_forms(
                            Self::terms(orig@),
                        ),
                    decreases rest.len(),
                {
                    let ghost before = rest@;
                    let ghost done_before = done@;
                    let item = rest.remove(0);
                    proof {
                        let k = orig@.len() - before.len();
                        assert(item == orig@[k]);
                        assert(decreases_to!(whole => whole->Op_0));
                        assert(decreases_to!(orig => orig@));
                        assert(decreases_to!(orig@ => orig@[k]));
                        assert(decreases_to!(whole => item));
                        assert(rest@ =~= before.drop_first());
                        let tb = Self::terms(before);
                        assert(tb == seq![Self::term(item)] + Self::terms(rest@));
                        assert(tb[0] == Self::term(item));
                        assert(tb.drop_first() =~= Self::terms(rest@));
                        assert(Self::normal_forms(tb) == seq![Self::normal_form(Self::term(item))]
                            + Self::normal_forms(Self::terms(rest@)));
                    }
                    let n = Self::normalized(item);
                    proof {
                        Self::lemma_terms_push(done_before, n);
                        assert(Self::terms(done@.push(n)) + Self::normal_forms(Self::terms(rest@)) =~= Self::terms(
                            done_before,
                        ) + Self::normal_forms(Self::terms(before)));
                    }
                    done.push(n);
                }
                proof {
                    assert(Self::terms(done@) + Self::normal_forms(Self::terms(rest@)) =~= Self::terms(done@));
                }
                let flat = Self::flatten(done);
                Self::fold_adjacent(flat)
            },
            other => other,
        }
    }

    /// Normalizes in place using the monoid laws only; factor order is
    /// preserved.
    pub fn normalize(&mut self)
        ensures
            final(self)@ == Self::normal_form(old(self)@),
    {
        let mut e = MonoidExpr::Op(Vec::new());
        std::mem::swap(self, &mut e);
        *self = e.normalized();
    }
}

impl<M: Monoid> MonoidExpr<M> {
    // ============================================================================
    // Commutative normal forms
    // ============================================================================

    /// The constants of `terms` folded into `acc`, left to right.
    pub open spec fn fold_consts(acc: <M::Domain as View>::V, terms: Seq<TermOf<M>>) -> <
        M::Domain as View
    >::V
        decreases terms.len(),
    {
        if terms.len() == 0 {
            acc
        } else {
            let next = match terms[0] {
                MonoidTerm::Const(c) => M::spec_apply(acc, c),
                _ => acc,
            };
            Self::fold_consts(next, terms.drop_first())
        }
    }

    /// The names of the symbols among `terms`, in order.
    pub open spec fn symbol_names(terms: Seq<TermOf<M>>) -> Seq<Seq<char>>
        decreases terms.len(),
    {
        if terms.len() == 0 {
            Seq::empty()
        } else {
            let head = match terms[0] {
                MonoidTerm::Symbol(n) => seq![n],
                _ => Seq::empty(),
            };
            head + Self::symbol_names(terms.drop_first())
        }
    }

    /// Symbol terms for `names`.
    pub open spec fn symbol_terms(names: Seq<Seq<char>>) -> Seq<TermOf<M>> {
        names.map_values(|n: Seq<char>| MonoidTerm::Symbol(n))
    }

    /// A commutative product of leaves: all constants fold into one leading
    /// constant (kept when it is not the identity, or when there is nothing
    /// else), followed by the symbols sorted by name.
    pub open spec fn collect_terms(terms: Seq<TermOf<M>>) -> TermOf<M> {
        let acc = Self::fold_consts(M::spec_identity(), terms);
        let syms = Self::symbol_terms(
            Self::symbol_names(terms).sort_by(crate::symbol::name_leq()),
        );
        Self::finish_terms(
            if syms.len() == 0 || acc != M::spec_identity() {
                seq![MonoidTerm::Const(acc)] + syms
            } else {
                syms
            },
        )
    }

    /// The normal form under the laws of a commutative monoid.
    pub open spec fn commutative_normal_form(t: TermOf<M>) -> TermOf<M>
        decreases t,
    {
        match t {
            MonoidTerm::Op(terms) => Self::collect_terms(
                Self::flatten_terms(Self::commutative_normal_forms(terms)),
            ),
            _ => t,
        }
    }

    pub open spec fn commutative_normal_forms(terms: Seq<TermOf<M>>) -> Seq<TermOf<M>>
        decreases terms,
    {
        if terms.len() == 0 {
            Seq::empty()
        } else {
            seq![Self::commutative_normal_form(terms[0])] + Self::commutative_normal_forms(
                terms.drop_first(),
            )
        }
    }

    /// A constant or a symbol.
    pub open spec fn is_leaf(t: TermOf<M>) -> bool {
        !(t is Op)
    }

    /// A leaf, or an application of leaves.
    pub open spec fn is_flat(t: TermOf<M>) -> bool {
        match t {
            MonoidTerm::Op(terms) => forall|i: int| 0 <= i < terms.len() ==> Self::is_leaf(#[trigger] terms[i]),
            _ => true,
        }
    }

    pub proof fn lemma_finish_flat(terms: Seq<TermOf<M>>)
        requires
            forall|i: int| 0 <= i < terms.len() ==> Self::is_leaf(#[trigger] terms[i]),
        ensures
            Self::is_flat(Self::finish_terms(terms)),
    {
    }

    pub proof fn lemma_collect_flat(terms: Seq<TermOf<M>>)
        ensures
            Self::is_flat(Self::collect_terms(terms)),
    {
        let acc = Self::fold_consts(M::spec_identity(), terms);
        let syms = Self::symbol_terms(
            Self::symbol_names(terms).sort_by(crate::symbol::name_leq()),
        );
        let all = if syms.len() == 0 || acc != M::spec_identity() {
            seq![MonoidTerm::Const(acc)] + syms
        } else {
            syms
        };
        assert forall|i: int| 0 <= i < all.len() implies Self::is_leaf(#[trigger] all[i]) by {
            if syms.len() == 0 || acc != M::spec_identity() {
                if i > 0 {
                    assert(all[i] == syms[i - 1]);
                }
            }
        }
        Self::lemma_finish_flat(all);
    }

    pub proof fn lemma_commutative_normal_form_flat(t: TermOf<M>)
        requires
            Self::is_flat(t) || t is Op,
        ensures
            Self::is_flat(Self::commutative_normal_form(t)),
    {
        if let MonoidTerm::Op(terms) = t {
            Self::lemma_collect_flat(Self::flatten_terms(Self::commutative_normal_forms(terms)));
        }
    }

    pub proof fn lemma_flatten_leaves(terms: Seq<TermOf<M>>)
        requires
            forall|i: int| 0 <= i < terms.len() ==> Self::is_flat(#[trigger] terms[i]),
        ensures
            forall|i: int|
                0 <= i < Self::flatten_terms(terms).len() ==> Self::is_leaf(
                    #[trigger] Self::flatten_terms(terms)[i],
                ),
        decreases terms.len(),
    {
        if terms.len() > 0 {
            Self::lemma_flatten_leaves(terms.drop_first());
            let head = Self::split_term(terms[0]);
            let tail = Self::flatten_terms(terms.drop_first());
            assert forall|i: int| 0 <= i < (head + tail).len() implies Self::is_leaf(#[trigger] (head + tail)[i]) by {
                if i >= head.len() {
                    assert((head + tail)[i] == tail[i - head.len()]);
                }
            }
        }
    }

    pub proof fn lemma_commutative_normal_forms_flat(terms: Seq<TermOf<M>>)
        ensures
            Self::commutative_normal_forms(terms).len() == terms.len(),
            forall|i: int|
                0 <= i < terms.len() ==> #[trigger] Self::commutative_normal_forms(terms)[i]
                    == Self::commutative_normal_form(terms[i]),
            forall|i: int|
                0 <= i < terms.len() ==> Self::is_flat(
                    #[trigger] Self::commutative_normal_forms(terms)[i],
                ),
        decreases terms.len(),
    {
        if terms.len() > 0 {
            Self::lemma_commutative_normal_forms_flat(terms.drop_first());
            assert forall|i: int| 0 <= i < terms.len() implies #[trigger] Self::commutative_normal_forms(terms)[i]
                == Self::commutative_normal_form(terms[i]) by {
                if i > 0 {
                    assert(terms.drop_first()[i - 1] == terms[i]);
                }
            }
            assert forall|i: int| 0 <= i < terms.len() implies Self::is_flat(
                #[trigger] Self::commutative_normal_forms(terms)[i],
            ) by {
                let t = terms[i];
                if t is Op {
                    Self::lemma_commutative_normal_form_flat(t);
                }
            }
        }
    }
}

impl<M: Monoid + crate::op::Commutative> MonoidExpr<M> {
    /// Commutative product of leaves: see [`Self::collect_terms`].
    fn collect_symbols(exprs: Vec<Self>) -> (r: Self)
        requires
            forall|i: int| 0 <= i < exprs@.len() ==> Self::is_leaf(#[trigger] Self::term(exprs@[i])),
        ensures
            r@ == Self::collect_terms(Self::terms(exprs@)),
    {
        let ghost all = Self::terms(exprs@);
        let mut rest = exprs;
        let mut acc = M::identity();
        let mut syms: Vec<Symbol> = Vec::new();
        proof {
            assert(crate::symbol::names(syms@) + Self::symbol_names(Self::terms(rest@)) =~= Self::symbol_names(all));
        }
        while rest.len() > 0
            invariant
                forall|i: int| 0 <= i < rest@.len() ==> Self::is_leaf(#[trigger] Self::term(rest@[i])),
                Self::fold_consts(acc@, Self::terms(rest@)) == Self::fold_consts(M::spec_identity(), all),
                crate::symbol::names(syms@) + Self::symbol_names(Self::terms(rest@)) == Self::symbol_names(all),
            decreases rest.len(),
        {
            let ghost before = rest@;
            let ghost syms_before = syms@;
            let item = rest.remove(0);
            proof {
                assert(rest@ =~= before.drop_first());
                let tb = Self::terms(before);
                assert(tb == seq![Self::term(item)] + Self::terms(rest@));
                assert(tb[0] == Self::term(item));
                assert(tb.drop_first() =~= Self::terms(rest@));
                assert(Self::is_leaf(Self::term(before[0])));
                assert forall|i: int| 0 <= i < rest@.len() implies Self::is_leaf(#[trigger] Self::term(rest@[i])) by {
                    assert(rest@[i] == before[i + 1]);
                }
            }
            match item {
                MonoidExpr::Const(c) => {
                    acc = M::apply(acc, c);
                },
                MonoidExpr::Symbol(s) => {
                    proof {
                        assert(crate::symbol::names(syms_before.push(s)) =~= crate::symbol::names(syms_before).push(s@));
                        let tb = Self::terms(before);
                        assert(Self::symbol_names(tb) == seq![s@] + Self::symbol_names(Self::terms(rest@)));
                        assert(crate::symbol::names(syms_before).push(s@) + Self::symbol_names(Self::terms(rest@))
                            =~= crate::symbol::names(syms_before) + (seq![s@] + Self::symbol_names(Self::terms(rest@))));
                    }
                    syms.push(s);
                },
                MonoidExpr::Op(_) => {},
            }
            proof {
                let tb = Self::terms(before);
                if !(Self::term(item) is Symbol) {
                    assert(Self::symbol_names(tb) =~= Self::symbol_names(Self::terms(rest@)));
                }
            }
        }
        proof {
            assert(crate::symbol::names(syms@) + Self::symbol_names(Self::terms(rest@)) =~= crate::symbol::names(syms@));
        }
        let sorted = crate::symbol::sort_symbols(syms);
        let ghost sorted_names = crate::symbol::names(sorted@);
        let mut out: Vec<Self> = Vec::new();
        let id = M::identity();
        let keep = sorted.len() == 0 || !acc.equals(&id);
        let ghost acc_v = acc@;
        if keep {
            proof {
                Self::lemma_terms_push(out@, MonoidExpr::Const(acc));
            }
            out.push(MonoidExpr::Const(acc));
        }
        let ghost head = Self::terms(out@);
        let mut rest_syms = sorted;
        proof {
            assert(Self::terms(out@) =~= head + Self::symbol_terms(sorted_names.take(0)));
        }
        while rest_syms.len() > 0
            invariant
                rest_syms@.len() <= sorted_names.len(),
                crate::symbol::names(rest_syms@) == sorted_names.skip(sorted_names.len() - rest_syms@.len()),
                Self::terms(out@) == head + Self::symbol_terms(
                    sorted_names.take(sorted_names.len() - rest_syms@.len()),
                ),
            decreases rest_syms.len(),
        {
            let ghost before = rest_syms@;
            let ghost k = sorted_names.len() - before.len();
            let s = rest_syms.remove(0);
            proof {
                assert(rest_syms@ =~= before.drop_first());
                assert(crate::symbol::names(before)[0] == s@);
                assert(sorted_names[k] == sorted_names.skip(k)[0]);
                assert(sorted_names[k] == s@);
                assert(crate::symbol::names(rest_syms@) =~= crate::symbol::names(before).drop_first());
                assert(crate::symbol::names(rest_syms@) =~= sorted_names.skip(k + 1));
                Self::lemma_terms_push(out@, MonoidExpr::Symbol(s));
                assert(sorted_names.take(k + 1) =~= sorted_names.take(k).push(s@));
                assert(Self::symbol_terms(sorted_names.take(k + 1)) =~= Self::symbol_terms(sorted_names.take(k)).push(MonoidTerm::Symbol(s@)));
            }
            out.push(MonoidExpr::Symbol(s));
        }
        proof {
            assert(sorted_names.take(sorted_names.len() as int) =~= sorted_names);
            let syms_t = Self::symbol_terms(sorted_names);
            if keep {
                assert(head =~= seq![MonoidTerm::Const(acc_v)]);
            } else {
                assert(head =~= Seq::<TermOf<M>>::empty());
                assert(head + syms_t =~= syms_t);
            }
        }
        Self::finish(out)
    }

    /// The commutative normal form of the expression.
    #[verifier::loop_isolation(false)]
    fn normalized_commutative(self) -> (r: Self)
        ensures
            r@ == Self::commutative_normal_form(self@),
        decreases self,
    {
        let ghost whole = self;
        match self {
            MonoidExpr::Op(exprs) => {
                let ghost orig = exprs;
                let mut rest = exprs;
                let mut done: Vec<Self> = Vec::new();
                while rest.len() > 0
                    invariant
                        whole == MonoidExpr::<M>::Op(orig),
                        rest@.len() <= orig@.len(),
                        forall|j: int| 0 <= j < rest@.len() ==> rest@[j] == orig@[orig@.len() - rest@.len() + j],
                        Self::terms(done@) + Self::commutative_normal_forms(Self::terms(rest@))
                            == Self::commutative_normal_forms(Self::terms(orig@)),
                    decreases rest.len(),
                {
                    let ghost before = rest@;
                    let ghost done_before = done@;
                    let item = rest.remove(0);
                    proof {
                        let k = orig@.len() - before.len();
                        assert(item == orig@[k]);
                        assert(decreases_to!(whole => whole->Op_0));
                        assert(decreases_to!(orig => orig@));
                        assert(decreases_to!(orig@ => orig@[k]));
                        assert(decreases_to!(whole => item));
                        assert(rest@ =~= before.drop_first());
                        let tb = Self::terms(before);
                        assert(tb == seq![Self::term(item)] + Self::terms(rest@));
                        assert(tb[0] == Self::term(item));
                        assert(tb.drop_first() =~= Self::terms(rest@));
                        assert(Self::commutative_normal_forms(tb) == seq![Self::commutative_normal_form(Self::term(item))]
                            + Self::commutative_normal_forms(Self::terms(rest@)));
                    }
                    let n = Self::normalized_commutative(item);
                    proof {
                        Self::lemma_terms_push(done_before, n);
                        assert(Self::terms(done@.push(n)) + Self::commutative_normal_forms(Self::terms(rest@)) =~= Self::terms(
                            done_before,
                        ) + Self::commutative_normal_forms(Self::terms(before)));
                    }
                    done.push(n);
                }
                proof {
                    assert(Self::terms(done@) + Self::commutative_normal_forms(Self::terms(rest@)) =~= Self::terms(done@));
                }
                let flat = Self::flatten(done);
                proof {
                    let nfs = Self::commutative_normal_forms(Self::terms(orig@));
                    Self::lemma_commutative_normal_forms_flat(Self::terms(orig@));
                    Self::lemma_flatten_leaves(nfs);
                    Self::lemma_terms(flat@);
                    assert forall|i: int| 0 <= i < flat@.len() implies Self::is_leaf(#[trigger] Self::term(flat@[i])) by {
                        assert(Self::terms(flat@)[i] == Self::term(flat@[i]));
                    }
                }
                Self::collect_symbols(flat)
            },
            other => other,
        }
    }

    /// Normalizes in place using commutativity as well: constants fold
    /// globally into one leading constant and symbols sort by name.
    pub fn normalize_commutative(&mut self)
        ensures
            final(self)@ == Self::commutative_normal_form(old(self)@),
    {
        let mut e = MonoidExpr::Op(Vec::new());
        std::mem::swap(self, &mut e);
        *self = e.normalized_commutative();
    }
}

impl<M: Monoid> Clone for MonoidExpr<M> {
    fn clone(&self) -> (r: Self)
        ensures
            r@ == self@,
    {
        self.duplicate()
    }
}

impl<M: Monoid> PartialEq for MonoidExpr<M> {
    fn eq(&self, other: &Self) -> (r: bool) {
        self.equals(other)
    }
}

impl<M: Monoid> PartialEqSpecImpl for MonoidExpr<M> {
    open spec fn obeys_eq_spec() -> bool {
        true
    }

    open spec fn eq_spec(&self, other: &Self) -> bool {
        self@ == other@
    }
}

/// Canonicalizes monoid expressions while preserving factor order.
pub struct NonCommutativeMonoidRewriter<M> {
    _monoid_marker: PhantomData<M>,
}

impl<M: Monoid> NonCommutativeMonoidRewriter<M> {
    pub fn new() -> Self {
        NonCommutativeMonoidRewriter { _monoid_marker: PhantomData }
    }

    /// Rewrites `expr` into its normal form.
    pub fn rewrite_expr(&self, expr: &mut MonoidExpr<M>)
        ensures
            final(expr)@ == MonoidExpr::<M>::normal_form(old(expr)@),
    {
        expr.normalize();
    }

    /// The normal form of `expr`.
    pub fn rewrited_expr(&self, expr: MonoidExpr<M>) -> (r: MonoidExpr<M>)
        ensures
            r@ == MonoidExpr::<M>::normal_form(expr@),
    {
        let mut expr = expr;
        self.rewrite_expr(&mut expr);
        expr
    }
}

/// Simplifies to a canonical form, additionally using commutativity: all
/// constants fold into one leading constant, and symbols sort by name with
/// multiplicity preserved.
pub struct CommutativeMonoidRewriter<M> {
    _marker: PhantomData<M>,
}

impl<M: Monoid + crate::op::Commutative> CommutativeMonoidRewriter<M> {
    pub fn new() -> Self {
        CommutativeMonoidRewriter { _marker: PhantomData }
    }

    /// Rewrites `expr` into its commutative normal form.
    pub fn rewrite_expr(&self, expr: &mut MonoidExpr<M>)
        ensures
            final(expr)@ == MonoidExpr::<M>::commutative_normal_form(old(expr)@),
    {
        expr.normalize_commutative();
    }

    /// The commutative normal form of `expr`.
    pub fn rewrited_expr(&self, expr: MonoidExpr<M>) -> (r: MonoidExpr<M>)
        ensures
            r@ == MonoidExpr::<M>::commutative_normal_form(expr@),
    {
        let mut expr = expr;
        self.rewrite_expr(&mut expr);
        expr
    }
}

/// Canonicalizes monoid expressions while preserving factor order; the
/// by-value form of [`NonCommutativeMonoidRewriter`].
pub struct NonCommutativeMonoidFormatter<M> {
    _monoid_marker: PhantomData<M>,
}

impl<M: Monoid> NonCommutativeMonoidFormatter<M> {
    pub fn new() -> Self {
        NonCommutativeMonoidFormatter { _monoid_marker: PhantomData }
    }

    /// The normal form of `expr`.
    pub fn format_expr(&self, expr: MonoidExpr<M>) -> (r: MonoidExpr<M>)
        ensures
            r@ == MonoidExpr::<M>::normal_form(expr@),
    {
        expr.normalized()
    }
}

/// Canonicalizes monoid expressions using commutativity; the by-value form
/// of [`CommutativeMonoidRewriter`].
pub struct CommutativeMonoidFormatter<M> {
    _marker: PhantomData<M>,
}

impl<M: Monoid + crate::op::Commutative> CommutativeMonoidFormatter<M> {
    pub fn new() -> Self {
        CommutativeMonoidFormatter { _marker: PhantomData }
    }

    /// The commutative normal form of `expr`.
    pub fn format_expr(&self, expr: MonoidExpr<M>) -> (r: MonoidExpr<M>)
        ensures
            r@ == MonoidExpr::<M>::commutative_normal_form(expr@),
    {
        expr.normalized_commutative()
    }
}

impl<M: Monoid> MonoidExpr<M> {
    /// The names of the symbols that occur in a term.
    pub open spec fn symbols_in(t: TermOf<M>) -> Set<Seq<char>>
        decreases t,
    {
        match t {
            MonoidTerm::Const(_) => Set::empty(),
            MonoidTerm::Symbol(s) => set![s],
            MonoidTerm::Op(xs) => Self::symbols_in_list(xs),
        }
    }

    /// The names of the symbols that occur in a list of terms.
    pub open spec fn symbols_in_list(xs: Seq<TermOf<M>>) -> Set<Seq<char>>
        decreases xs,
    {
        if xs.len() == 0 {
            Set::empty()
        } else {
            Self::symbols_in(xs[0]).union(Self::symbols_in_list(xs.drop_first()))
        }
    }

    /// `t` with every occurrence of the symbol `name` replaced by `e`; the
    /// copies of `e` are not searched again.
    pub open spec fn substitution(t: TermOf<M>, name: Seq<char>, e: TermOf<M>) -> TermOf<M>
        decreases t,
    {
        match t {
            MonoidTerm::Const(_) => t,
            MonoidTerm::Symbol(s) => if s == name {
                e
            } else {
                t
            },
            MonoidTerm::Op(xs) => MonoidTerm::Op(Self::substitutions(xs, name, e)),
        }
    }

    /// [`Self::substitution`] in each term of a list.
    pub open spec fn substitutions(xs: Seq<TermOf<M>>, name: Seq<char>, e: TermOf<M>) -> Seq<TermOf<M>>
        decreases xs,
    {
        if xs.len() == 0 {
            Seq::empty()
        } else {
            seq![Self::substitution(xs[0], name, e)] + Self::substitutions(xs.drop_first(), name, e)
        }
    }

    /// Adds the names of the symbols in `self` to `seen`.
    fn collect_names(&self, seen: &mut Vec<Symbol>)
        requires
            names(old(seen)@).no_duplicates(),
        ensures
            names(final(seen)@).no_duplicates(),
            names(final(seen)@).to_set() == names(old(seen)@).to_set().union(
                Self::symbols_in(self@),
            ),
        decreases self, 1int,
    {
        let ghost before = names(seen@).to_set();
        match self {
            MonoidExpr::Const(_) => {
                proof {
                    assert(before.union(Set::empty()) =~= before);
                }
            },
            MonoidExpr::Symbol(s) => {
                note_name(seen, s);
                proof {
                    assert(before.insert(s@) =~= before.union(set![s@]));
                }
            },
            MonoidExpr::Op(v) => Self::collect_list_names(v, seen, Ghost(*self)),
        }
    }

    /// Adds the names of the symbols in the children `v` of `whole`.
    fn collect_list_names(v: &Vec<Self>, seen: &mut Vec<Symbol>, Ghost(whole): Ghost<Self>)
        requires
            whole == MonoidExpr::<M>::Op(*v),
            names(old(seen)@).no_duplicates(),
        ensures
            names(final(seen)@).no_duplicates(),
            names(final(seen)@).to_set() == names(old(seen)@).to_set().union(
                Self::symbols_in_list(Self::terms(v@)),
            ),
        decreases whole, 0int,
    {
        let ghost start = names(seen@).to_set();
        let mut i: usize = 0;
        proof {
            Self::lemma_terms(v@);
            assert(Self::terms(v@).skip(0) =~= Self::terms(v@));
        }
        while i < v.len()
            invariant
                whole == MonoidExpr::<M>::Op(*v),
                i <= v.len(),
                Self::terms(v@).len() == v.len(),
                forall|j: int| 0 <= j < v.len() ==> #[trigger] Self::terms(v@)[j] == Self::term(v@[j]),
                names(seen@).no_duplicates(),
                names(seen@).to_set().union(Self::symbols_in_list(Self::terms(v@).skip(i as int)))
                    == start.union(Self::symbols_in_list(Self::terms(v@))),
            decreases v.len() - i,
        {
            proof {
                assert(decreases_to!(whole => whole->Op_0));
                assert(decreases_to!(v => v@));
                assert(decreases_to!(v@ => v@[i as int]));
            }
            let ghost mid = names(seen@).to_set();
            v[i].collect_names(seen);
            proof {
                let rest = Self::terms(v@).skip(i as int);
                assert(rest[0] == Self::term(v@[i as int]));
                assert(rest.drop_first() =~= Self::terms(v@).skip(i + 1));
                let now = names(seen@).to_set();
                let here = Self::symbols_in(v@[i as int]@);
                let later = Self::symbols_in_list(Self::terms(v@).skip(i + 1));
                assert(now.union(later) =~= mid.union(here.union(later)));
            }
            i = i + 1;
        }
        proof {
            assert(Self::terms(v@).skip(v.len() as int) =~= Seq::<TermOf<M>>::empty());
            let now = names(seen@).to_set();
            assert(now.union(Set::empty()) =~= now);
        }
    }

    /// The number of distinct symbols in the expression.
    pub fn degrees_of_freedom(&self) -> (r: usize)
        ensures
            r == Self::symbols_in(self@).len(),
    {
        let mut seen: Vec<Symbol> = Vec::new();
        proof {
            assert(names(seen@) =~= Seq::<Seq<char>>::empty());
        }
        self.collect_names(&mut seen);
        proof {
            let ns = names(seen@);
            assert(Seq::<Seq<char>>::empty().to_set() =~= Set::<Seq<char>>::empty());
            assert(Set::<Seq<char>>::empty().union(Self::symbols_in(self@)) =~= Self::symbols_in(
                self@,
            ));
            ns.unique_seq_to_set();
        }
        seen.len()
    }

    /// The expression with every occurrence of the symbol `name` replaced
    /// by a copy of `expr`.
    fn replaced(self, name: &Symbol, expr: &Self) -> (r: Self)
        ensures
            r@ == Self::substitution(self@, name@, expr@),
        decreases self,
    {
        match self {
            MonoidExpr::Const(c) => MonoidExpr::Const(c),
            MonoidExpr::Symbol(s) => {
                if s.same(name) {
                    expr.duplicate()
                } else {
                    MonoidExpr::Symbol(s)
                }
            },
            MonoidExpr::Op(v) => {
                let ghost whole = MonoidExpr::<M>::Op(v);
                MonoidExpr::Op(Self::replaced_list(v, name, expr, Ghost(whole)))
            },
        }
    }

    /// [`Self::replaced`] on each child `v` of `whole`.
    fn replaced_list(v: Vec<Self>, name: &Symbol, expr: &Self, Ghost(whole): Ghost<Self>) -> (r: Vec<Self>)
        requires
            whole == MonoidExpr::<M>::Op(v),
        ensures
            Self::terms(r@) == Self::substitutions(Self::terms(v@), name@, expr@),
        decreases whole, 0int,
    {
        let ghost orig = v;
        let mut rest = v;
        let mut done: Vec<Self> = Vec::new();
        proof {
            assert(Self::terms(done@) =~= Seq::<TermOf<M>>::empty());
        }
        while rest.len() > 0
            invariant
                whole == MonoidExpr::<M>::Op(orig),
                rest@.len() <= orig@.len(),
                forall|j: int| 0 <= j < rest@.len() ==> rest@[j] == orig@[orig@.len() - rest@.len() + j],
                Self::terms(done@) + Self::substitutions(Self::terms(rest@), name@, expr@)
                    == Self::substitutions(Self::terms(orig@), name@, expr@),
            decreases rest.len(),
        {
            let ghost before = rest@;
            let ghost done_before = done@;
            let item = rest.remove(0);
            proof {
                let k = orig@.len() - before.len();
                assert(item == orig@[k]);
                assert(decreases_to!(whole => whole->Op_0));
                assert(decreases_to!(orig => orig@));
                assert(decreases_to!(orig@ => orig@[k]));
                assert(decreases_to!(whole => item));
                assert(rest@ =~= before.drop_first());
                let tb = Self::terms(before);
                assert(tb == seq![Self::term(item)] + Self::terms(rest@));
                assert(tb[0] == Self::term(item));
                assert(tb.drop_first() =~= Self::terms(rest@));
            }
            let n = item.replaced(name, expr);
            proof {
                Self::lemma_terms_push(done_before, n);
                assert(Self::terms(done@.push(n)) + Self::substitutions(Self::terms(rest@), name@, expr@)
                    =~= Self::terms(done_before) + Self::substitutions(Self::terms(before), name@, expr@));
            }
            done.push(n);
        }
        proof {
            assert(Self::terms(done@) + Self::substitutions(Self::terms(rest@), name@, expr@)
                =~= Self::terms(done@));
        }
        done
    }

    /// Replaces every occurrence of the symbol `sym` by a copy of `expr`.
    /// The copies are not searched again.
    pub fn substitute(&mut self, sym: Symbol, expr: &Self)
        ensures
            final(self)@ == Self::substitution(old(self)@, sym@, expr@),
    {
        let mut e = MonoidExpr::Op(Vec::new());
        std::mem::swap(self, &mut e);
        *self = e.replaced(&sym, expr);
    }

    /// The expression with every occurrence of the symbol `sym` replaced by
    /// a copy of `expr`.
    pub fn substituted(self, sym: Symbol, expr: &Self) -> (r: Self)
        ensures
            r@ == Self::substitution(self@, sym@, expr@),
    {
        self.replaced(&sym, expr)
    }
}

} // verus!
