//! Normal forms of monoid expressions are fixed points: normalizing twice
//! is normalizing once.
use vstd::prelude::*;

use crate::monoid::{Monoid, MonoidExpr, MonoidTerm, TermOf};
use crate::symbol::{lemma_name_leq_total, name_leq};

verus! {

impl<M: Monoid> MonoidExpr<M> {
    /// A factor list that the order-preserving fold leaves as it is: leaves
    /// only, no identity, and no two adjacent constants.
    pub open spec fn reduced(l: Seq<TermOf<M>>) -> bool {
        &&& forall|i: int| 0 <= i < l.len() ==> Self::is_leaf(#[trigger] l[i])
        &&& forall|i: int| 0 <= i < l.len() ==> #[trigger] l[i] != Self::identity_term()
        &&& forall|i: int, j: int|
            0 <= i && j == i + 1 && j < l.len() ==> !(#[trigger] l[i] is Const && #[trigger] l[j] is Const)
    }

    /// An ordered normal form: a leaf, or an application of a reduced list
    /// of at least two factors.
    pub open spec fn is_normal(t: TermOf<M>) -> bool {
        match t {
            MonoidTerm::Op(l) => l.len() >= 2 && Self::reduced(l),
            _ => true,
        }
    }

    proof fn lemma_fold_step_reduced(out: Seq<TermOf<M>>, x: TermOf<M>)
        requires
            Self::reduced(out),
            Self::is_leaf(x),
        ensures
            Self::reduced(Self::fold_step(out, x)),
    {
        let r = Self::fold_step(out, x);
        if x == Self::identity_term() {
        } else if x is Const && out.len() > 0 && out.last() is Const {
            let init = out.drop_last();
            assert forall|i: int, j: int|
                0 <= i && j == i + 1 && j < init.len() implies !(#[trigger] init[i] is Const
                && #[trigger] init[j] is Const) by {
                assert(init[i] == out[i] && init[j] == out[j]);
            }
            if out.len() >= 2 {
                assert(!(out[out.len() - 2] is Const && out[out.len() - 1] is Const));
            }
            assert forall|i: int, j: int|
                0 <= i && j == i + 1 && j < r.len() implies !(#[trigger] r[i] is Const
                && #[trigger] r[j] is Const) by {
                if j < init.len() {
                    assert(r[i] == init[i] && r[j] == init[j]);
                } else {
                    assert(r[i] == out[out.len() - 2]);
                }
            }
            assert forall|i: int| 0 <= i < r.len() implies Self::is_leaf(#[trigger] r[i]) && r[i]
                != Self::identity_term() by {
                if i < init.len() {
                    assert(r[i] == out[i]);
                }
            }
        } else {
            assert forall|i: int, j: int|
                0 <= i && j == i + 1 && j < r.len() implies !(#[trigger] r[i] is Const
                && #[trigger] r[j] is Const) by {
                if j < out.len() {
                    assert(r[i] == out[i] && r[j] == out[j]);
                } else {
                    assert(r[i] == out.last());
                }
            }
            assert forall|i: int| 0 <= i < r.len() implies Self::is_leaf(#[trigger] r[i]) && r[i]
                != Self::identity_term() by {
                if i < out.len() {
                    assert(r[i] == out[i]);
                }
            }
        }
    }

    proof fn lemma_fold_from_reduced(out: Seq<TermOf<M>>, xs: Seq<TermOf<M>>)
        requires
            Self::reduced(out),
            forall|i: int| 0 <= i < xs.len() ==> Self::is_leaf(#[trigger] xs[i]),
        ensures
            Self::reduced(Self::fold_from(out, xs)),
        decreases xs.len(),
    {
        if xs.len() > 0 {
            Self::lemma_fold_step_reduced(out, xs[0]);
            assert forall|i: int| 0 <= i < xs.drop_first().len() implies Self::is_leaf(
                #[trigger] xs.drop_first()[i],
            ) by {
                assert(xs.drop_first()[i] == xs[i + 1]);
            }
            Self::lemma_fold_from_reduced(Self::fold_step(out, xs[0]), xs.drop_first());
        }
    }

    proof fn lemma_fold_from_fixed(out: Seq<TermOf<M>>, xs: Seq<TermOf<M>>)
        requires
            Self::reduced(out + xs),
        ensures
            Self::fold_from(out, xs) == out + xs,
        decreases xs.len(),
    {
        let all = out + xs;
        if xs.len() == 0 {
            assert(out + xs =~= out);
        } else {
            let x = xs[0];
            assert(all[out.len() as int] == x);
            assert(x != Self::identity_term());
            if x is Const && out.len() > 0 {
                assert(all[out.len() - 1] == out.last());
                assert(!(all[out.len() - 1] is Const && all[out.len() as int] is Const));
            }
            assert(Self::fold_step(out, x) == out.push(x));
            assert(out.push(x) + xs.drop_first() =~= all);
            Self::lemma_fold_from_fixed(out.push(x), xs.drop_first());
        }
    }

    proof fn lemma_flatten_leaves_fixed(l: Seq<TermOf<M>>)
        requires
            forall|i: int| 0 <= i < l.len() ==> Self::is_leaf(#[trigger] l[i]),
        ensures
            Self::flatten_terms(l) == l,
        decreases l.len(),
    {
        if l.len() > 0 {
            assert forall|i: int| 0 <= i < l.drop_first().len() implies Self::is_leaf(
                #[trigger] l.drop_first()[i],
            ) by {
                assert(l.drop_first()[i] == l[i + 1]);
            }
            Self::lemma_flatten_leaves_fixed(l.drop_first());
            assert(Self::is_leaf(l[0]));
            assert(seq![l[0]] + l.drop_first() =~= l);
        }
    }

    proof fn lemma_normal_forms_index(terms: Seq<TermOf<M>>)
        ensures
            Self::normal_forms(terms).len() == terms.len(),
            forall|i: int|
                0 <= i < terms.len() ==> #[trigger] Self::normal_forms(terms)[i] == Self::normal_form(
                    terms[i],
                ),
        decreases terms.len(),
    {
        if terms.len() > 0 {
            Self::lemma_normal_forms_index(terms.drop_first());
            assert forall|i: int| 0 <= i < terms.len() implies #[trigger] Self::normal_forms(
                terms,
            )[i] == Self::normal_form(terms[i]) by {
                if i > 0 {
                    assert(terms.drop_first()[i - 1] == terms[i]);
                }
            }
        }
    }

    proof fn lemma_finish_normal(l: Seq<TermOf<M>>)
        requires
            Self::reduced(l),
        ensures
            Self::is_normal(Self::finish_terms(l)),
    {
        if l.len() == 1 {
            assert(Self::is_leaf(l[0]));
        }
    }

    /// The ordered normal form of any term is normal.
    pub proof fn lemma_normal_form_is_normal(t: TermOf<M>)
        ensures
            Self::is_normal(Self::normal_form(t)),
        decreases t,
    {
        if let MonoidTerm::Op(terms) = t {
            let nfs = Self::normal_forms(terms);
            Self::lemma_normal_forms_index(terms);
            assert forall|i: int| 0 <= i < nfs.len() implies Self::is_flat(#[trigger] nfs[i]) by {
                assert(decreases_to!(t => terms));
                assert(decreases_to!(terms => terms[i]));
                Self::lemma_normal_form_is_normal(terms[i]);
                assert(nfs[i] == Self::normal_form(terms[i]));
            }
            Self::lemma_flatten_leaves(nfs);
            let flat = Self::flatten_terms(nfs);
            assert(Self::reduced(Seq::<TermOf<M>>::empty()));
            Self::lemma_fold_from_reduced(Seq::empty(), flat);
            Self::lemma_finish_normal(Self::fold_from(Seq::empty(), flat));
        }
    }

    /// A normal term is its own ordered normal form.
    pub proof fn lemma_normal_form_of_normal(t: TermOf<M>)
        requires
            Self::is_normal(t),
        ensures
            Self::normal_form(t) == t,
    {
        if let MonoidTerm::Op(l) = t {
            Self::lemma_normal_forms_index(l);
            assert(Self::normal_forms(l) =~= l);
            Self::lemma_flatten_leaves_fixed(l);
            assert(Seq::<TermOf<M>>::empty() + l =~= l);
            Self::lemma_fold_from_fixed(Seq::empty(), l);
        }
    }

    /// Normalizing twice under the monoid laws is normalizing once.
    pub proof fn lemma_normal_form_idempotent(t: TermOf<M>)
        ensures
            Self::normal_form(Self::normal_form(t)) == Self::normal_form(t),
    {
        Self::lemma_normal_form_is_normal(t);
        Self::lemma_normal_form_of_normal(Self::normal_form(t));
    }

    proof fn lemma_fold_consts_symbols(acc: <M::Domain as View>::V, names: Seq<Seq<char>>)
        ensures
            Self::fold_consts(acc, Self::symbol_terms(names)) == acc,
        decreases names.len(),
    {
        if names.len() > 0 {
            assert(Self::symbol_terms(names).drop_first() =~= Self::symbol_terms(names.drop_first()));
            Self::lemma_fold_consts_symbols(acc, names.drop_first());
        }
    }

    proof fn lemma_symbol_names_of_symbols(names: Seq<Seq<char>>)
        ensures
            Self::symbol_names(Self::symbol_terms(names)) == names,
        decreases names.len(),
    {
        if names.len() > 0 {
            assert(Self::symbol_terms(names).drop_first() =~= Self::symbol_terms(names.drop_first()));
            Self::lemma_symbol_names_of_symbols(names.drop_first());
            assert(seq![names[0]] + names.drop_first() =~= names);
        }
    }

    /// Normalizing twice under the laws of a commutative monoid is
    /// normalizing once.
    pub proof fn lemma_commutative_normal_form_idempotent(t: TermOf<M>)
        ensures
            Self::commutative_normal_form(Self::commutative_normal_form(t))
                == Self::commutative_normal_form(t),
    {
        if let MonoidTerm::Op(terms) = t {
            let flat = Self::flatten_terms(Self::commutative_normal_forms(terms));
            Self::lemma_commutative_normal_forms_flat(terms);
            Self::lemma_flatten_leaves(Self::commutative_normal_forms(terms));
            let acc = Self::fold_consts(M::spec_identity(), flat);
            let ns = Self::symbol_names(flat).sort_by(name_leq());
            let syms = Self::symbol_terms(ns);
            let keep = syms.len() == 0 || acc != M::spec_identity();
            let all = if keep {
                seq![MonoidTerm::Const(acc)] + syms
            } else {
                syms
            };
            let n = Self::finish_terms(all);
            assert(n == Self::collect_terms(flat));
            assert forall|i: int| 0 <= i < all.len() implies Self::is_leaf(#[trigger] all[i]) by {
                if keep && i > 0 {
                    assert(all[i] == syms[i - 1]);
                }
            }
            if all.len() >= 2 {
                Self::lemma_commutative_normal_forms_flat(all);
                assert(Self::commutative_normal_forms(all) =~= all);
                Self::lemma_flatten_leaves_fixed(all);
                // the constant
                Self::lemma_fold_consts_symbols(acc, ns);
                Self::lemma_fold_consts_symbols(M::spec_identity(), ns);
                if keep {
                    assert(all.drop_first() =~= syms);
                    M::lemma_identity(acc);
                }
                assert(Self::fold_consts(M::spec_identity(), all) == acc);
                // the symbols
                Self::lemma_symbol_names_of_symbols(ns);
                if keep {
                    assert(all.drop_first() =~= syms);
                    assert(Self::symbol_names(all) =~= Self::symbol_names(syms));
                }
                assert(Self::symbol_names(all) == ns);
                lemma_name_leq_total();
                Self::symbol_names(flat).lemma_sort_by_ensures(name_leq());
                ns.lemma_sort_by_ensures(name_leq());
                vstd::seq_lib::lemma_sorted_unique(ns.sort_by(name_leq()), ns, name_leq());
                assert(ns.sort_by(name_leq()) == ns);
                assert(Self::collect_terms(all) == n);
            }
        }
    }
}

} // verus!
