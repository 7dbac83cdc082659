//! Groups, and expression trees over them with their normal forms.
use std::marker::PhantomData;
use vstd::prelude::*;
use vstd::std_specs::cmp::PartialEqSpecImpl;

use crate::monoid::Monoid;
use crate::op::{AlgebraicSet, BinaryOperator, Commutative, Inverse};
use crate::symbol::{compare_chars, names, note_name, Cmp, Symbol};

verus! {

/// A group: a monoid in which every element has a two-sided inverse.
pub trait Group: Monoid + Inverse {

}

impl<G: Monoid + Inverse> Group for G {

}

/// An abelian group: a group whose operation is commutative.
pub trait AbelianGroup: Group + Commutative {

}

impl<G: Group + Commutative> AbelianGroup for G {

}

/// An expression tree over a group. `Inv` is the operation that
/// distinguishes it from a monoid expression; `Pow` is an integer power.
#[derive(Debug)]
pub enum GroupExpr<G: Group> {
    Const(G::Domain),
    Symbol(Symbol),
    Inv(Box<GroupExpr<G>>),
    Op(Vec<GroupExpr<G>>),
    Pow { base: Box<GroupExpr<G>>, exponent: isize },
}

/// The mathematical content of a [`GroupExpr`].
pub enum GroupTerm<V> {
    Const(V),
    Symbol(Seq<char>),
    Inv(Box<GroupTerm<V>>),
    Op(Seq<GroupTerm<V>>),
    Pow(Box<GroupTerm<V>>, int),
}

/// The term type of expressions over `G`.
pub type GTerm<G> = GroupTerm<<<G as BinaryOperator>::Domain as View>::V>;

/// The value type of `G`.
pub type GValue<G> = <<G as BinaryOperator>::Domain as View>::V;

impl<G: Group> View for GroupExpr<G> {
    type V = GTerm<G>;

    open spec fn view(&self) -> Self::V {
        Self::term(*self)
    }
}

/// Whether `v` fits an `isize`.
pub open spec fn fits_isize(v: int) -> bool {
    isize::MIN <= v <= isize::MAX
}

impl<G: Group> GroupExpr<G> {
    pub open spec fn term(e: Self) -> GTerm<G>
        decreases e,
    {
        match e {
            GroupExpr::Const(c) => GroupTerm::Const(c@),
            GroupExpr::Symbol(s) => GroupTerm::Symbol(s@),
            GroupExpr::Inv(inner) => GroupTerm::Inv(Box::new(Self::term(*inner))),
            GroupExpr::Op(v) => GroupTerm::Op(Self::terms(v@)),
            GroupExpr::Pow { base, exponent } => GroupTerm::Pow(
                Box::new(Self::term(*base)),
                exponent as int,
            ),
        }
    }

    pub open spec fn terms(s: Seq<Self>) -> Seq<GTerm<G>>
        decreases s,
    {
        if s.len() == 0 {
            Seq::empty()
        } else {
            seq![Self::term(s[0])] + Self::terms(s.drop_first())
        }
    }

    pub proof fn lemma_terms(s: Seq<Self>)
        ensures
            Self::terms(s).len() == s.len(),
            forall|i: int| 0 <= i < s.len() ==> #[trigger] Self::terms(s)[i] == Self::term(s[i]),
        decreases s.len(),
    {
        if s.len() > 0 {
            Self::lemma_terms(s.drop_first());
            assert forall|i: int| 0 <= i < s.len() implies #[trigger] Self::terms(s)[i] == Self::term(s[i]) by {
                if i > 0 {
                    assert(s.drop_first()[i - 1] == s[i]);
                }
            }
        }
    }

    pub proof fn lemma_terms_push(s: Seq<Self>, x: Self)
        ensures
            Self::terms(s.push(x)) == Self::terms(s).push(Self::term(x)),
    {
        Self::lemma_terms(s);
        Self::lemma_terms(s.push(x));
        assert(Self::terms(s.push(x)) =~= Self::terms(s).push(Self::term(x)));
    }

    pub proof fn lemma_terms_concat(a: Seq<Self>, b: Seq<Self>)
        ensures
            Self::terms(a + b) == Self::terms(a) + Self::terms(b),
    {
        Self::lemma_terms(a);
        Self::lemma_terms(b);
        Self::lemma_terms(a + b);
        assert(Self::terms(a + b) =~= Self::terms(a) + Self::terms(b));
    }

    pub proof fn lemma_terms_drop_last(s: Seq<Self>)
        requires
            s.len() > 0,
        ensures
            Self::terms(s.drop_last()) == Self::terms(s).drop_last(),
            Self::terms(s).last() == Self::term(s.last()),
    {
        Self::lemma_terms(s);
        Self::lemma_terms(s.drop_last());
        assert(Self::terms(s.drop_last()) =~= Self::terms(s).drop_last());
    }

    // ============================================================================
    // Powers of values
    // ============================================================================

    /// `b^n` for a natural `n`: `b * b * ... * b`.
    pub open spec fn pow_nat(b: GValue<G>, n: nat) -> GValue<G>
        decreases n,
    {
        if n == 0 {
            G::spec_identity()
        } else {
            G::spec_apply(Self::pow_nat(b, (n - 1) as nat), b)
        }
    }

    /// `b^k` for an integer `k`: negative powers are powers of the inverse.
    pub open spec fn pow_int(b: GValue<G>, k: int) -> GValue<G> {
        if k >= 0 {
            Self::pow_nat(b, k as nat)
        } else {
            Self::pow_nat(G::spec_inverse(b), (-k) as nat)
        }
    }

    /// `b^(m + n) == b^m * b^n`.
    pub proof fn lemma_pow_add(b: GValue<G>, m: nat, n: nat)
        ensures
            Self::pow_nat(b, m + n) == G::spec_apply(Self::pow_nat(b, m), Self::pow_nat(b, n)),
        decreases n,
    {
        if n == 0 {
            G::lemma_identity(Self::pow_nat(b, m));
        } else {
            Self::lemma_pow_add(b, m, (n - 1) as nat);
            assert((m + n - 1) as nat == m + (n - 1) as nat);
            G::lemma_associative(Self::pow_nat(b, m), Self::pow_nat(b, (n - 1) as nat), b);
        }
    }

    /// `(b * b)^n == b^(2n)`.
    pub proof fn lemma_pow_square(b: GValue<G>, n: nat)
        ensures
            Self::pow_nat(G::spec_apply(b, b), n) == Self::pow_nat(b, 2 * n),
        decreases n,
    {
        if n > 0 {
            Self::lemma_pow_square(b, (n - 1) as nat);
            assert((2 * n - 1) as nat == (2 * (n - 1) + 1) as nat);
            assert(Self::pow_nat(b, 2 * n) == G::spec_apply(Self::pow_nat(b, (2 * n - 1) as nat), b));
            assert(Self::pow_nat(b, (2 * n - 1) as nat) == G::spec_apply(
                Self::pow_nat(b, (2 * (n - 1)) as nat),
                b,
            ));
            G::lemma_associative(Self::pow_nat(b, (2 * (n - 1)) as nat), b, b);
        }
    }

    // ============================================================================
    // Normal forms
    // ============================================================================

    pub open spec fn identity_term() -> GTerm<G> {
        GroupTerm::Const(G::spec_identity())
    }

    /// A term as a power of a base: `Inv(b)` is `b^-1`, `Pow(b, k)` is `b^k`,
    /// anything else is its own first power.
    pub open spec fn split_power(t: GTerm<G>) -> (GTerm<G>, int) {
        match t {
            GroupTerm::Inv(b) => (*b, -1),
            GroupTerm::Pow(b, k) => (*b, k),
            _ => (t, 1),
        }
    }

    /// `b^k` as a term: the identity, `b`, `Inv(b)` or `Pow(b, k)`.
    pub open spec fn power(b: GTerm<G>, k: int) -> GTerm<G> {
        if k == 0 {
            Self::identity_term()
        } else if k == 1 {
            b
        } else if k == -1 {
            GroupTerm::Inv(Box::new(b))
        } else {
            GroupTerm::Pow(Box::new(b), k)
        }
    }

    pub open spec fn finish_terms(terms: Seq<GTerm<G>>) -> GTerm<G> {
        if terms.len() == 0 {
            Self::identity_term()
        } else if terms.len() == 1 {
            terms[0]
        } else {
            GroupTerm::Op(terms)
        }
    }

    pub open spec fn split_term(t: GTerm<G>) -> Seq<GTerm<G>> {
        match t {
            GroupTerm::Op(inner) => inner,
            _ => seq![t],
        }
    }

    pub open spec fn flatten_terms(terms: Seq<GTerm<G>>) -> Seq<GTerm<G>>
        decreases terms.len(),
    {
        if terms.len() == 0 {
            Seq::empty()
        } else {
            Self::split_term(terms[0]) + Self::flatten_terms(terms.drop_first())
        }
    }

    /// `l` and `r` are `x` and `Inv(x)` in some order.
    pub open spec fn inverse_pair(l: GTerm<G>, r: GTerm<G>) -> bool {
        (l matches GroupTerm::Inv(a) && *a == r) || (r matches GroupTerm::Inv(a) && *a == l)
    }

    /// Appends one factor to an order-preserving product of normal factors:
    /// identities vanish, adjacent constants fold (vanishing at the
    /// identity), adjacent inverse pairs cancel, and adjacent powers of one
    /// base merge when the exponent sum fits an `isize`; a product that such
    /// a merge leaves to the first power is spliced in factor by factor.
    pub open spec fn fold_step(out: Seq<GTerm<G>>, e: GTerm<G>) -> Seq<GTerm<G>> {
        if e == Self::identity_term() {
            out
        } else if out.len() == 0 {
            out.push(e)
        } else {
            let lhs = out.last();
            let rest = out.drop_last();
            if lhs is Const && e is Const {
                let v = G::spec_apply(lhs->Const_0, e->Const_0);
                if v != G::spec_identity() {
                    rest.push(GroupTerm::Const(v))
                } else {
                    rest
                }
            } else if Self::inverse_pair(lhs, e) {
                rest
            } else {
                let (lb, le) = Self::split_power(lhs);
                let (rb, re) = Self::split_power(e);
                if lb == rb && fits_isize(le + re) {
                    if le + re != 0 {
                        rest + Self::split_term(Self::power(lb, le + re))
                    } else {
                        rest
                    }
                } else {
                    rest.push(Self::power(lb, le)).push(Self::power(rb, re))
                }
            }
        }
    }

    pub open spec fn fold_from(out: Seq<GTerm<G>>, terms: Seq<GTerm<G>>) -> Seq<GTerm<G>>
        decreases terms.len(),
    {
        if terms.len() == 0 {
            out
        } else {
            Self::fold_from(Self::fold_step(out, terms[0]), terms.drop_first())
        }
    }

    /// The structural order in which an abelian product lists its bases:
    /// constants, then symbols by name, inverses, powers, products.
    pub open spec fn rank(t: GTerm<G>) -> int {
        match t {
            GroupTerm::Const(_) => 0,
            GroupTerm::Symbol(_) => 1,
            GroupTerm::Inv(_) => 2,
            GroupTerm::Pow(_, _) => 3,
            GroupTerm::Op(_) => 4,
        }
    }

    pub open spec fn compare_ints(a: int, b: int) -> Cmp {
        if a < b {
            Cmp::Less
        } else if a > b {
            Cmp::Greater
        } else {
            Cmp::Equal
        }
    }

    pub open spec fn compare_terms(a: GTerm<G>, b: GTerm<G>) -> Cmp
        decreases a,
    {
        match (a, b) {
            (GroupTerm::Const(_), GroupTerm::Const(_)) => Cmp::Equal,
            (GroupTerm::Symbol(x), GroupTerm::Symbol(y)) => compare_chars(x, y),
            (GroupTerm::Inv(x), GroupTerm::Inv(y)) => Self::compare_terms(*x, *y),
            (GroupTerm::Pow(x, i), GroupTerm::Pow(y, j)) => {
                let c = Self::compare_terms(*x, *y);
                if c != Cmp::Equal {
                    c
                } else {
                    Self::compare_ints(i, j)
                }
            },
            (GroupTerm::Op(xs), GroupTerm::Op(ys)) => Self::compare_term_seqs(xs, ys),
            _ => Self::compare_ints(Self::rank(a), Self::rank(b)),
        }
    }

    /// Pairwise until the first difference, then by length.
    pub open spec fn compare_term_seqs(xs: Seq<GTerm<G>>, ys: Seq<GTerm<G>>) -> Cmp
        decreases xs,
    {
        if xs.len() == 0 || ys.len() == 0 {
            Self::compare_ints(xs.len() as int, ys.len() as int)
        } else {
            let c = Self::compare_terms(xs[0], ys[0]);
            if c != Cmp::Equal {
                c
            } else {
                Self::compare_term_seqs(xs.drop_first(), ys.drop_first())
            }
        }
    }

    /// Adds `b^x` to the collected powers: into the first entry with base
    /// `b` when the sum fits an `isize`, else as a new entry.
    pub open spec fn add_power(powers: Seq<(GTerm<G>, int)>, b: GTerm<G>, x: int) -> Seq<
        (GTerm<G>, int),
    > {
        if exists|j: int| 0 <= j < powers.len() && powers[j].0 == b {
            let j = choose|j: int|
                0 <= j < powers.len() && powers[j].0 == b && forall|i: int|
                    0 <= i < j ==> powers[i].0 != b;
            if fits_isize(powers[j].1 + x) {
                powers.update(j, (b, powers[j].1 + x))
            } else {
                powers.push((b, x))
            }
        } else {
            powers.push((b, x))
        }
    }

    /// The non-constant terms collected into powers, left to right.
    pub open spec fn powers_from(powers: Seq<(GTerm<G>, int)>, terms: Seq<GTerm<G>>) -> Seq<
        (GTerm<G>, int),
    >
        decreases terms.len(),
    {
        if terms.len() == 0 {
            powers
        } else {
            let next = if terms[0] is Const {
                powers
            } else {
                Self::add_power(powers, Self::split_power(terms[0]).0, Self::split_power(terms[0]).1)
            };
            Self::powers_from(next, terms.drop_first())
        }
    }

    /// The constants of `terms` folded into `acc`, left to right.
    pub open spec fn fold_consts(acc: GValue<G>, terms: Seq<GTerm<G>>) -> GValue<G>
        decreases terms.len(),
    {
        if terms.len() == 0 {
            acc
        } else {
            let next = match terms[0] {
                GroupTerm::Const(c) => G::spec_apply(acc, c),
                _ => acc,
            };
            Self::fold_consts(next, terms.drop_first())
        }
    }

    /// The powers whose exponent is not zero, in order.
    pub open spec fn nonzero_powers(powers: Seq<(GTerm<G>, int)>) -> Seq<(GTerm<G>, int)>
        decreases powers.len(),
    {
        if powers.len() == 0 {
            powers
        } else {
            (if powers[0].1 != 0 {
                seq![powers[0]]
            } else {
                Seq::empty()
            }) + Self::nonzero_powers(powers.drop_first())
        }
    }

    /// Inserts `p` into `sorted` before the first base that compares
    /// greater, so equal bases keep their order.
    pub open spec fn insert_sorted(sorted: Seq<(GTerm<G>, int)>, p: (GTerm<G>, int)) -> Seq<
        (GTerm<G>, int),
    >
        decreases sorted.len(),
    {
        if sorted.len() == 0 {
            seq![p]
        } else if Self::compare_terms(sorted[0].0, p.0) == Cmp::Greater {
            seq![p] + sorted
        } else {
            seq![sorted[0]] + Self::insert_sorted(sorted.drop_first(), p)
        }
    }

    /// The stable sort of `powers` by their bases' structural order.
    pub open spec fn sort_powers(powers: Seq<(GTerm<G>, int)>) -> Seq<(GTerm<G>, int)>
        decreases powers.len(),
    {
        if powers.len() == 0 {
            powers
        } else {
            Self::insert_sorted(Self::sort_powers(powers.drop_last()), powers.last())
        }
    }

    /// An abelian product of normal factors: all constants fold into one
    /// leading constant, exponents of equal bases add up, vanishing powers
    /// drop, and bases sort structurally.
    pub open spec fn collect_terms(terms: Seq<GTerm<G>>) -> GTerm<G> {
        let constant = Self::fold_consts(G::spec_identity(), terms);
        let powers = Self::sort_powers(
            Self::nonzero_powers(Self::powers_from(Seq::empty(), terms)),
        );
        let factors = powers.map_values(|p: (GTerm<G>, int)| Self::power(p.0, p.1));
        Self::finish_terms(
            if powers.len() == 0 || constant != G::spec_identity() {
                seq![GroupTerm::Const(constant)] + factors
            } else {
                factors
            },
        )
    }

    /// A product of normal factors: order-preserving, or abelian.
    pub open spec fn combine(terms: Seq<GTerm<G>>, abelian: bool) -> GTerm<G> {
        if abelian {
            Self::collect_terms(terms)
        } else {
            Self::finish_terms(Self::fold_from(Seq::empty(), terms))
        }
    }

    pub open spec fn size(t: GTerm<G>) -> nat
        decreases t,
    {
        match t {
            GroupTerm::Inv(b) => 1 + Self::size(*b),
            GroupTerm::Pow(b, _) => 1 + Self::size(*b),
            GroupTerm::Op(ts) => 1 + Self::sizes(ts),
            _ => 1,
        }
    }

    pub open spec fn sizes(ts: Seq<GTerm<G>>) -> nat
        decreases ts,
    {
        if ts.len() == 0 {
            0
        } else {
            Self::size(ts[0]) + Self::sizes(ts.drop_first())
        }
    }

    /// `b^k` for a constant `b`, as a constant.
    pub open spec fn pow_constant_term(b: GValue<G>, k: int) -> GTerm<G> {
        GroupTerm::Const(Self::pow_int(b, k))
    }

    pub proof fn lemma_size_positive(t: GTerm<G>)
        ensures
            Self::size(t) >= 1,
    {
    }

    pub proof fn lemma_sizes_concat(a: Seq<GTerm<G>>, b: Seq<GTerm<G>>)
        ensures
            Self::sizes(a + b) == Self::sizes(a) + Self::sizes(b),
        decreases a.len(),
    {
        if a.len() > 0 {
            Self::lemma_sizes_concat(a.drop_first(), b);
            assert((a + b).drop_first() =~= a.drop_first() + b);
        } else {
            assert(a + b =~= b);
        }
    }

    pub proof fn lemma_sizes_reverse(a: Seq<GTerm<G>>)
        ensures
            Self::sizes(a.reverse()) == Self::sizes(a),
        decreases a.len(),
    {
        if a.len() > 0 {
            Self::lemma_sizes_reverse(a.drop_first());
            assert(a.reverse() =~= a.drop_first().reverse() + seq![a[0]]);
            Self::lemma_sizes_concat(a.drop_first().reverse(), seq![a[0]]);
            assert(seq![a[0]].drop_first() =~= Seq::<GTerm<G>>::empty());
            assert(Self::sizes(seq![a[0]]) == Self::size(a[0]) + Self::sizes(seq![a[0]].drop_first()));
        }
    }

    /// The inverse of a normal term, normal.
    pub open spec fn inv_normal(y: GTerm<G>, abelian: bool) -> GTerm<G>
        decreases 2 * Self::size(y) + 1, 1int,
    {
        match y {
            GroupTerm::Const(v) => GroupTerm::Const(G::spec_inverse(v)),
            GroupTerm::Inv(z) => *z,
            GroupTerm::Pow(b, k) => if fits_isize(-k) {
                Self::pow_normal(*b, -k, abelian)
            } else {
                GroupTerm::Inv(Box::new(y))
            },
            GroupTerm::Op(ys) => {
                proof {
                    Self::lemma_sizes_reverse(ys);
                }
                Self::combine(Self::flatten_terms(Self::inv_normals(ys.reverse(), abelian)), abelian)
            },
            _ => GroupTerm::Inv(Box::new(y)),
        }
    }

    pub open spec fn inv_normals(ys: Seq<GTerm<G>>, abelian: bool) -> Seq<GTerm<G>>
        decreases 2 * Self::sizes(ys) + 1, 2int,
    {
        if ys.len() == 0 {
            Seq::empty()
        } else {
            proof {
                Self::lemma_size_positive(ys[0]);
            }
            seq![Self::inv_normal(ys[0], abelian)] + Self::inv_normals(ys.drop_first(), abelian)
        }
    }

    /// `y^k` for a normal term `y` and a nonzero `k`, normal.
    pub open spec fn pow_normal(y: GTerm<G>, k: int, abelian: bool) -> GTerm<G>
        decreases 2 * Self::size(y) + 2, 1int,
    {
        match y {
            GroupTerm::Const(v) => Self::pow_constant_term(v, k),
            _ => if k == 1 {
                y
            } else if k == -1 {
                Self::inv_normal(y, abelian)
            } else {
                match y {
                    GroupTerm::Pow(b, j) => if fits_isize(j * k) {
                        Self::pow_normal(*b, j * k, abelian)
                    } else {
                        GroupTerm::Pow(Box::new(y), k)
                    },
                    GroupTerm::Inv(b) => if fits_isize(-k) {
                        Self::pow_normal(*b, -k, abelian)
                    } else {
                        GroupTerm::Pow(Box::new(y), k)
                    },
                    GroupTerm::Op(ys) => if abelian {
                        Self::combine(Self::flatten_terms(Self::pow_normals(ys, k, abelian)), true)
                    } else {
                        GroupTerm::Pow(Box::new(y), k)
                    },
                    _ => GroupTerm::Pow(Box::new(y), k),
                }
            },
        }
    }

    pub open spec fn pow_normals(ys: Seq<GTerm<G>>, k: int, abelian: bool) -> Seq<GTerm<G>>
        decreases 2 * Self::sizes(ys) + 2, 2int,
    {
        if ys.len() == 0 {
            Seq::empty()
        } else {
            proof {
                Self::lemma_size_positive(ys[0]);
            }
            seq![Self::pow_normal(ys[0], k, abelian)] + Self::pow_normals(ys.drop_first(), k, abelian)
        }
    }

    /// The normal form under the group laws (and commutativity when
    /// `abelian`).
    pub open spec fn normal_form(t: GTerm<G>, abelian: bool) -> GTerm<G>
        decreases t,
    {
        match t {
            GroupTerm::Inv(x) => Self::inv_normal(Self::normal_form(*x, abelian), abelian),
            GroupTerm::Op(ts) => Self::combine(
                Self::flatten_terms(Self::normal_forms(ts, abelian)),
                abelian,
            ),
            GroupTerm::Pow(b, k) => if k == 0 {
                Self::identity_term()
            } else {
                Self::pow_normal(Self::normal_form(*b, abelian), k, abelian)
            },
            _ => t,
        }
    }

    pub open spec fn normal_forms(ts: Seq<GTerm<G>>, abelian: bool) -> Seq<GTerm<G>>
        decreases ts,
    {
        if ts.len() == 0 {
            Seq::empty()
        } else {
            seq![Self::normal_form(ts[0], abelian)] + Self::normal_forms(ts.drop_first(), abelian)
        }
    }
}

/// The view of collected powers.
pub open spec fn power_views<G: Group>(s: Seq<(GroupExpr<G>, isize)>) -> Seq<(GTerm<G>, int)> {
    s.map_values(|p: (GroupExpr<G>, isize)| (GroupExpr::<G>::term(p.0), p.1 as int))
}

impl<G: Group> GroupExpr<G> {
    /// A copy of the expression.
    pub fn duplicate(&self) -> (r: Self)
        ensures
            r@ == self@,
        decreases self,
    {
        match self {
            GroupExpr::Const(c) => GroupExpr::Const(c.duplicate()),
            GroupExpr::Symbol(s) => GroupExpr::Symbol(s.clone()),
            GroupExpr::Inv(inner) => GroupExpr::Inv(Box::new(inner.duplicate())),
            GroupExpr::Pow { base, exponent } => GroupExpr::Pow {
                base: Box::new(base.duplicate()),
                exponent: *exponent,
            },
            GroupExpr::Op(v) => {
                let mut out: Vec<Self> = Vec::new();
                let mut i: usize = 0;
                while i < v.len()
                    invariant
                        *self == GroupExpr::<G>::Op(*v),
                        i <= v.len(),
                        Self::terms(out@) == Self::terms(v@.take(i as int)),
                    decreases v.len() - i,
                {
                    proof {
                        assert(decreases_to!(*self => self->Op_0));
                        assert(decreases_to!(v => v@));
                        assert(decreases_to!(v@ => v@[i as int]));
                    }
                    let c = v[i].duplicate();
                    proof {
                        Self::lemma_terms_push(out@, c);
                        Self::lemma_terms_push(v@.take(i as int), v@[i as int]);
                        assert(v@.take(i + 1) =~= v@.take(i as int).push(v@[i as int]));
                    }
                    out.push(c);
                    i = i + 1;
                }
                proof {
                    assert(v@.take(v.len() as int) =~= v@);
                }
                GroupExpr::Op(out)
            },
        }
    }

    /// Structural equality of the mathematical content.
    pub fn equals(&self, other: &Self) -> (r: bool)
        ensures
            r == (self@ == other@),
        decreases self,
    {
        match (self, other) {
            (GroupExpr::Const(a), GroupExpr::Const(b)) => a.equals(b),
            (GroupExpr::Symbol(a), GroupExpr::Symbol(b)) => a.same(b),
            (GroupExpr::Inv(a), GroupExpr::Inv(b)) => a.equals(b),
            (
                GroupExpr::Pow { base: a, exponent: i },
                GroupExpr::Pow { base: b, exponent: j },
            ) => *i == *j && a.equals(b),
            (GroupExpr::Op(a), GroupExpr::Op(b)) => {
                proof {
                    Self::lemma_terms(a@);
                    Self::lemma_terms(b@);
                }
                if a.len() != b.len() {
                    return false;
                }
                let mut i: usize = 0;
                while i < a.len()
                    invariant
                        *self == GroupExpr::<G>::Op(*a),
                        *other == GroupExpr::<G>::Op(*b),
                        i <= a.len(),
                        a.len() == b.len(),
                        Self::terms(a@).len() == a.len(),
                        Self::terms(b@).len() == b.len(),
                        forall|j: int| 0 <= j < a.len() ==> #[trigger] Self::terms(a@)[j] == Self::term(a@[j]),
                        forall|j: int| 0 <= j < b.len() ==> #[trigger] Self::terms(b@)[j] == Self::term(b@[j]),
                        forall|j: int| 0 <= j < i ==> Self::term(#[trigger] a@[j]) == Self::term(b@[j]),
                    decreases a.len() - i,
                {
                    proof {
                        assert(decreases_to!(*self => self->Op_0));
                        assert(decreases_to!(a => a@));
                        assert(decreases_to!(a@ => a@[i as int]));
                    }
                    if !a[i].equals(&b[i]) {
                        proof {
                            assert(Self::terms(a@)[i as int] != Self::terms(b@)[i as int]);
                            assert(self@ == GroupTerm::<GValue<G>>::Op(Self::terms(a@)));
                            assert(other@ == GroupTerm::<GValue<G>>::Op(Self::terms(b@)));
                            assert(Self::terms(a@) != Self::terms(b@));
                        }
                        return false;
                    }
                    i = i + 1;
                }
                proof {
                    assert(Self::terms(a@) =~= Self::terms(b@));
                }
                true
            },
            _ => false,
        }
    }

    fn split_power_exec(self) -> (r: (Self, isize))
        ensures
            (r.0@, r.1 as int) == Self::split_power(self@),
    {
        match self {
            GroupExpr::Inv(base) => (*base, -1),
            GroupExpr::Pow { base, exponent } => (*base, exponent),
            base => (base, 1),
        }
    }

    fn power_exec(b: Self, k: isize) -> (r: Self)
        ensures
            r@ == Self::power(b@, k as int),
    {
        if k == 0 {
            GroupExpr::Const(G::identity())
        } else if k == 1 {
            b
        } else if k == -1 {
            GroupExpr::Inv(Box::new(b))
        } else {
            GroupExpr::Pow { base: Box::new(b), exponent: k }
        }
    }

    /// `b^k` for a constant `b`, by repeated squaring.
    fn pow_constant(b: G::Domain, k: isize) -> (r: Self)
        ensures
            r@ == Self::pow_constant_term(b@, k as int),
    {
        let ghost b0 = if k < 0 {
            G::spec_inverse(b@)
        } else {
            b@
        };
        let mut base = if k < 0 {
            G::inverse(b)
        } else {
            b
        };
        let n0: u64 = if k < 0 {
            (0i128 - k as i128) as u64
        } else {
            k as u64
        };
        let mut n: u64 = n0;
        let mut value = G::identity();
        proof {
            G::lemma_identity(Self::pow_nat(b0, n0 as nat));
        }
        while n != 0
            invariant
                G::spec_apply(value@, Self::pow_nat(base@, n as nat)) == Self::pow_nat(b0, n0 as nat),
            decreases n,
        {
            let ghost m = (n / 2) as nat;
            proof {
                Self::lemma_pow_square(base@, m);
                if n % 2 == 1 {
                    Self::lemma_pow_add(base@, 1, 2 * m);
                    assert(1 + 2 * m == n as nat);
                    assert(Self::pow_nat(base@, 0) == G::spec_identity());
                    assert(Self::pow_nat(base@, 1) == G::spec_apply(Self::pow_nat(base@, 0), base@));
                    G::lemma_identity(base@);
                    G::lemma_associative(value@, base@, Self::pow_nat(base@, 2 * m));
                } else {
                    assert(2 * m == n as nat);
                }
            }
            if n % 2 == 1 {
                let copy = base.duplicate();
                value = G::apply(value, copy);
            }
            n = n / 2;
            if n != 0 {
                let copy = base.duplicate();
                base = G::apply(base, copy);
            } else {
                proof {
                    assert(Self::pow_nat(base@, 0) == G::spec_identity());
                    assert(Self::pow_nat(G::spec_apply(base@, base@), 0) == G::spec_identity());
                }
            }
        }
        proof {
            G::lemma_identity(value@);
            assert(Self::pow_nat(base@, 0) == G::spec_identity());
        }
        GroupExpr::Const(value)
    }

    fn finish(exprs: Vec<Self>) -> (r: Self)
        ensures
            r@ == Self::finish_terms(Self::terms(exprs@)),
    {
        proof {
            Self::lemma_terms(exprs@);
        }
        let mut exprs = exprs;
        if exprs.len() == 0 {
            GroupExpr::Const(G::identity())
        } else if exprs.len() == 1 {
            exprs.pop().unwrap()
        } else {
            GroupExpr::Op(exprs)
        }
    }

    fn flatten(exprs: Vec<Self>) -> (r: Vec<Self>)
        ensures
            Self::terms(r@) == Self::flatten_terms(Self::terms(exprs@)),
    {
        let ghost all = exprs@;
        let mut rest = exprs;
        let mut out: Vec<Self> = Vec::new();
        proof {
            assert(Self::terms(out@) + Self::flatten_terms(Self::terms(rest@)) =~= Self::flatten_terms(Self::terms(all)));
        }
        while rest.len() > 0
            invariant
                Self::terms(out@) + Self::flatten_terms(Self::terms(rest@)) == Self::flatten_terms(
                    Self::terms(all),
                ),
            decreases rest.len(),
        {
            let ghost before = rest@;
            let ghost out_before = out@;
            let item = rest.remove(0);
            proof {
                assert(rest@ =~= before.drop_first());
                assert(Self::terms(before) == seq![Self::term(item)] + Self::terms(rest@));
                let tb = Self::terms(before);
                assert(tb[0] == Self::term(item));
                assert(tb.drop_first() =~= Self::terms(rest@));
                assert(Self::flatten_terms(tb) == Self::split_term(Self::term(item))
                    + Self::flatten_terms(Self::terms(rest@)));
            }
            match item {
                GroupExpr::Op(mut inner) => {
                    proof {
                        Self::lemma_terms_concat(out_before, inner@);
                        assert(Self::split_term(Self::term(GroupExpr::Op(inner))) == Self::terms(inner@));
                    }
                    out.append(&mut inner);
                },
                other => {
                    proof {
                        Self::lemma_terms_push(out_before, other);
                        assert(Self::split_term(Self::term(other)) == seq![Self::term(other)]);
                        assert(Self::terms(out_before).push(Self::term(other)) =~= Self::terms(out_before) + seq![Self::term(other)]);
                    }
                    out.push(other);
                },
            }
            proof {
                assert(Self::terms(out@) + Self::flatten_terms(Self::terms(rest@)) =~= Self::terms(
                    out_before,
                ) + Self::flatten_terms(Self::terms(before)));
            }
        }
        proof {
            assert(Self::terms(out@) + Self::flatten_terms(Self::terms(rest@)) =~= Self::terms(out@));
        }
        out
    }

    fn is_identity(e: &Self) -> (r: bool)
        ensures
            r == (e@ == Self::identity_term()),
    {
        match e {
            GroupExpr::Const(c) => {
                let id = G::identity();
                c.equals(&id)
            },
            _ => false,
        }
    }

    fn inverse_pair_exec(l: &Self, r: &Self) -> (b: bool)
        ensures
            b == Self::inverse_pair(l@, r@),
    {
        let first = match l {
            GroupExpr::Inv(a) => a.equals(r),
            _ => false,
        };
        let second = match r {
            GroupExpr::Inv(a) => a.equals(l),
            _ => false,
        };
        first || second
    }
}

impl<G: Group> GroupExpr<G> {
    pub proof fn lemma_size_le_sizes(ts: Seq<GTerm<G>>, i: int)
        requires
            0 <= i < ts.len(),
        ensures
            Self::size(ts[i]) <= Self::sizes(ts),
        decreases ts.len(),
    {
        if i > 0 {
            Self::lemma_size_le_sizes(ts.drop_first(), i - 1);
            assert(ts.drop_first()[i - 1] == ts[i]);
        }
    }

    /// Order-preserving product of normal factors; see [`Self::fold_step`].
    fn fold_adjacent(exprs: Vec<Self>) -> (r: Self)
        ensures
            r@ == Self::finish_terms(Self::fold_from(Seq::empty(), Self::terms(exprs@))),
    {
        let ghost all = exprs@;
        let mut rest = exprs;
        let mut out: Vec<Self> = Vec::new();
        while rest.len() > 0
            invariant
                Self::fold_from(Self::terms(out@), Self::terms(rest@)) == Self::fold_from(
                    Seq::empty(),
                    Self::terms(all),
                ),
            decreases rest.len(),
        {
            let ghost before = rest@;
            let ghost out_before = out@;
            let item = rest.remove(0);
            let ghost ti = Self::term(item);
            let ghost to = Self::terms(out_before);
            proof {
                assert(rest@ =~= before.drop_first());
                let tb = Self::terms(before);
                assert(tb == seq![ti] + Self::terms(rest@));
                assert(tb[0] == ti);
                assert(tb.drop_first() =~= Self::terms(rest@));
                Self::lemma_terms(out_before);
            }
            if Self::is_identity(&item) {
            } else if out.len() == 0 {
                proof {
                    Self::lemma_terms_push(out_before, item);
                }
                out.push(item);
            } else {
                let lhs = out.pop().unwrap();
                proof {
                    Self::lemma_terms_drop_last(out_before);
                    assert(out@ == out_before.drop_last());
                }
                let ghost rest_out = out@;
                let lhs_const = match &lhs {
                    GroupExpr::Const(_) => true,
                    _ => false,
                };
                let item_const = match &item {
                    GroupExpr::Const(_) => true,
                    _ => false,
                };
                if lhs_const && item_const {
                    match (lhs, item) {
                        (GroupExpr::Const(a), GroupExpr::Const(b)) => {
                            let v = G::apply(a, b);
                            let id = G::identity();
                            if !v.equals(&id) {
                                proof {
                                    Self::lemma_terms_push(rest_out, GroupExpr::Const(v));
                                }
                                out.push(GroupExpr::Const(v));
                            }
                        },
                        _ => {},
                    }
                } else if Self::inverse_pair_exec(&lhs, &item) {
                } else {
                    let (lb, le) = lhs.split_power_exec();
                    let (rb, re) = item.split_power_exec();
                    if lb.equals(&rb) {
                        match le.checked_add(re) {
                            Some(sum) => {
                                if sum != 0 {
                                    let p = Self::power_exec(lb, sum);
                                    match p {
                                        GroupExpr::Op(mut inner) => {
                                            let ghost spliced = inner@;
                                            out.append(&mut inner);
                                            proof {
                                                Self::lemma_terms_concat(rest_out, spliced);
                                                assert(out@ == rest_out + spliced);
                                            }
                                        },
                                        other => {
                                            proof {
                                                Self::lemma_terms_push(rest_out, other);
                                                assert(Self::terms(rest_out).push(Self::term(other))
                                                    =~= Self::terms(rest_out) + Self::split_term(
                                                    Self::term(other),
                                                ));
                                            }
                                            out.push(other);
                                        },
                                    }
                                }
                            },
                            None => {
                                let p = Self::power_exec(lb, le);
                                let q = Self::power_exec(rb, re);
                                proof {
                                    Self::lemma_terms_push(rest_out, p);
                                    Self::lemma_terms_push(rest_out.push(p), q);
                                }
                                out.push(p);
                                out.push(q);
                            },
                        }
                    } else {
                        let p = Self::power_exec(lb, le);
                        let q = Self::power_exec(rb, re);
                        proof {
                            Self::lemma_terms_push(rest_out, p);
                            Self::lemma_terms_push(rest_out.push(p), q);
                        }
                        out.push(p);
                        out.push(q);
                    }
                }
            }
            proof {
                assert(Self::terms(out@) == Self::fold_step(to, ti));
            }
        }
        Self::finish(out)
    }

    fn compare_isize(a: isize, b: isize) -> (r: Cmp)
        ensures
            r == Self::compare_ints(a as int, b as int),
    {
        if a < b {
            Cmp::Less
        } else if a > b {
            Cmp::Greater
        } else {
            Cmp::Equal
        }
    }

    fn rank_exec(e: &Self) -> (r: u8)
        ensures
            r as int == Self::rank(e@),
    {
        match e {
            GroupExpr::Const(_) => 0,
            GroupExpr::Symbol(_) => 1,
            GroupExpr::Inv(_) => 2,
            GroupExpr::Pow { .. } => 3,
            GroupExpr::Op(_) => 4,
        }
    }

    /// The structural order of [`Self::compare_terms`].
    fn compare_structural(a: &Self, b: &Self) -> (r: Cmp)
        ensures
            r == Self::compare_terms(a@, b@),
        decreases a,
    {
        match (a, b) {
            (GroupExpr::Const(_), GroupExpr::Const(_)) => Cmp::Equal,
            (GroupExpr::Symbol(x), GroupExpr::Symbol(y)) => x.compare(y),
            (GroupExpr::Inv(x), GroupExpr::Inv(y)) => Self::compare_structural(x, y),
            (GroupExpr::Pow { base: x, exponent: i }, GroupExpr::Pow { base: y, exponent: j }) => {
                let c = Self::compare_structural(x, y);
                if c != Cmp::Equal {
                    c
                } else {
                    Self::compare_isize(*i, *j)
                }
            },
            (GroupExpr::Op(xs), GroupExpr::Op(ys)) => {
                let ghost tx = Self::terms(xs@);
                let ghost ty = Self::terms(ys@);
                proof {
                    assert(a@ == GroupTerm::<GValue<G>>::Op(tx));
                    assert(b@ == GroupTerm::<GValue<G>>::Op(ty));
                    Self::lemma_terms(xs@);
                    Self::lemma_terms(ys@);
                    assert(tx.skip(0) =~= tx);
                    assert(ty.skip(0) =~= ty);
                }
                let mut i: usize = 0;
                while i < xs.len() && i < ys.len()
                    invariant
                        *a == GroupExpr::<G>::Op(*xs),
                        *b == GroupExpr::<G>::Op(*ys),
                        a@ == GroupTerm::<GValue<G>>::Op(tx),
                        b@ == GroupTerm::<GValue<G>>::Op(ty),
                        tx == Self::terms(xs@),
                        ty == Self::terms(ys@),
                        tx.len() == xs.len(),
                        ty.len() == ys.len(),
                        forall|j: int| 0 <= j < xs.len() ==> #[trigger] tx[j] == Self::term(xs@[j]),
                        forall|j: int| 0 <= j < ys.len() ==> #[trigger] ty[j] == Self::term(ys@[j]),
                        i <= xs.len(),
                        i <= ys.len(),
                        Self::compare_term_seqs(tx, ty) == Self::compare_term_seqs(
                            tx.skip(i as int),
                            ty.skip(i as int),
                        ),
                    decreases xs.len() - i,
                {
                    proof {
                        assert(decreases_to!(*a => a->Op_0));
                        assert(decreases_to!(xs => xs@));
                        assert(decreases_to!(xs@ => xs@[i as int]));
                        assert(tx.skip(i as int)[0] == tx[i as int]);
                        assert(ty.skip(i as int)[0] == ty[i as int]);
                        assert(tx.skip(i as int).drop_first() =~= tx.skip(i + 1));
                        assert(ty.skip(i as int).drop_first() =~= ty.skip(i + 1));
                    }
                    let c = Self::compare_structural(&xs[i], &ys[i]);
                    if c != Cmp::Equal {
                        return c;
                    }
                    i = i + 1;
                }
                proof {
                    assert(tx.skip(i as int).len() == 0 || ty.skip(i as int).len() == 0);
                }
                if xs.len() < ys.len() {
                    Cmp::Less
                } else if xs.len() > ys.len() {
                    Cmp::Greater
                } else {
                    Cmp::Equal
                }
            },
            _ => {
                let ra = Self::rank_exec(a);
                let rb = Self::rank_exec(b);
                if ra < rb {
                    Cmp::Less
                } else if ra > rb {
                    Cmp::Greater
                } else {
                    Cmp::Equal
                }
            },
        }
    }
}

impl<G: Group> GroupExpr<G> {
    pub proof fn lemma_insert_sorted(sorted: Seq<(GTerm<G>, int)>, p: (GTerm<G>, int), pos: int)
        requires
            0 <= pos <= sorted.len(),
            forall|j: int| 0 <= j < pos ==> Self::compare_terms(#[trigger] sorted[j].0, p.0) != Cmp::Greater,
            pos < sorted.len() ==> Self::compare_terms(sorted[pos].0, p.0) == Cmp::Greater,
        ensures
            Self::insert_sorted(sorted, p) == sorted.insert(pos, p),
        decreases sorted.len(),
    {
        if sorted.len() == 0 {
            assert(sorted.insert(pos, p) =~= seq![p]);
        } else if pos == 0 {
            assert(sorted.insert(0, p) =~= seq![p] + sorted);
        } else {
            Self::lemma_insert_sorted(sorted.drop_first(), p, pos - 1);
            assert(sorted.insert(pos, p) =~= seq![sorted[0]] + sorted.drop_first().insert(pos - 1, p));
        }
    }

    /// Adds `b^x` to the collected powers; see [`Self::add_power`].
    fn add_power_exec(powers: &mut Vec<(Self, isize)>, b: Self, x: isize)
        ensures
            power_views(final(powers)@) == Self::add_power(power_views(old(powers)@), b@, x as int),
    {
        let ghost pv = power_views(powers@);
        let mut j: usize = 0;
        while j < powers.len()
            invariant
                j <= powers.len(),
                pv == power_views(powers@),
                forall|i: int| 0 <= i < j ==> pv[i].0 != b@,
            ensures
                j <= powers.len(),
                forall|i: int| 0 <= i < j ==> pv[i].0 != b@,
                j < powers.len() ==> pv[j as int].0 == b@,
            decreases powers.len() - j,
        {
            if powers[j].0.equals(&b) {
                break;
            }
            j = j + 1;
        }
        if j < powers.len() {
            proof {
                let k = choose|k: int|
                    0 <= k < pv.len() && pv[k].0 == b@ && forall|i: int| 0 <= i < k ==> pv[i].0 != b@;
                assert(0 <= j < pv.len() && pv[j as int].0 == b@ && forall|i: int| 0 <= i < j ==> pv[i].0 != b@);
                if k < j {
                    assert(pv[k].0 != b@);
                }
                if j < k {
                    assert(pv[j as int].0 != b@);
                }
                assert(k == j);
            }
            let current = powers[j].1;
            match current.checked_add(x) {
                Some(sum) => {
                    proof {
                        assert(power_views(powers@.update(j as int, (b, sum))) =~= pv.update(j as int, (b@, pv[j as int].1 + x)));
                    }
                    powers.set(j, (b, sum));
                },
                None => {
                    proof {
                        assert(power_views(powers@.push((b, x))) =~= pv.push((b@, x as int)));
                    }
                    powers.push((b, x));
                },
            }
        } else {
            proof {
                assert(power_views(powers@.push((b, x))) =~= pv.push((b@, x as int)));
            }
            powers.push((b, x));
        }
    }

    /// The constants folded, and the other factors collected into powers.
    fn gather_powers(exprs: Vec<Self>) -> (r: (G::Domain, Vec<(Self, isize)>))
        ensures
            r.0@ == Self::fold_consts(G::spec_identity(), Self::terms(exprs@)),
            power_views(r.1@) == Self::powers_from(Seq::empty(), Self::terms(exprs@)),
    {
        let ghost all = Self::terms(exprs@);
        let mut rest = exprs;
        let mut constant = G::identity();
        let mut powers: Vec<(Self, isize)> = Vec::new();
        proof {
            assert(power_views(powers@) =~= Seq::<(GTerm<G>, int)>::empty());
        }
        while rest.len() > 0
            invariant
                Self::fold_consts(constant@, Self::terms(rest@)) == Self::fold_consts(G::spec_identity(), all),
                Self::powers_from(power_views(powers@), Self::terms(rest@)) == Self::powers_from(Seq::empty(), all),
            decreases rest.len(),
        {
            let ghost before = rest@;
            let item = rest.remove(0);
            proof {
                assert(rest@ =~= before.drop_first());
                let tb = Self::terms(before);
                assert(tb == seq![Self::term(item)] + Self::terms(rest@));
                assert(tb[0] == Self::term(item));
                assert(tb.drop_first() =~= Self::terms(rest@));
            }
            match item {
                GroupExpr::Const(v) => {
                    constant = G::apply(constant, v);
                },
                e => {
                    let (b, x) = e.split_power_exec();
                    Self::add_power_exec(&mut powers, b, x);
                },
            }
        }
        (constant, powers)
    }

    /// The powers whose exponent is not zero.
    fn drop_vanishing(powers: Vec<(Self, isize)>) -> (r: Vec<(Self, isize)>)
        ensures
            power_views(r@) == Self::nonzero_powers(power_views(powers@)),
    {
        let ghost collected = power_views(powers@);
        let mut kept: Vec<(Self, isize)> = Vec::new();
        let mut rest_p = powers;
        proof {
            assert(power_views(kept@) + Self::nonzero_powers(power_views(rest_p@)) =~= Self::nonzero_powers(collected));
        }
        while rest_p.len() > 0
            invariant
                power_views(kept@) + Self::nonzero_powers(power_views(rest_p@)) == Self::nonzero_powers(collected),
            decreases rest_p.len(),
        {
            let ghost before = rest_p@;
            let p = rest_p.remove(0);
            proof {
                assert(rest_p@ =~= before.drop_first());
                assert(power_views(before)[0] == (Self::term(p.0), p.1 as int));
                assert(power_views(before).drop_first() =~= power_views(rest_p@));
            }
            if p.1 != 0 {
                proof {
                    assert(power_views(kept@.push(p)) =~= power_views(kept@).push((Self::term(p.0), p.1 as int)));
                    assert(power_views(kept@).push((Self::term(p.0), p.1 as int)) + Self::nonzero_powers(power_views(rest_p@))
                        =~= power_views(kept@) + Self::nonzero_powers(power_views(before)));
                }
                kept.push(p);
            } else {
                proof {
                    assert(Self::nonzero_powers(power_views(before)) =~= Self::nonzero_powers(power_views(rest_p@)));
                }
            }
        }
        proof {
            assert(power_views(kept@) + Self::nonzero_powers(power_views(rest_p@)) =~= power_views(kept@));
        }
        kept
    }

    /// The stable insertion sort of powers by base.
    fn sort_powers_exec(kept: Vec<(Self, isize)>) -> (r: Vec<(Self, isize)>)
        ensures
            power_views(r@) == Self::sort_powers(power_views(kept@)),
    {
        let ghost unsorted = power_views(kept@);
        let mut sorted: Vec<(Self, isize)> = Vec::new();
        let mut rest_s = kept;
        proof {
            assert(unsorted.take(0) =~= Seq::<(GTerm<G>, int)>::empty());
            assert(power_views(sorted@) =~= Self::sort_powers(unsorted.take(0)));
            assert(unsorted.skip(0) =~= unsorted);
        }
        while rest_s.len() > 0
            invariant
                rest_s@.len() <= unsorted.len(),
                power_views(rest_s@) == unsorted.skip(unsorted.len() - rest_s@.len()),
                power_views(sorted@) == Self::sort_powers(unsorted.take(unsorted.len() - rest_s@.len())),
            decreases rest_s.len(),
        {
            let ghost before = rest_s@;
            let ghost k = unsorted.len() - before.len();
            let p = rest_s.remove(0);
            let ghost sv = power_views(sorted@);
            let ghost pv = (Self::term(p.0), p.1 as int);
            proof {
                assert(rest_s@ =~= before.drop_first());
                assert(power_views(before)[0] == pv);
                assert(unsorted.skip(k)[0] == unsorted[k]);
                assert(unsorted[k] == pv);
                assert(power_views(rest_s@) =~= power_views(before).drop_first());
                assert(power_views(before).drop_first() =~= unsorted.skip(k + 1));
            }
            let mut pos: usize = 0;
            while pos < sorted.len()
                invariant
                    pos <= sorted.len(),
                    sv == power_views(sorted@),
                    pv == (Self::term(p.0), p.1 as int),
                    forall|j: int| 0 <= j < pos ==> Self::compare_terms(#[trigger] sv[j].0, pv.0) != Cmp::Greater,
                ensures
                    pos <= sorted.len(),
                    forall|j: int| 0 <= j < pos ==> Self::compare_terms(#[trigger] sv[j].0, pv.0) != Cmp::Greater,
                    pos < sorted.len() ==> Self::compare_terms(sv[pos as int].0, pv.0) == Cmp::Greater,
                decreases sorted.len() - pos,
            {
                proof {
                    assert(sv[pos as int] == (Self::term(sorted@[pos as int].0), sorted@[pos as int].1 as int));
                }
                if Self::compare_structural(&sorted[pos].0, &p.0) == Cmp::Greater {
                    break;
                }
                pos = pos + 1;
            }
            proof {
                Self::lemma_insert_sorted(sv, pv, pos as int);
                assert(power_views(sorted@.insert(pos as int, p)) =~= sv.insert(pos as int, pv));
                assert(unsorted.take(k + 1).drop_last() =~= unsorted.take(k));
                assert(unsorted.take(k + 1).last() == pv);
            }
            sorted.insert(pos, p);
        }
        proof {
            assert(unsorted.take(unsorted.len() as int) =~= unsorted);
        }
        sorted
    }

    /// Abelian product of normal factors; see [`Self::collect_terms`].
    fn collect_powers(exprs: Vec<Self>) -> (r: Self)
        ensures
            r@ == Self::collect_terms(Self::terms(exprs@)),
    {
        let (constant, powers) = Self::gather_powers(exprs);
        let kept = Self::drop_vanishing(powers);
        let sorted = Self::sort_powers_exec(kept);
        let ghost sorted_v = power_views(sorted@);
        let ghost factors = sorted_v.map_values(|p: (GTerm<G>, int)| Self::power(p.0, p.1));
        let mut out: Vec<Self> = Vec::new();
        let id = G::identity();
        let keep = sorted.len() == 0 || !constant.equals(&id);
        let ghost cv = constant@;
        if keep {
            proof {
                Self::lemma_terms_push(out@, GroupExpr::Const(constant));
            }
            out.push(GroupExpr::Const(constant));
        }
        let ghost head = Self::terms(out@);
        let mut rest_f = sorted;
        proof {
            assert(Self::terms(out@) =~= head + factors.take(0));
            assert(sorted_v.skip(0) =~= sorted_v);
        }
        while rest_f.len() > 0
            invariant
                rest_f@.len() <= sorted_v.len(),
                factors == sorted_v.map_values(|p: (GTerm<G>, int)| Self::power(p.0, p.1)),
                factors.len() == sorted_v.len(),
                power_views(rest_f@) == sorted_v.skip(sorted_v.len() - rest_f@.len()),
                Self::terms(out@) == head + factors.take(sorted_v.len() - rest_f@.len()),
            decreases rest_f.len(),
        {
            let ghost before = rest_f@;
            let ghost k = sorted_v.len() - before.len();
            let (b, e) = rest_f.remove(0);
            proof {
                assert(rest_f@ =~= before.drop_first());
                assert(power_views(before)[0] == (Self::term(b), e as int));
                assert(sorted_v.skip(k)[0] == sorted_v[k]);
                assert(power_views(rest_f@) =~= power_views(before).drop_first());
            }
            let f = Self::power_exec(b, e);
            proof {
                Self::lemma_terms_push(out@, f);
                assert(sorted_v[k] == (Self::term(b), e as int));
                assert(factors[k] == Self::power(sorted_v[k].0, sorted_v[k].1));
                assert(factors.take(k + 1) =~= factors.take(k).push(f@));
            }
            out.push(f);
        }
        proof {
            assert(factors.take(sorted_v.len() as int) =~= factors);
            if keep {
                assert(head =~= seq![GroupTerm::Const(cv)]);
            } else {
                assert(head =~= Seq::<GTerm<G>>::empty());
                assert(head + factors =~= factors);
            }
        }
        Self::finish(out)
    }

    fn combine_exec(exprs: Vec<Self>, abelian: bool) -> (r: Self)
        ensures
            r@ == Self::combine(Self::terms(exprs@), abelian),
    {
        if abelian {
            Self::collect_powers(exprs)
        } else {
            Self::fold_adjacent(exprs)
        }
    }
}

impl<G: Group> GroupExpr<G> {
    /// The inverse of a normal expression; see [`Self::inv_normal`].
    #[verifier::loop_isolation(false)]
    fn inv_normal_exec(y: Self, abelian: bool) -> (r: Self)
        ensures
            r@ == Self::inv_normal(y@, abelian),
        decreases 2 * Self::size(y@) + 1, 1int,
    {
        let ghost yv = y@;
        match y {
            GroupExpr::Const(v) => GroupExpr::Const(G::inverse(v)),
            GroupExpr::Inv(z) => *z,
            GroupExpr::Pow { base, exponent } => match 0isize.checked_sub(exponent) {
                Some(k) => Self::pow_normal_exec(*base, k, abelian),
                None => GroupExpr::Inv(Box::new(GroupExpr::Pow { base, exponent })),
            },
            GroupExpr::Op(ys) => {
                let ghost tys = Self::terms(ys@);
                let mut ys = ys;
                let mut rev: Vec<Self> = Vec::new();
                proof {
                    Self::lemma_terms(ys@);
                }
                while ys.len() > 0
                    invariant
                        Self::terms(ys@) + Self::terms(rev@).reverse() == tys,
                    decreases ys.len(),
                {
                    let ghost before = ys@;
                    let ghost rb = rev@;
                    let item = ys.pop().unwrap();
                    proof {
                        Self::lemma_terms_drop_last(before);
                        Self::lemma_terms_push(rb, item);
                        assert(Self::terms(rb).push(Self::term(item)).reverse() =~= seq![Self::term(item)] + Self::terms(rb).reverse());
                        assert(Self::terms(before) =~= Self::terms(before.drop_last()).push(Self::term(item)));
                    }
                    rev.push(item);
                }
                proof {
                    assert(Self::terms(rev@).reverse().reverse() =~= Self::terms(rev@));
                    assert(Self::terms(rev@) =~= tys.reverse());
                    Self::lemma_sizes_reverse(tys);
                }
                let ghost trev = Self::terms(rev@);
                let mut rest = rev;
                let mut done: Vec<Self> = Vec::new();
                while rest.len() > 0
                    invariant
                        Self::terms(done@) + Self::inv_normals(Self::terms(rest@), abelian)
                            == Self::inv_normals(trev, abelian),
                        Self::sizes(Self::terms(rest@)) <= Self::sizes(trev),
                        Self::sizes(trev) == Self::sizes(tys),
                        yv == GroupTerm::<GValue<G>>::Op(tys),
                    decreases rest.len(),
                {
                    let ghost before = rest@;
                    let item = rest.remove(0);
                    proof {
                        assert(rest@ =~= before.drop_first());
                        let tb = Self::terms(before);
                        assert(tb == seq![Self::term(item)] + Self::terms(rest@));
                        assert(tb[0] == Self::term(item));
                        assert(tb.drop_first() =~= Self::terms(rest@));
                        assert(Self::sizes(tb) == Self::size(Self::term(item)) + Self::sizes(Self::terms(rest@)));
                        Self::lemma_size_positive(Self::term(item));
                        assert(Self::size(yv) == 1 + Self::sizes(tys));
                    }
                    let n = Self::inv_normal_exec(item, abelian);
                    proof {
                        Self::lemma_terms_push(done@, n);
                        assert(Self::terms(done@).push(n@) + Self::inv_normals(Self::terms(rest@), abelian)
                            =~= Self::terms(done@) + Self::inv_normals(Self::terms(before), abelian));
                    }
                    done.push(n);
                }
                proof {
                    assert(Self::terms(done@) + Self::inv_normals(Self::terms(rest@), abelian) =~= Self::terms(done@));
                }
                let flat = Self::flatten(done);
                Self::combine_exec(flat, abelian)
            },
            other => GroupExpr::Inv(Box::new(other)),
        }
    }

    /// `y^k` for a normal expression `y`; see [`Self::pow_normal`].
    fn pow_normal_exec(y: Self, k: isize, abelian: bool) -> (r: Self)
        ensures
            r@ == Self::pow_normal(y@, k as int, abelian),
        decreases 2 * Self::size(y@) + 2, 1int,
    {
        match y {
            GroupExpr::Const(v) => Self::pow_constant(v, k),
            other => Self::pow_non_constant(other, k, abelian),
        }
    }

    #[verifier::loop_isolation(false)]
    fn pow_non_constant(y: Self, k: isize, abelian: bool) -> (r: Self)
        requires
            !(y@ is Const),
        ensures
            r@ == Self::pow_normal(y@, k as int, abelian),
        decreases 2 * Self::size(y@) + 2, 0int,
    {
        let ghost yv = y@;
        if k == 1 {
            return y;
        }
        if k == -1 {
            return Self::inv_normal_exec(y, abelian);
        }
        match y {
            GroupExpr::Pow { base, exponent } => match exponent.checked_mul(k) {
                Some(m) => Self::pow_normal_exec(*base, m, abelian),
                None => GroupExpr::Pow {
                    base: Box::new(GroupExpr::Pow { base, exponent }),
                    exponent: k,
                },
            },
            GroupExpr::Inv(b) => match 0isize.checked_sub(k) {
                Some(m) => Self::pow_normal_exec(*b, m, abelian),
                None => GroupExpr::Pow { base: Box::new(GroupExpr::Inv(b)), exponent: k },
            },
            GroupExpr::Op(ys) => {
                if abelian {
                    let ghost tys = Self::terms(ys@);
                    let mut rest = ys;
                    let mut done: Vec<Self> = Vec::new();
                    while rest.len() > 0
                        invariant
                            Self::terms(done@) + Self::pow_normals(Self::terms(rest@), k as int, abelian)
                                == Self::pow_normals(tys, k as int, abelian),
                            Self::sizes(Self::terms(rest@)) <= Self::sizes(tys),
                            yv == GroupTerm::<GValue<G>>::Op(tys),
                        decreases rest.len(),
                    {
                        let ghost before = rest@;
                        let item = rest.remove(0);
                        proof {
                            assert(rest@ =~= before.drop_first());
                            let tb = Self::terms(before);
                            assert(tb == seq![Self::term(item)] + Self::terms(rest@));
                            assert(tb[0] == Self::term(item));
                            assert(tb.drop_first() =~= Self::terms(rest@));
                            assert(Self::sizes(tb) == Self::size(Self::term(item)) + Self::sizes(Self::terms(rest@)));
                            Self::lemma_size_positive(Self::term(item));
                            assert(Self::size(yv) == 1 + Self::sizes(tys));
                        }
                        let n = Self::pow_normal_exec(item, k, abelian);
                        proof {
                            Self::lemma_terms_push(done@, n);
                            assert(Self::terms(done@).push(n@) + Self::pow_normals(Self::terms(rest@), k as int, abelian)
                                =~= Self::terms(done@) + Self::pow_normals(Self::terms(before), k as int, abelian));
                        }
                        done.push(n);
                    }
                    proof {
                        assert(Self::terms(done@) + Self::pow_normals(Self::terms(rest@), k as int, abelian) =~= Self::terms(done@));
                    }
                    let flat = Self::flatten(done);
                    Self::combine_exec(flat, true)
                } else {
                    GroupExpr::Pow { base: Box::new(GroupExpr::Op(ys)), exponent: k }
                }
            },
            other => GroupExpr::Pow { base: Box::new(other), exponent: k },
        }
    }

    /// The normal form of the expression; see [`Self::normal_form`].
    #[verifier::loop_isolation(false)]
    fn normalized(self, abelian: bool) -> (r: Self)
        ensures
            r@ == Self::normal_form(self@, abelian),
        decreases self,
    {
        let ghost whole = self;
        match self {
            GroupExpr::Inv(x) => {
                let n = Self::normalized(*x, abelian);
                Self::inv_normal_exec(n, abelian)
            },
            GroupExpr::Pow { base, exponent } => {
                if exponent == 0 {
                    GroupExpr::Const(G::identity())
                } else {
                    let n = Self::normalized(*base, abelian);
                    Self::pow_normal_exec(n, exponent, abelian)
                }
            },
            GroupExpr::Op(exprs) => {
                let ghost orig = exprs;
                let mut rest = exprs;
                let mut done: Vec<Self> = Vec::new();
                while rest.len() > 0
                    invariant
                        whole == GroupExpr::<G>::Op(orig),
                        rest@.len() <= orig@.len(),
                        forall|j: int| 0 <= j < rest@.len() ==> rest@[j] == orig@[orig@.len() - rest@.len() + j],
                        Self::terms(done@) + Self::normal_forms(Self::terms(rest@), abelian)
                            == Self::normal_forms(Self::terms(orig@), abelian),
                    decreases rest.len(),
                {
                    let ghost before = rest@;
                    let ghost done_before = done@;
                    let item = rest.remove(0);
                    proof {
                        let k = orig@.len() - before.len();
                        assert(item == orig@[k]);
                        assert(decreases_to!(whole => whole->Op_0));
                        assert(decreases_to!(orig => orig@));
                        assert(decreases_to!(orig@ => orig@[k]));
                        assert(decreases_to!(whole => item));
                        assert(rest@ =~= before.drop_first());
                        let tb = Self::terms(before);
                        assert(tb == seq![Self::term(item)] + Self::terms(rest@));
                        assert(tb[0] == Self::term(item));
                        assert(tb.drop_first() =~= Self::terms(rest@));
                    }
                    let n = Self::normalized(item, abelian);
                    proof {
                        Self::lemma_terms_push(done_before, n);
                        assert(Self::terms(done@.push(n)) + Self::normal_forms(Self::terms(rest@), abelian) =~= Self::terms(
                            done_before,
                        ) + Self::normal_forms(Self::terms(before), abelian));
                    }
                    done.push(n);
                }
                proof {
                    assert(Self::terms(done@) + Self::normal_forms(Self::terms(rest@), abelian) =~= Self::terms(done@));
                }
                let flat = Self::flatten(done);
                Self::combine_exec(flat, abelian)
            },
            other => other,
        }
    }

    /// Normalizes in place using the group laws only; factor order is
    /// preserved.
    pub fn normalize(&mut self)
        ensures
            final(self)@ == Self::normal_form(old(self)@, false),
    {
        let mut e = GroupExpr::Op(Vec::new());
        std::mem::swap(self, &mut e);
        *self = e.normalized(false);
    }
}

impl<G: AbelianGroup> GroupExpr<G> {
    /// Normalizes in place using the abelian group laws: equal bases collect
    /// globally, constants fold into one, and powers distribute over
    /// products.
    pub fn normalize_abelian(&mut self)
        ensures
            final(self)@ == Self::normal_form(old(self)@, true),
    {
        let mut e = GroupExpr::Op(Vec::new());
        std::mem::swap(self, &mut e);
        *self = e.normalized(true);
    }
}

impl<G: Group> Clone for GroupExpr<G> {
    fn clone(&self) -> (r: Self)
        ensures
            r@ == self@,
    {
        self.duplicate()
    }
}

impl<G: Group> PartialEq for GroupExpr<G> {
    fn eq(&self, other: &Self) -> (r: bool) {
        self.equals(other)
    }
}

impl<G: Group> PartialEqSpecImpl for GroupExpr<G> {
    open spec fn obeys_eq_spec() -> bool {
        true
    }

    open spec fn eq_spec(&self, other: &Self) -> bool {
        self@ == other@
    }
}

/// Canonicalizes group expressions while preserving factor order.
pub struct GroupFormatter<G> {
    _marker: PhantomData<G>,
}

impl<G: Group> GroupFormatter<G> {
    pub fn new() -> Self {
        GroupFormatter { _marker: PhantomData }
    }

    /// The normal form of `expr` under the group laws.
    pub fn format_expr(&self, expr: GroupExpr<G>) -> (r: GroupExpr<G>)
        ensures
            r@ == GroupExpr::<G>::normal_form(expr@, false),
    {
        expr.normalized(false)
    }
}

/// Canonicalizes group expressions using the abelian group laws, collecting
/// equal bases and distributing powers over the group operation.
pub struct AbelianGroupFormatter<G> {
    _marker: PhantomData<G>,
}

impl<G: AbelianGroup> AbelianGroupFormatter<G> {
    pub fn new() -> Self {
        AbelianGroupFormatter { _marker: PhantomData }
    }

    /// The normal form of `expr` under the abelian group laws.
    pub fn format_expr(&self, expr: GroupExpr<G>) -> (r: GroupExpr<G>)
        ensures
            r@ == GroupExpr::<G>::normal_form(expr@, true),
    {
        expr.normalized(true)
    }
}

/// Canonicalizes group expressions in place while preserving factor order.
pub struct GroupRewriter<G> {
    _marker: PhantomData<G>,
}

impl<G: Group> GroupRewriter<G> {
    pub fn new() -> Self {
        GroupRewriter { _marker: PhantomData }
    }

    pub fn rewrite_expr(&self, expr: &mut GroupExpr<G>)
        ensures
            final(expr)@ == GroupExpr::<G>::normal_form(old(expr)@, false),
    {
        expr.normalize();
    }

    pub fn rewrited_expr(&self, expr: GroupExpr<G>) -> (r: GroupExpr<G>)
        ensures
            r@ == GroupExpr::<G>::normal_form(expr@, false),
    {
        expr.normalized(false)
    }
}

/// Canonicalizes group expressions in place using the abelian group laws.
pub struct AbelianGroupRewriter<G> {
    _marker: PhantomData<G>,
}

impl<G: AbelianGroup> AbelianGroupRewriter<G> {
    pub fn new() -> Self {
        AbelianGroupRewriter { _marker: PhantomData }
    }

    pub fn rewrite_expr(&self, expr: &mut GroupExpr<G>)
        ensures
            final(expr)@ == GroupExpr::<G>::normal_form(old(expr)@, true),
    {
        expr.normalize_abelian();
    }

    pub fn rewrited_expr(&self, expr: GroupExpr<G>) -> (r: GroupExpr<G>)
        ensures
            r@ == GroupExpr::<G>::normal_form(expr@, true),
    {
        expr.normalized(true)
    }
}

} // verus!

verus! {

/// An element with a right inverse `z` (`x * z == 1`) has `z` as its
/// inverse: inverses are unique.
pub proof fn lemma_inverse_unique<G: Group>(x: <G::Domain as View>::V, z: <G::Domain as View>::V)
    requires
        G::spec_apply(x, z) == G::spec_identity(),
    ensures
        z == G::spec_inverse(x),
{
    let ix = G::spec_inverse(x);
    G::lemma_identity(z);
    G::lemma_inverse(x);
    G::lemma_associative(ix, x, z);
    G::lemma_identity(ix);
}

/// The inverse of the inverse is the element itself.
pub proof fn lemma_inverse_involutive<G: Group>(x: <G::Domain as View>::V)
    ensures
        G::spec_inverse(G::spec_inverse(x)) == x,
{
    G::lemma_inverse(x);
    lemma_inverse_unique::<G>(G::spec_inverse(x), x);
}

/// `(x * y)^-1 == y^-1 * x^-1`.
pub proof fn lemma_inverse_of_product<G: Group>(
    x: <G::Domain as View>::V,
    y: <G::Domain as View>::V,
)
    ensures
        G::spec_inverse(G::spec_apply(x, y)) == G::spec_apply(
            G::spec_inverse(y),
            G::spec_inverse(x),
        ),
{
    let ix = G::spec_inverse(x);
    let iy = G::spec_inverse(y);
    let e = G::spec_identity();
    G::lemma_inverse(x);
    G::lemma_inverse(y);
    G::lemma_identity(ix);
    G::lemma_associative(y, iy, ix);
    G::lemma_associative(x, y, G::spec_apply(iy, ix));
    assert(G::spec_apply(G::spec_apply(x, y), G::spec_apply(iy, ix)) == e);
    lemma_inverse_unique::<G>(G::spec_apply(x, y), G::spec_apply(iy, ix));
}

impl<G: Group> GroupExpr<G> {
    /// The names of the symbols that occur in a term.
    pub open spec fn symbols_in(t: GTerm<G>) -> Set<Seq<char>>
        decreases t,
    {
        match t {
            GroupTerm::Const(_) => Set::empty(),
            GroupTerm::Symbol(s) => set![s],
            GroupTerm::Inv(x) => Self::symbols_in(*x),
            GroupTerm::Op(xs) => Self::symbols_in_list(xs),
            GroupTerm::Pow(x, _) => Self::symbols_in(*x),
        }
    }

    /// The names of the symbols that occur in a list of terms.
    pub open spec fn symbols_in_list(xs: Seq<GTerm<G>>) -> Set<Seq<char>>
        decreases xs,
    {
        if xs.len() == 0 {
            Set::empty()
        } else {
            Self::symbols_in(xs[0]).union(Self::symbols_in_list(xs.drop_first()))
        }
    }

    /// `t` with every occurrence of the symbol `name` replaced by `e`; the
    /// copies of `e` are not searched again.
    pub open spec fn substitution(t: GTerm<G>, name: Seq<char>, e: GTerm<G>) -> GTerm<G>
        decreases t,
    {
        match t {
            GroupTerm::Const(_) => t,
            GroupTerm::Symbol(s) => if s == name {
                e
            } else {
                t
            },
            GroupTerm::Inv(x) => GroupTerm::Inv(Box::new(Self::substitution(*x, name, e))),
            GroupTerm::Op(xs) => GroupTerm::Op(Self::substitutions(xs, name, e)),
            GroupTerm::Pow(x, k) => GroupTerm::Pow(Box::new(Self::substitution(*x, name, e)), k),
        }
    }

    /// [`Self::substitution`] in each term of a list.
    pub open spec fn substitutions(xs: Seq<GTerm<G>>, name: Seq<char>, e: GTerm<G>) -> Seq<GTerm<G>>
        decreases xs,
    {
        if xs.len() == 0 {
            Seq::empty()
        } else {
            seq![Self::substitution(xs[0], name, e)] + Self::substitutions(xs.drop_first(), name, e)
        }
    }

    /// Adds the names of the symbols in `self` to `seen`.
    fn collect_names(&self, seen: &mut Vec<Symbol>)
        requires
            names(old(seen)@).no_duplicates(),
        ensures
            names(final(seen)@).no_duplicates(),
            names(final(seen)@).to_set() == names(old(seen)@).to_set().union(
                Self::symbols_in(self@),
            ),
        decreases self, 1int,
    {
        let ghost before = names(seen@).to_set();
        match self {
            GroupExpr::Const(_) => {
                proof {
                    assert(before.union(Set::empty()) =~= before);
                }
            },
            GroupExpr::Symbol(s) => {
                note_name(seen, s);
                proof {
                    assert(before.insert(s@) =~= before.union(set![s@]));
                }
            },
            GroupExpr::Inv(x) => x.collect_names(seen),
            GroupExpr::Op(v) => Self::collect_list_names(v, seen, Ghost(*self)),
            GroupExpr::Pow { base, .. } => base.collect_names(seen),
        }
    }

    /// Adds the names of the symbols in the children `v` of `whole`.
    fn collect_list_names(v: &Vec<Self>, seen: &mut Vec<Symbol>, Ghost(whole): Ghost<Self>)
        requires
            whole == GroupExpr::<G>::Op(*v),
            names(old(seen)@).no_duplicates(),
        ensures
            names(final(seen)@).no_duplicates(),
            names(final(seen)@).to_set() == names(old(seen)@).to_set().union(
                Self::symbols_in_list(Self::terms(v@)),
            ),
        decreases whole, 0int,
    {
        let ghost start = names(seen@).to_set();
        let mut i: usize = 0;
        proof {
            Self::lemma_terms(v@);
            assert(Self::terms(v@).skip(0) =~= Self::terms(v@));
        }
        while i < v.len()
            invariant
                whole == GroupExpr::<G>::Op(*v),
                i <= v.len(),
                Self::terms(v@).len() == v.len(),
                forall|j: int| 0 <= j < v.len() ==> #[trigger] Self::terms(v@)[j] == Self::term(v@[j]),
                names(seen@).no_duplicates(),
                names(seen@).to_set().union(Self::symbols_in_list(Self::terms(v@).skip(i as int)))
                    == start.union(Self::symbols_in_list(Self::terms(v@))),
            decreases v.len() - i,
        {
            proof {
                assert(decreases_to!(whole => whole->Op_0));
                assert(decreases_to!(v => v@));
                assert(decreases_to!(v@ => v@[i as int]));
            }
            let ghost mid = names(seen@).to_set();
            v[i].collect_names(seen);
            proof {
                let rest = Self::terms(v@).skip(i as int);
                assert(rest[0] == Self::term(v@[i as int]));
                assert(rest.drop_first() =~= Self::terms(v@).skip(i + 1));
                let now = names(seen@).to_set();
                let here = Self::symbols_in(v@[i as int]@);
                let later = Self::symbols_in_list(Self::terms(v@).skip(i + 1));
                assert(now.union(later) =~= mid.union(here.union(later)));
            }
            i = i + 1;
        }
        proof {
            assert(Self::terms(v@).skip(v.len() as int) =~= Seq::<GTerm<G>>::empty());
            let now = names(seen@).to_set();
            assert(now.union(Set::empty()) =~= now);
        }
    }

    /// The number of distinct symbols in the expression.
    pub fn degrees_of_freedom(&self) -> (r: usize)
        ensures
            r == Self::symbols_in(self@).len(),
    {
        let mut seen: Vec<Symbol> = Vec::new();
        proof {
            assert(names(seen@) =~= Seq::<Seq<char>>::empty());
        }
        self.collect_names(&mut seen);
        proof {
            let ns = names(seen@);
            assert(Seq::<Seq<char>>::empty().to_set() =~= Set::<Seq<char>>::empty());
            assert(Set::<Seq<char>>::empty().union(Self::symbols_in(self@)) =~= Self::symbols_in(
                self@,
            ));
            ns.unique_seq_to_set();
        }
        seen.len()
    }

    /// The expression with every occurrence of the symbol `name` replaced
    /// by a copy of `expr`.
    fn replaced(self, name: &Symbol, expr: &Self) -> (r: Self)
        ensures
            r@ == Self::substitution(self@, name@, expr@),
        decreases self,
    {
        match self {
            GroupExpr::Const(c) => GroupExpr::Const(c),
            GroupExpr::Symbol(s) => {
                if s.same(name) {
                    expr.duplicate()
                } else {
                    GroupExpr::Symbol(s)
                }
            },
            GroupExpr::Inv(x) => GroupExpr::Inv(Box::new(x.replaced(name, expr))),
            GroupExpr::Op(v) => {
                let ghost whole = GroupExpr::<G>::Op(v);
                GroupExpr::Op(Self::replaced_list(v, name, expr, Ghost(whole)))
            },
            GroupExpr::Pow { base, exponent } => GroupExpr::Pow {
                base: Box::new(base.replaced(name, expr)),
                exponent,
            },
        }
    }

    /// [`Self::replaced`] on each child `v` of `whole`.
    fn replaced_list(v: Vec<Self>, name: &Symbol, expr: &Self, Ghost(whole): Ghost<Self>) -> (r: Vec<Self>)
        requires
            whole == GroupExpr::<G>::Op(v),
        ensures
            Self::terms(r@) == Self::substitutions(Self::terms(v@), name@, expr@),
        decreases whole, 0int,
    {
        let ghost orig = v;
        let mut rest = v;
        let mut done: Vec<Self> = Vec::new();
        proof {
            assert(Self::terms(done@) =~= Seq::<GTerm<G>>::empty());
        }
        while rest.len() > 0
            invariant
                whole == GroupExpr::<G>::Op(orig),
                rest@.len() <= orig@.len(),
                forall|j: int| 0 <= j < rest@.len() ==> rest@[j] == orig@[orig@.len() - rest@.len() + j],
                Self::terms(done@) + Self::substitutions(Self::terms(rest@), name@, expr@)
                    == Self::substitutions(Self::terms(orig@), name@, expr@),
            decreases rest.len(),
        {
            let ghost before = rest@;
            let ghost done_before = done@;
            let item = rest.remove(0);
            proof {
                let k = orig@.len() - before.len();
                assert(item == orig@[k]);
                assert(decreases_to!(whole => whole->Op_0));
                assert(decreases_to!(orig => orig@));
                assert(decreases_to!(orig@ => orig@[k]));
                assert(decreases_to!(whole => item));
                assert(rest@ =~= before.drop_first());
                let tb = Self::terms(before);
                assert(tb == seq![Self::term(item)] + Self::terms(rest@));
                assert(tb[0] == Self::term(item));
                assert(tb.drop_first() =~= Self::terms(rest@));
            }
            let n = item.replaced(name, expr);
            proof {
                Self::lemma_terms_push(done_before, n);
                assert(Self::terms(done@.push(n)) + Self::substitutions(Self::terms(rest@), name@, expr@)
                    =~= Self::terms(done_before) + Self::substitutions(Self::terms(before), name@, expr@));
            }
            done.push(n);
        }
        proof {
            assert(Self::terms(done@) + Self::substitutions(Self::terms(rest@), name@, expr@)
                =~= Self::terms(done@));
        }
        done
    }

    /// Replaces every occurrence of the symbol `sym` by a copy of `expr`.
    /// The copies are not searched again.
    pub fn substitute(&mut self, sym: Symbol, expr: &Self)
        ensures
            final(self)@ == Self::substitution(old(self)@, sym@, expr@),
    {
        let mut e = GroupExpr::Op(Vec::new());
        std::mem::swap(self, &mut e);
        *self = e.replaced(&sym, expr);
    }

    /// The expression with every occurrence of the symbol `sym` replaced by
    /// a copy of `expr`.
    pub fn substituted(self, sym: Symbol, expr: &Self) -> (r: Self)
        ensures
            r@ == Self::substitution(self@, sym@, expr@),
    {
        self.replaced(&sym, expr)
    }
}

} // verus!
