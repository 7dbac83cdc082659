//! Expression trees over rings: semi-ring expressions plus negation.
use vstd::prelude::*;
use vstd::std_specs::cmp::PartialEqSpecImpl;

use crate::op::{AlgebraicSet, Identity};
use crate::ring::CommutativeRing;
use crate::ring::{one, Ring};
use crate::semiring_expr::{SRTerm, STerm, SValue, SemiRingExpr};
use crate::symbol::{names, note_name, Symbol};

verus! {

/// An expression tree over a ring; `Neg` is the additive inverse, which is
/// what distinguishes it from a semi-ring expression.
#[derive(Debug)]
pub enum RingExpr<R: Ring> {
    Const(R::Domain),
    Symbol(Symbol),
    Neg(Box<RingExpr<R>>),
    Add(Vec<RingExpr<R>>),
    Mul(Vec<RingExpr<R>>),
    Pow { base: Box<RingExpr<R>>, exponent: usize },
}

/// The mathematical content of a [`RingExpr`].
pub enum RTerm<V> {
    Const(V),
    Symbol(Seq<char>),
    Neg(Box<RTerm<V>>),
    Add(Seq<RTerm<V>>),
    Mul(Seq<RTerm<V>>),
    Pow(Box<RTerm<V>>, nat),
}

/// The term type of ring expressions over `R`.
pub type RTermOf<R> = RTerm<SValue<R>>;

impl<R: Ring> View for RingExpr<R> {
    type V = RTermOf<R>;

    open spec fn view(&self) -> RTermOf<R> {
        Self::term(*self)
    }
}

impl<R: Ring> RingExpr<R> {
    pub open spec fn term(e: Self) -> RTermOf<R>
        decreases e,
    {
        match e {
            RingExpr::Const(c) => RTerm::Const(c@),
            RingExpr::Symbol(s) => RTerm::Symbol(s@),
            RingExpr::Neg(x) => RTerm::Neg(Box::new(Self::term(*x))),
            RingExpr::Add(v) => RTerm::Add(Self::terms(v@)),
            RingExpr::Mul(v) => RTerm::Mul(Self::terms(v@)),
            RingExpr::Pow { base, exponent } => RTerm::Pow(
                Box::new(Self::term(*base)),
                exponent as nat,
            ),
        }
    }

    pub open spec fn terms(s: Seq<Self>) -> Seq<RTermOf<R>>
        decreases s,
    {
        if s.len() == 0 {
            Seq::empty()
        } else {
            seq![Self::term(s[0])] + Self::terms(s.drop_first())
        }
    }

    pub proof fn lemma_terms(s: Seq<Self>)
        ensures
            Self::terms(s).len() == s.len(),
            forall|i: int| 0 <= i < s.len() ==> #[trigger] Self::terms(s)[i] == Self::term(s[i]),
        decreases s.len(),
    {
        if s.len() > 0 {
            Self::lemma_terms(s.drop_first());
            assert forall|i: int| 0 <= i < s.len() implies #[trigger] Self::terms(s)[i] == Self::term(
                s[i],
            ) by {
                if i > 0 {
                    assert(s.drop_first()[i - 1] == s[i]);
                }
            }
        }
    }

    pub proof fn lemma_terms_push(s: Seq<Self>, x: Self)
        ensures
            Self::terms(s.push(x)) == Self::terms(s).push(Self::term(x)),
    {
        Self::lemma_terms(s);
        Self::lemma_terms(s.push(x));
        assert(Self::terms(s.push(x)) =~= Self::terms(s).push(Self::term(x)));
    }

    /// A copy of the expression.
    pub fn duplicate(&self) -> (r: Self)
        ensures
            r@ == self@,
        decreases self, 1int,
    {
        match self {
            RingExpr::Const(c) => RingExpr::Const(c.duplicate()),
            RingExpr::Symbol(s) => RingExpr::Symbol(s.clone()),
            RingExpr::Neg(x) => RingExpr::Neg(Box::new(x.duplicate())),
            RingExpr::Pow { base, exponent } => RingExpr::Pow {
                base: Box::new(base.duplicate()),
                exponent: *exponent,
            },
            RingExpr::Add(v) => RingExpr::Add(Self::duplicate_list(v, Ghost(*self))),
            RingExpr::Mul(v) => RingExpr::Mul(Self::duplicate_list(v, Ghost(*self))),
        }
    }

    fn duplicate_list(v: &Vec<Self>, Ghost(whole): Ghost<Self>) -> (r: Vec<Self>)
        requires
            whole == RingExpr::<R>::Add(*v) || whole == RingExpr::<R>::Mul(*v),
        ensures
            Self::terms(r@) == Self::terms(v@),
        decreases whole, 0int,
    {
        let mut out: Vec<Self> = Vec::new();
        let mut i: usize = 0;
        while i < v.len()
            invariant
                whole == RingExpr::<R>::Add(*v) || whole == RingExpr::<R>::Mul(*v),
                i <= v.len(),
                Self::terms(out@) == Self::terms(v@.take(i as int)),
            decreases v.len() - i,
        {
            proof {
                if whole == RingExpr::<R>::Add(*v) {
                    assert(decreases_to!(whole => whole->Add_0));
                } else {
                    assert(decreases_to!(whole => whole->Mul_0));
                }
                assert(decreases_to!(v => v@));
                assert(decreases_to!(v@ => v@[i as int]));
            }
            let c = v[i].duplicate();
            proof {
                Self::lemma_terms_push(out@, c);
                Self::lemma_terms_push(v@.take(i as int), v@[i as int]);
                assert(v@.take(i + 1) =~= v@.take(i as int).push(v@[i as int]));
            }
            out.push(c);
            i = i + 1;
        }
        proof {
            assert(v@.take(v.len() as int) =~= v@);
        }
        out
    }

    fn equal_lists(a: &Vec<Self>, b: &Vec<Self>, Ghost(whole): Ghost<Self>) -> (r: bool)
        requires
            whole == RingExpr::<R>::Add(*a) || whole == RingExpr::<R>::Mul(*a),
        ensures
            r == (Self::terms(a@) == Self::terms(b@)),
        decreases whole, 0int,
    {
        proof {
            Self::lemma_terms(a@);
            Self::lemma_terms(b@);
        }
        if a.len() != b.len() {
            return false;
        }
        let mut i: usize = 0;
        while i < a.len()
            invariant
                whole == RingExpr::<R>::Add(*a) || whole == RingExpr::<R>::Mul(*a),
                i <= a.len(),
                a.len() == b.len(),
                Self::terms(a@).len() == a.len(),
                Self::terms(b@).len() == b.len(),
                forall|j: int| 0 <= j < a.len() ==> #[trigger] Self::terms(a@)[j] == Self::term(a@[j]),
                forall|j: int| 0 <= j < b.len() ==> #[trigger] Self::terms(b@)[j] == Self::term(b@[j]),
                forall|j: int| 0 <= j < i ==> Self::term(#[trigger] a@[j]) == Self::term(b@[j]),
            decreases a.len() - i,
        {
            proof {
                if whole == RingExpr::<R>::Add(*a) {
                    assert(decreases_to!(whole => whole->Add_0));
                } else {
                    assert(decreases_to!(whole => whole->Mul_0));
                }
                assert(decreases_to!(a => a@));
                assert(decreases_to!(a@ => a@[i as int]));
            }
            if !a[i].equals(&b[i]) {
                proof {
                    assert(Self::terms(a@)[i as int] != Self::terms(b@)[i as int]);
                }
                return false;
            }
            i = i + 1;
        }
        proof {
            assert(Self::terms(a@) =~= Self::terms(b@));
        }
        true
    }

    /// Structural equality of the mathematical content.
    pub fn equals(&self, other: &Self) -> (r: bool)
        ensures
            r == (self@ == other@),
        decreases self, 1int,
    {
        match (self, other) {
            (RingExpr::Const(a), RingExpr::Const(b)) => a.equals(b),
            (RingExpr::Symbol(a), RingExpr::Symbol(b)) => a.same(b),
            (RingExpr::Neg(a), RingExpr::Neg(b)) => a.equals(b),
            (
                RingExpr::Pow { base: a, exponent: i },
                RingExpr::Pow { base: b, exponent: j },
            ) => *i == *j && a.equals(b),
            (RingExpr::Add(a), RingExpr::Add(b)) => Self::equal_lists(a, b, Ghost(*self)),
            (RingExpr::Mul(a), RingExpr::Mul(b)) => Self::equal_lists(a, b, Ghost(*self)),
            _ => false,
        }
    }
}

impl<R: Ring> Clone for RingExpr<R> {
    fn clone(&self) -> (r: Self)
        ensures
            r@ == self@,
    {
        self.duplicate()
    }
}

impl<R: Ring> PartialEq for RingExpr<R> {
    fn eq(&self, other: &Self) -> (r: bool) {
        self.equals(other)
    }
}

impl<R: Ring> PartialEqSpecImpl for RingExpr<R> {
    open spec fn obeys_eq_spec() -> bool {
        true
    }

    open spec fn eq_spec(&self, other: &Self) -> bool {
        self@ == other@
    }
}

impl<R: Ring> Eq for RingExpr<R> {

}

/// `Neg(x)` lowered to `(-1) * x`: a ring expression as a semi-ring
/// expression over the same ring.
pub open spec fn lowered<R: Ring>(t: RTermOf<R>) -> STerm<R>
    decreases t,
{
    match t {
        RTerm::Const(c) => SRTerm::Const(c),
        RTerm::Symbol(s) => SRTerm::Symbol(s),
        RTerm::Neg(x) => SRTerm::Mul(
            seq![SRTerm::Const(R::spec_negate(one::<R>())), lowered::<R>(*x)],
        ),
        RTerm::Add(v) => SRTerm::Add(lowered_all::<R>(v)),
        RTerm::Mul(v) => SRTerm::Mul(lowered_all::<R>(v)),
        RTerm::Pow(b, n) => SRTerm::Pow(Box::new(lowered::<R>(*b)), n),
    }
}

pub open spec fn lowered_all<R: Ring>(v: Seq<RTermOf<R>>) -> Seq<STerm<R>>
    decreases v,
{
    if v.len() == 0 {
        Seq::empty()
    } else {
        seq![lowered::<R>(v[0])] + lowered_all::<R>(v.drop_first())
    }
}

/// A semi-ring expression as a ring expression over the same ring.
pub open spec fn lifted<R: Ring>(t: STerm<R>) -> RTermOf<R>
    decreases t,
{
    match t {
        SRTerm::Const(c) => RTerm::Const(c),
        SRTerm::Symbol(s) => RTerm::Symbol(s),
        SRTerm::Add(v) => RTerm::Add(lifted_all::<R>(v)),
        SRTerm::Mul(v) => RTerm::Mul(lifted_all::<R>(v)),
        SRTerm::Pow(b, n) => RTerm::Pow(Box::new(lifted::<R>(*b)), n),
    }
}

pub open spec fn lifted_all<R: Ring>(v: Seq<STerm<R>>) -> Seq<RTermOf<R>>
    decreases v,
{
    if v.len() == 0 {
        Seq::empty()
    } else {
        seq![lifted::<R>(v[0])] + lifted_all::<R>(v.drop_first())
    }
}

/// The normal form of a ring expression: negation lowered to a `-1`
/// coefficient, normalized under the semi-ring laws, and read back; it
/// contains no `Neg`.
pub open spec fn ring_normal_form<R: Ring>(t: RTermOf<R>) -> RTermOf<R> {
    lifted::<R>(SemiRingExpr::<R>::normal_form(lowered::<R>(t)))
}

impl<R: Ring> RingExpr<R> {
    /// The same expression with `Neg(x)` as `(-1) * x`.
    pub fn into_semiring(self) -> (r: SemiRingExpr<R>)
        ensures
            r@ == lowered::<R>(self@),
        decreases self, 1int,
    {
        let ghost whole = self;
        match self {
            RingExpr::Const(c) => SemiRingExpr::Const(c),
            RingExpr::Symbol(s) => SemiRingExpr::Symbol(s),
            RingExpr::Neg(x) => {
                let minus_one = R::negate(<R::Multiplication as Identity>::identity());
                let inner = x.into_semiring();
                let mut factors: Vec<SemiRingExpr<R>> = Vec::new();
                factors.push(SemiRingExpr::Const(minus_one));
                factors.push(inner);
                proof {
                    SemiRingExpr::<R>::lemma_terms(factors@);
                    assert(SemiRingExpr::<R>::terms(factors@) =~= seq![
                        SRTerm::Const(R::spec_negate(one::<R>())),
                        lowered::<R>(whole->Neg_0@),
                    ]);
                }
                SemiRingExpr::Mul(factors)
            },
            RingExpr::Pow { base, exponent } => SemiRingExpr::Pow {
                base: Box::new(base.into_semiring()),
                exponent,
            },
            RingExpr::Add(v) => SemiRingExpr::Add(Self::lower_list(v, Ghost(whole))),
            RingExpr::Mul(v) => SemiRingExpr::Mul(Self::lower_list(v, Ghost(whole))),
        }
    }

    fn lower_list(v: Vec<Self>, Ghost(whole): Ghost<Self>) -> (r: Vec<SemiRingExpr<R>>)
        requires
            whole == RingExpr::<R>::Add(v) || whole == RingExpr::<R>::Mul(v),
        ensures
            SemiRingExpr::<R>::terms(r@) == lowered_all::<R>(Self::terms(v@)),
        decreases whole, 0int,
    {
        let ghost orig = v;
        let mut rest = v;
        let mut done: Vec<SemiRingExpr<R>> = Vec::new();
        proof {
            assert(SemiRingExpr::<R>::terms(done@) =~= Seq::<STerm<R>>::empty());
        }
        while rest.len() > 0
            invariant
                whole == RingExpr::<R>::Add(orig) || whole == RingExpr::<R>::Mul(orig),
                rest@.len() <= orig@.len(),
                forall|j: int| 0 <= j < rest@.len() ==> rest@[j] == orig@[orig@.len() - rest@.len() + j],
                SemiRingExpr::<R>::terms(done@) + lowered_all::<R>(Self::terms(rest@)) == lowered_all::<
                    R,
                >(Self::terms(orig@)),
            decreases rest.len(),
        {
            let ghost before = rest@;
            let ghost done_before = done@;
            let item = rest.remove(0);
            proof {
                let k = orig@.len() - before.len();
                assert(item == orig@[k]);
                if whole == RingExpr::<R>::Add(orig) {
                    assert(decreases_to!(whole => whole->Add_0));
                } else {
                    assert(decreases_to!(whole => whole->Mul_0));
                }
                assert(decreases_to!(orig => orig@));
                assert(decreases_to!(orig@ => orig@[k]));
                assert(decreases_to!(whole => item));
                assert(rest@ =~= before.drop_first());
                let tb = Self::terms(before);
                assert(tb == seq![Self::term(item)] + Self::terms(rest@));
                assert(tb.drop_first() =~= Self::terms(rest@));
            }
            let n = item.into_semiring();
            proof {
                SemiRingExpr::<R>::lemma_terms_push(done_before, n);
                assert(SemiRingExpr::<R>::terms(done@.push(n)) + lowered_all::<R>(Self::terms(rest@))
                    =~= SemiRingExpr::<R>::terms(done_before) + lowered_all::<R>(Self::terms(before)));
            }
            done.push(n);
        }
        proof {
            assert(SemiRingExpr::<R>::terms(done@) + lowered_all::<R>(Self::terms(rest@))
                =~= SemiRingExpr::<R>::terms(done@));
        }
        done
    }

    /// A semi-ring expression as a ring expression.
    pub fn from_semiring(e: SemiRingExpr<R>) -> (r: Self)
        ensures
            r@ == lifted::<R>(e@),
        decreases e, 1int,
    {
        let ghost whole = e;
        match e {
            SemiRingExpr::Const(c) => RingExpr::Const(c),
            SemiRingExpr::Symbol(s) => RingExpr::Symbol(s),
            SemiRingExpr::Pow { base, exponent } => RingExpr::Pow {
                base: Box::new(Self::from_semiring(*base)),
                exponent,
            },
            SemiRingExpr::Add(v) => RingExpr::Add(Self::lift_list(v, Ghost(whole))),
            SemiRingExpr::Mul(v) => RingExpr::Mul(Self::lift_list(v, Ghost(whole))),
        }
    }

    fn lift_list(v: Vec<SemiRingExpr<R>>, Ghost(whole): Ghost<SemiRingExpr<R>>) -> (r: Vec<Self>)
        requires
            whole == SemiRingExpr::<R>::Add(v) || whole == SemiRingExpr::<R>::Mul(v),
        ensures
            Self::terms(r@) == lifted_all::<R>(SemiRingExpr::<R>::terms(v@)),
        decreases whole, 0int,
    {
        let ghost orig = v;
        let mut rest = v;
        let mut done: Vec<Self> = Vec::new();
        proof {
            assert(Self::terms(done@) =~= Seq::<RTermOf<R>>::empty());
        }
        while rest.len() > 0
            invariant
                whole == SemiRingExpr::<R>::Add(orig) || whole == SemiRingExpr::<R>::Mul(orig),
                rest@.len() <= orig@.len(),
                forall|j: int| 0 <= j < rest@.len() ==> rest@[j] == orig@[orig@.len() - rest@.len() + j],
                Self::terms(done@) + lifted_all::<R>(SemiRingExpr::<R>::terms(rest@)) == lifted_all::<
                    R,
                >(SemiRingExpr::<R>::terms(orig@)),
            decreases rest.len(),
        {
            let ghost before = rest@;
            let ghost done_before = done@;
            let item = rest.remove(0);
            proof {
                let k = orig@.len() - before.len();
                assert(item == orig@[k]);
                if whole == SemiRingExpr::<R>::Add(orig) {
                    assert(decreases_to!(whole => whole->Add_0));
                } else {
                    assert(decreases_to!(whole => whole->Mul_0));
                }
                assert(decreases_to!(orig => orig@));
                assert(decreases_to!(orig@ => orig@[k]));
                assert(decreases_to!(whole => item));
                assert(rest@ =~= before.drop_first());
                let tb = SemiRingExpr::<R>::terms(before);
                assert(tb == seq![SemiRingExpr::<R>::term(item)] + SemiRingExpr::<R>::terms(rest@));
                assert(tb.drop_first() =~= SemiRingExpr::<R>::terms(rest@));
            }
            let n = Self::from_semiring(item);
            proof {
                Self::lemma_terms_push(done_before, n);
                assert(Self::terms(done@.push(n)) + lifted_all::<R>(SemiRingExpr::<R>::terms(rest@))
                    =~= Self::terms(done_before) + lifted_all::<R>(SemiRingExpr::<R>::terms(before)));
            }
            done.push(n);
        }
        proof {
            assert(Self::terms(done@) + lifted_all::<R>(SemiRingExpr::<R>::terms(rest@)) =~= Self::terms(
                done@,
            ));
        }
        done
    }
}

/// Canonicalizes [`RingExpr`]s: lowers `Neg` to a `-1` coefficient, runs the
/// semi-ring normalization, and lifts back. The canonical form contains no
/// `Neg`: every negation rule (`--x = x`, `-c` folding, `x + (-x) = 0`)
/// falls out of constant folding and coefficient collection.
pub struct RingRewriter<R> {
    marker: std::marker::PhantomData<R>,
}

impl<R: Ring> RingRewriter<R> {
    pub fn new() -> (r: Self) {
        RingRewriter { marker: std::marker::PhantomData }
    }

    /// Rewrites `expr` into its normal form.
    pub fn rewrite_expr(&self, expr: &mut RingExpr<R>)
        ensures
            final(expr)@ == ring_normal_form::<R>(old(expr)@),
    {
        let mut e = RingExpr::Add(Vec::new());
        std::mem::swap(expr, &mut e);
        *expr = self.rewrited_expr(e);
    }

    /// The normal form of `expr`.
    pub fn rewrited_expr(&self, expr: RingExpr<R>) -> (r: RingExpr<R>)
        ensures
            r@ == ring_normal_form::<R>(expr@),
    {
        let lowered = expr.into_semiring();
        RingExpr::from_semiring(lowered.simplify())
    }
}

/// The normal form of a ring expression in a commutative ring: as
/// [`ring_normal_form`], with products also folding all their constants and
/// collecting repeated factors into sorted powers, and sums sorting their
/// terms.
pub open spec fn commutative_ring_normal_form<R: Ring>(t: RTermOf<R>) -> RTermOf<R> {
    lifted::<R>(SemiRingExpr::<R>::commutative_normal_form(lowered::<R>(t)))
}

/// [`RingRewriter`] for rings whose multiplication is also commutative:
/// additionally folds all constants of a product into one leading constant,
/// collects repeated factors into powers (`x * y * x -> x^2 * y`), and sorts
/// factors and terms into a canonical order.
pub struct CommutativeRingRewriter<R> {
    marker: std::marker::PhantomData<R>,
}

impl<R: CommutativeRing> CommutativeRingRewriter<R> {
    pub fn new() -> (r: Self) {
        CommutativeRingRewriter { marker: std::marker::PhantomData }
    }

    /// Rewrites `expr` into its normal form, where collected exponents fit
    /// a `usize`.
    pub fn rewrite_expr(&self, expr: &mut RingExpr<R>)
        requires
            SemiRingExpr::<R>::fits(lowered::<R>(old(expr)@), 1, true),
        ensures
            final(expr)@ == commutative_ring_normal_form::<R>(old(expr)@),
    {
        let mut e = RingExpr::Add(Vec::new());
        std::mem::swap(expr, &mut e);
        *expr = self.rewrited_expr(e);
    }

    /// The normal form of `expr`, where collected exponents fit a `usize`.
    pub fn rewrited_expr(&self, expr: RingExpr<R>) -> (r: RingExpr<R>)
        requires
            SemiRingExpr::<R>::fits(lowered::<R>(expr@), 1, true),
        ensures
            r@ == commutative_ring_normal_form::<R>(expr@),
    {
        let mut lowered = expr.into_semiring();
        lowered.normalize_commutative();
        RingExpr::from_semiring(lowered)
    }
}

impl<R: Ring> RingExpr<R> {
    /// The names of the symbols that occur in a term.
    pub open spec fn symbols_in(t: RTermOf<R>) -> Set<Seq<char>>
        decreases t,
    {
        match t {
            RTerm::Const(_) => Set::empty(),
            RTerm::Symbol(s) => set![s],
            RTerm::Neg(x) => Self::symbols_in(*x),
            RTerm::Add(xs) => Self::symbols_in_list(xs),
            RTerm::Mul(xs) => Self::symbols_in_list(xs),
            RTerm::Pow(x, _) => Self::symbols_in(*x),
        }
    }

    /// The names of the symbols that occur in a list of terms.
    pub open spec fn symbols_in_list(xs: Seq<RTermOf<R>>) -> Set<Seq<char>>
        decreases xs,
    {
        if xs.len() == 0 {
            Set::empty()
        } else {
            Self::symbols_in(xs[0]).union(Self::symbols_in_list(xs.drop_first()))
        }
    }

    /// `t` with every occurrence of the symbol `name` replaced by `e`; the
    /// copies of `e` are not searched again.
    pub open spec fn substitution(t: RTermOf<R>, name: Seq<char>, e: RTermOf<R>) -> RTermOf<R>
        decreases t,
    {
        match t {
            RTerm::Const(_) => t,
            RTerm::Symbol(s) => if s == name {
                e
            } else {
                t
            },
            RTerm::Neg(x) => RTerm::Neg(Box::new(Self::substitution(*x, name, e))),
            RTerm::Add(xs) => RTerm::Add(Self::substitutions(xs, name, e)),
            RTerm::Mul(xs) => RTerm::Mul(Self::substitutions(xs, name, e)),
            RTerm::Pow(x, k) => RTerm::Pow(Box::new(Self::substitution(*x, name, e)), k),
        }
    }

    /// [`Self::substitution`] in each term of a list.
    pub open spec fn substitutions(xs: Seq<RTermOf<R>>, name: Seq<char>, e: RTermOf<R>) -> Seq<RTermOf<R>>
        decreases xs,
    {
        if xs.len() == 0 {
            Seq::empty()
        } else {
            seq![Self::substitution(xs[0], name, e)] + Self::substitutions(xs.drop_first(), name, e)
        }
    }

    /// Adds the names of the symbols in `self` to `seen`.
    fn collect_names(&self, seen: &mut Vec<Symbol>)
        requires
            names(old(seen)@).no_duplicates(),
        ensures
            names(final(seen)@).no_duplicates(),
            names(final(seen)@).to_set() == names(old(seen)@).to_set().union(
                Self::symbols_in(self@),
            ),
        decreases self, 1int,
    {
        let ghost before = names(seen@).to_set();
        match self {
            RingExpr::Const(_) => {
                proof {
                    assert(before.union(Set::empty()) =~= before);
                }
            },
            RingExpr::Symbol(s) => {
                note_name(seen, s);
                proof {
                    assert(before.insert(s@) =~= before.union(set![s@]));
                }
            },
            RingExpr::Neg(x) => x.collect_names(seen),
            RingExpr::Add(v) => Self::collect_list_names(v, seen, Ghost(*self)),
            RingExpr::Mul(v) => Self::collect_list_names(v, seen, Ghost(*self)),
            RingExpr::Pow { base, .. } => base.collect_names(seen),
        }
    }

    /// Adds the names of the symbols in the children `v` of `whole`.
    fn collect_list_names(v: &Vec<Self>, seen: &mut Vec<Symbol>, Ghost(whole): Ghost<Self>)
        requires
            whole == RingExpr::<R>::Add(*v) || whole == RingExpr::<R>::Mul(*v),
            names(old(seen)@).no_duplicates(),
        ensures
            names(final(seen)@).no_duplicates(),
            names(final(seen)@).to_set() == names(old(seen)@).to_set().union(
                Self::symbols_in_list(Self::terms(v@)),
            ),
        decreases whole, 0int,
    {
        let ghost start = names(seen@).to_set();
        let mut i: usize = 0;
        proof {
            Self::lemma_terms(v@);
            assert(Self::terms(v@).skip(0) =~= Self::terms(v@));
        }
        while i < v.len()
            invariant
                whole == RingExpr::<R>::Add(*v) || whole == RingExpr::<R>::Mul(*v),
                i <= v.len(),
                Self::terms(v@).len() == v.len(),
                forall|j: int| 0 <= j < v.len() ==> #[trigger] Self::terms(v@)[j] == Self::term(v@[j]),
                names(seen@).no_duplicates(),
                names(seen@).to_set().union(Self::symbols_in_list(Self::terms(v@).skip(i as int)))
                    == start.union(Self::symbols_in_list(Self::terms(v@))),
            decreases v.len() - i,
        {
            proof {
                if whole == RingExpr::<R>::Add(*v) {
                    assert(decreases_to!(whole => whole->Add_0));
                } else {
                    assert(decreases_to!(whole => whole->Mul_0));
                }
                assert(decreases_to!(v => v@));
                assert(decreases_to!(v@ => v@[i as int]));
            }
            let ghost mid = names(seen@).to_set();
            v[i].collect_names(seen);
            proof {
                let rest = Self::terms(v@).skip(i as int);
                assert(rest[0] == Self::term(v@[i as int]));
                assert(rest.drop_first() =~= Self::terms(v@).skip(i + 1));
                let now = names(seen@).to_set();
                let here = Self::symbols_in(v@[i as int]@);
                let later = Self::symbols_in_list(Self::terms(v@).skip(i + 1));
                assert(now.union(later) =~= mid.union(here.union(later)));
            }
            i = i + 1;
        }
        proof {
            assert(Self::terms(v@).skip(v.len() as int) =~= Seq::<RTermOf<R>>::empty());
            let now = names(seen@).to_set();
            assert(now.union(Set::empty()) =~= now);
        }
    }

    /// The number of distinct symbols in the expression.
    pub fn degrees_of_freedom(&self) -> (r: usize)
        ensures
            r == Self::symbols_in(self@).len(),
    {
        let mut seen: Vec<Symbol> = Vec::new();
        proof {
            assert(names(seen@) =~= Seq::<Seq<char>>::empty());
        }
        self.collect_names(&mut seen);
        proof {
            let ns = names(seen@);
            assert(Seq::<Seq<char>>::empty().to_set() =~= Set::<Seq<char>>::empty());
            assert(Set::<Seq<char>>::empty().union(Self::symbols_in(self@)) =~= Self::symbols_in(
                self@,
            ));
            ns.unique_seq_to_set();
        }
        seen.len()
    }

    /// The expression with every occurrence of the symbol `name` replaced
    /// by a copy of `expr`.
    fn replaced(self, name: &Symbol, expr: &Self) -> (r: Self)
        ensures
            r@ == Self::substitution(self@, name@, expr@),
        decreases self,
    {
        match self {
            RingExpr::Const(c) => RingExpr::Const(c),
            RingExpr::Symbol(s) => {
                if s.same(name) {
                    expr.duplicate()
                } else {
                    RingExpr::Symbol(s)
                }
            },
            RingExpr::Neg(x) => RingExpr::Neg(Box::new(x.replaced(name, expr))),
            RingExpr::Add(v) => {
                let ghost whole = RingExpr::<R>::Add(v);
                RingExpr::Add(Self::replaced_list(v, name, expr, Ghost(whole)))
            },
            RingExpr::Mul(v) => {
                let ghost whole = RingExpr::<R>::Mul(v);
                RingExpr::Mul(Self::replaced_list(v, name, expr, Ghost(whole)))
            },
            RingExpr::Pow { base, exponent } => RingExpr::Pow {
                base: Box::new(base.replaced(name, expr)),
                exponent,
            },
        }
    }

    /// [`Self::replaced`] on each child `v` of `whole`.
    fn replaced_list(v: Vec<Self>, name: &Symbol, expr: &Self, Ghost(whole): Ghost<Self>) -> (r: Vec<Self>)
        requires
            whole == RingExpr::<R>::Add(v) || whole == RingExpr::<R>::Mul(v),
        ensures
            Self::terms(r@) == Self::substitutions(Self::terms(v@), name@, expr@),
        decreases whole, 0int,
    {
        let ghost orig = v;
        let mut rest = v;
        let mut done: Vec<Self> = Vec::new();
        proof {
            assert(Self::terms(done@) =~= Seq::<RTermOf<R>>::empty());
        }
        while rest.len() > 0
            invariant
                whole == RingExpr::<R>::Add(orig) || whole == RingExpr::<R>::Mul(orig),
                rest@.len() <= orig@.len(),
                forall|j: int| 0 <= j < rest@.len() ==> rest@[j] == orig@[orig@.len() - rest@.len() + j],
                Self::terms(done@) + Self::substitutions(Self::terms(rest@), name@, expr@)
                    == Self::substitutions(Self::terms(orig@), name@, expr@),
            decreases rest.len(),
        {
            let ghost before = rest@;
            let ghost done_before = done@;
            let item = rest.remove(0);
            proof {
                let k = orig@.len() - before.len();
                assert(item == orig@[k]);
                if whole == RingExpr::<R>::Add(orig) {
                    assert(decreases_to!(whole => whole->Add_0));
                } else {
                    assert(decreases_to!(whole => whole->Mul_0));
                }
                assert(decreases_to!(orig => orig@));
                assert(decreases_to!(orig@ => orig@[k]));
                assert(decreases_to!(whole => item));
                assert(rest@ =~= before.drop_first());
                let tb = Self::terms(before);
                assert(tb == seq![Self::term(item)] + Self::terms(rest@));
                assert(tb[0] == Self::term(item));
                assert(tb.drop_first() =~= Self::terms(rest@));
            }
            let n = item.replaced(name, expr);
            proof {
                Self::lemma_terms_push(done_before, n);
                assert(Self::terms(done@.push(n)) + Self::substitutions(Self::terms(rest@), name@, expr@)
                    =~= Self::terms(done_before) + Self::substitutions(Self::terms(before), name@, expr@));
            }
            done.push(n);
        }
        proof {
            assert(Self::terms(done@) + Self::substitutions(Self::terms(rest@), name@, expr@)
                =~= Self::terms(done@));
        }
        done
    }

    /// Replaces every occurrence of the symbol `sym` by a copy of `expr`.
    /// The copies are not searched again.
    pub fn substitute(&mut self, sym: Symbol, expr: &Self)
        ensures
            final(self)@ == Self::substitution(old(self)@, sym@, expr@),
    {
        let mut e = RingExpr::Add(Vec::new());
        std::mem::swap(self, &mut e);
        *self = e.replaced(&sym, expr);
    }

    /// The expression with every occurrence of the symbol `sym` replaced by
    /// a copy of `expr`.
    pub fn substituted(self, sym: Symbol, expr: &Self) -> (r: Self)
        ensures
            r@ == Self::substitution(self@, sym@, expr@),
    {
        self.replaced(&sym, expr)
    }
}

} // verus!
