//! Differential forms on a manifold, coordinate charts, and normal forms of
//! forms under the laws of the exterior algebra.
use std::marker::PhantomData;
use vstd::prelude::*;
use vstd::std_specs::cmp::PartialEqSpecImpl;

use crate::integer::Z;
use crate::op::{AlgebraicSet, Identity};
use crate::ring::{one, plus, times, zero, Integers, Ring, SemiRing};
use crate::symbol::{compare_chars, compare_ints, lemma_compare_chars_equal, Cmp, Symbol};

verus! {

/// A smooth manifold of dimension `dim`, whose functions take values in
/// the ring `Scalar`.
pub trait Manifold {
    /// The values of functions on the manifold.
    type Element: AlgebraicSet;

    type Scalar: Ring<Domain = Self::Element>;

    /// The dimension, as a number.
    spec fn spec_dim() -> nat;

    /// The dimension.
    fn dim() -> (r: usize)
        ensures
            r == Self::spec_dim(),
    ;
}

/// The space of `DIM` coordinates with integer scalars.
#[derive(Debug)]
pub struct IntegerSpace<const DIM: usize>;

impl<const DIM: usize> Manifold for IntegerSpace<DIM> {
    type Element = Z;

    type Scalar = Integers;

    open spec fn spec_dim() -> nat {
        DIM as nat
    }

    fn dim() -> (r: usize) {
        DIM
    }
}

/// The set of 0-forms on `M`, the smooth functions `M -> Scalar`: the
/// values that a [`DifferentialForm::Function`] names.
pub struct ZeroForms<M: Manifold>(PhantomData<M>);

/// A differential form on `M`.
#[derive(Debug)]
pub enum DifferentialForm<M: Manifold> {
    Const(M::Element),
    /// An unknown function `f: M -> Scalar`, a 0-form.
    Function(Symbol),
    Neg(Box<DifferentialForm<M>>),
    Add(Vec<DifferentialForm<M>>),
    Wedged(Vec<DifferentialForm<M>>),
    /// The exterior derivative, not yet applied.
    Differential(Box<DifferentialForm<M>>),
}

/// The mathematical content of a [`DifferentialForm`]: constants by value,
/// functions by name.
pub enum FormTerm<V> {
    Const(V),
    Function(Seq<char>),
    Neg(Box<FormTerm<V>>),
    Add(Seq<FormTerm<V>>),
    Wedged(Seq<FormTerm<V>>),
    Differential(Box<FormTerm<V>>),
}

/// The value type of the scalars of `M`.
pub type FValue<M> = <<M as Manifold>::Element as View>::V;

/// The term type of forms on `M`.
pub type FTerm<M> = FormTerm<FValue<M>>;

impl<M: Manifold> View for DifferentialForm<M> {
    type V = FTerm<M>;

    open spec fn view(&self) -> FTerm<M> {
        Self::term(*self)
    }
}

impl<M: Manifold> DifferentialForm<M> {
    pub open spec fn term(e: Self) -> FTerm<M>
        decreases e,
    {
        match e {
            DifferentialForm::Const(c) => FormTerm::Const(c@),
            DifferentialForm::Function(f) => FormTerm::Function(f@),
            DifferentialForm::Neg(x) => FormTerm::Neg(Box::new(Self::term(*x))),
            DifferentialForm::Add(v) => FormTerm::Add(Self::terms(v@)),
            DifferentialForm::Wedged(v) => FormTerm::Wedged(Self::terms(v@)),
            DifferentialForm::Differential(x) => FormTerm::Differential(Box::new(Self::term(*x))),
        }
    }

    pub open spec fn terms(s: Seq<Self>) -> Seq<FTerm<M>>
        decreases s,
    {
        if s.len() == 0 {
            Seq::empty()
        } else {
            seq![Self::term(s[0])] + Self::terms(s.drop_first())
        }
    }

    pub proof fn lemma_terms(s: Seq<Self>)
        ensures
            Self::terms(s).len() == s.len(),
            forall|i: int| 0 <= i < s.len() ==> #[trigger] Self::terms(s)[i] == Self::term(s[i]),
        decreases s.len(),
    {
        if s.len() > 0 {
            Self::lemma_terms(s.drop_first());
            assert forall|i: int| 0 <= i < s.len() implies #[trigger] Self::terms(s)[i] == Self::term(
                s[i],
            ) by {
                if i > 0 {
                    assert(s.drop_first()[i - 1] == s[i]);
                }
            }
        }
    }

    pub proof fn lemma_terms_push(s: Seq<Self>, x: Self)
        ensures
            Self::terms(s.push(x)) == Self::terms(s).push(Self::term(x)),
    {
        Self::lemma_terms(s);
        Self::lemma_terms(s.push(x));
        assert(Self::terms(s.push(x)) =~= Self::terms(s).push(Self::term(x)));
    }

    /// A copy of the form.
    pub fn duplicate(&self) -> (r: Self)
        ensures
            r@ == self@,
        decreases self,
    {
        match self {
            DifferentialForm::Const(c) => DifferentialForm::Const(c.duplicate()),
            DifferentialForm::Function(f) => DifferentialForm::Function(f.clone()),
            DifferentialForm::Neg(x) => DifferentialForm::Neg(Box::new(x.duplicate())),
            DifferentialForm::Differential(x) => DifferentialForm::Differential(
                Box::new(x.duplicate()),
            ),
            DifferentialForm::Add(v) => DifferentialForm::Add(Self::duplicate_list(v, Ghost(*self))),
            DifferentialForm::Wedged(v) => DifferentialForm::Wedged(
                Self::duplicate_list(v, Ghost(*self)),
            ),
        }
    }

    /// Copies of the children `v` of `whole`.
    fn duplicate_list(v: &Vec<Self>, Ghost(whole): Ghost<Self>) -> (r: Vec<Self>)
        requires
            whole == DifferentialForm::<M>::Add(*v) || whole == DifferentialForm::<M>::Wedged(*v),
        ensures
            Self::terms(r@) == Self::terms(v@),
        decreases whole, 0int,
    {
        let mut out: Vec<Self> = Vec::new();
        let mut i: usize = 0;
        while i < v.len()
            invariant
                whole == DifferentialForm::<M>::Add(*v) || whole == DifferentialForm::<M>::Wedged(
                    *v,
                ),
                i <= v.len(),
                Self::terms(out@) == Self::terms(v@.take(i as int)),
            decreases v.len() - i,
        {
            proof {
                if whole == DifferentialForm::<M>::Add(*v) {
                    assert(decreases_to!(whole => whole->Add_0));
                } else {
                    assert(decreases_to!(whole => whole->Wedged_0));
                }
                assert(decreases_to!(v => v@));
                assert(decreases_to!(v@ => v@[i as int]));
            }
            let c = v[i].duplicate();
            proof {
                Self::lemma_terms_push(out@, c);
                Self::lemma_terms_push(v@.take(i as int), v@[i as int]);
                assert(v@.take(i + 1) =~= v@.take(i as int).push(v@[i as int]));
            }
            out.push(c);
            i = i + 1;
        }
        proof {
            assert(v@.take(v.len() as int) =~= v@);
        }
        out
    }

    /// Whether two lists of forms are equal element by element.
    fn equal_lists(a: &Vec<Self>, b: &Vec<Self>, Ghost(whole): Ghost<Self>) -> (r: bool)
        requires
            whole == DifferentialForm::<M>::Add(*a) || whole == DifferentialForm::<M>::Wedged(*a),
        ensures
            r == (Self::terms(a@) == Self::terms(b@)),
        decreases whole, 0int,
    {
        proof {
            Self::lemma_terms(a@);
            Self::lemma_terms(b@);
        }
        if a.len() != b.len() {
            return false;
        }
        let mut i: usize = 0;
        while i < a.len()
            invariant
                whole == DifferentialForm::<M>::Add(*a) || whole == DifferentialForm::<M>::Wedged(
                    *a,
                ),
                i <= a.len(),
                a.len() == b.len(),
                Self::terms(a@).len() == a.len(),
                Self::terms(b@).len() == b.len(),
                forall|j: int| 0 <= j < a.len() ==> #[trigger] Self::terms(a@)[j] == Self::term(a@[j]),
                forall|j: int| 0 <= j < b.len() ==> #[trigger] Self::terms(b@)[j] == Self::term(b@[j]),
                forall|j: int| 0 <= j < i ==> Self::term(#[trigger] a@[j]) == Self::term(b@[j]),
            decreases a.len() - i,
        {
            proof {
                if whole == DifferentialForm::<M>::Add(*a) {
                    assert(decreases_to!(whole => whole->Add_0));
                } else {
                    assert(decreases_to!(whole => whole->Wedged_0));
                }
                assert(decreases_to!(a => a@));
                assert(decreases_to!(a@ => a@[i as int]));
            }
            if !a[i].equals(&b[i]) {
                proof {
                    assert(Self::terms(a@)[i as int] != Self::terms(b@)[i as int]);
                }
                return false;
            }
            i = i + 1;
        }
        proof {
            assert(Self::terms(a@) =~= Self::terms(b@));
        }
        true
    }

    /// Structural equality of the mathematical content.
    pub fn equals(&self, other: &Self) -> (r: bool)
        ensures
            r == (self@ == other@),
        decreases self, 1int,
    {
        match (self, other) {
            (DifferentialForm::Const(a), DifferentialForm::Const(b)) => a.equals(b),
            (DifferentialForm::Function(a), DifferentialForm::Function(b)) => a.same(b),
            (DifferentialForm::Neg(a), DifferentialForm::Neg(b)) => a.equals(b),
            (DifferentialForm::Differential(a), DifferentialForm::Differential(b)) => a.equals(b),
            (DifferentialForm::Add(a), DifferentialForm::Add(b)) => Self::equal_lists(
                a,
                b,
                Ghost(*self),
            ),
            (DifferentialForm::Wedged(a), DifferentialForm::Wedged(b)) => Self::equal_lists(
                a,
                b,
                Ghost(*self),
            ),
            _ => false,
        }
    }
}

impl<M: Manifold> Clone for DifferentialForm<M> {
    fn clone(&self) -> (r: Self)
        ensures
            r@ == self@,
    {
        self.duplicate()
    }
}

impl<M: Manifold> PartialEq for DifferentialForm<M> {
    fn eq(&self, other: &Self) -> (r: bool) {
        self.equals(other)
    }
}

impl<M: Manifold> PartialEqSpecImpl for DifferentialForm<M> {
    open spec fn obeys_eq_spec() -> bool {
        true
    }

    open spec fn eq_spec(&self, other: &Self) -> bool {
        self@ == other@
    }
}

/// A coordinate chart: `dim` functions declared independent, so that their
/// differentials `dx^i` form a basis of the 1-forms. Several charts may
/// coexist on one manifold.
pub struct Chart<M: Manifold> {
    coordinates: Vec<Symbol>,
    manifold: PhantomData<M>,
}

impl<M: Manifold> Chart<M> {
    /// The names of the coordinates.
    pub closed spec fn names(&self) -> Seq<Seq<char>> {
        self.coordinates@.map_values(|s: Symbol| s@)
    }

    /// The chart with the given coordinates, one for each dimension, no two
    /// of them equal.
    pub fn new(coordinates: Vec<Symbol>) -> (r: Self)
        requires
            coordinates@.len() == M::spec_dim(),
            coordinates@.map_values(|s: Symbol| s@).no_duplicates(),
        ensures
            r.names() == coordinates@.map_values(|s: Symbol| s@),
            r.names().len() == M::spec_dim(),
            r.names().no_duplicates(),
    {
        Chart { coordinates, manifold: PhantomData }
    }

    /// The coordinates.
    pub fn coordinates(&self) -> (r: &Vec<Symbol>)
        ensures
            r@.map_values(|s: Symbol| s@) == self.names(),
    {
        &self.coordinates
    }

    /// `x^i` as a 0-form, where the chart has an `i`-th coordinate.
    pub fn coordinate(&self, i: usize) -> (r: Option<DifferentialForm<M>>)
        ensures
            i < self.names().len() ==> (r matches Some(f) && f@ == FormTerm::<FValue<M>>::Function(
                self.names()[i as int],
            )),
            i >= self.names().len() ==> r is None,
    {
        if i < self.coordinates.len() {
            Some(DifferentialForm::Function(self.coordinates[i].clone()))
        } else {
            None
        }
    }

    /// `dx^i`, where the chart has an `i`-th coordinate.
    pub fn differential(&self, i: usize) -> (r: Option<DifferentialForm<M>>)
        ensures
            i < self.names().len() ==> (r matches Some(f) && f@
                == FormTerm::<FValue<M>>::Differential(
                Box::new(FormTerm::Function(self.names()[i as int])),
            )),
            i >= self.names().len() ==> r is None,
    {
        match self.coordinate(i) {
            Some(c) => Some(DifferentialForm::Differential(Box::new(c))),
            None => None,
        }
    }
}

/// Free functions and substitution.
impl<M: Manifold> DifferentialForm<M> {
    /// The names of the functions that occur in a form.
    pub open spec fn function_names(t: FTerm<M>) -> Set<Seq<char>>
        decreases t,
    {
        match t {
            FormTerm::Const(_) => Set::empty(),
            FormTerm::Function(f) => set![f],
            FormTerm::Neg(x) => Self::function_names(*x),
            FormTerm::Differential(x) => Self::function_names(*x),
            FormTerm::Add(xs) => Self::list_names(xs),
            FormTerm::Wedged(xs) => Self::list_names(xs),
        }
    }

    /// The names of the functions that occur in a list of forms.
    pub open spec fn list_names(xs: Seq<FTerm<M>>) -> Set<Seq<char>>
        decreases xs,
    {
        if xs.len() == 0 {
            Set::empty()
        } else {
            Self::function_names(xs[0]).union(Self::list_names(xs.drop_first()))
        }
    }

    /// `t` with every occurrence of the function `name` replaced by `e`.
    pub open spec fn substitution(t: FTerm<M>, name: Seq<char>, e: FTerm<M>) -> FTerm<M>
        decreases t,
    {
        match t {
            FormTerm::Function(f) => if f == name {
                e
            } else {
                t
            },
            FormTerm::Const(_) => t,
            FormTerm::Neg(x) => FormTerm::Neg(Box::new(Self::substitution(*x, name, e))),
            FormTerm::Differential(x) => FormTerm::Differential(
                Box::new(Self::substitution(*x, name, e)),
            ),
            FormTerm::Add(xs) => FormTerm::Add(Self::substitutions(xs, name, e)),
            FormTerm::Wedged(xs) => FormTerm::Wedged(Self::substitutions(xs, name, e)),
        }
    }

    /// [`Self::substitution`] in each form of a list.
    pub open spec fn substitutions(xs: Seq<FTerm<M>>, name: Seq<char>, e: FTerm<M>) -> Seq<
        FTerm<M>,
    >
        decreases xs,
    {
        if xs.len() == 0 {
            Seq::empty()
        } else {
            seq![Self::substitution(xs[0], name, e)] + Self::substitutions(xs.drop_first(), name, e)
        }
    }

    /// Adds the names of the functions in `self` to `seen`.
    fn collect_names(&self, seen: &mut Vec<Symbol>)
        requires
            crate::symbol::names(old(seen)@).no_duplicates(),
        ensures
            crate::symbol::names(final(seen)@).no_duplicates(),
            crate::symbol::names(final(seen)@).to_set() == crate::symbol::names(
                old(seen)@,
            ).to_set().union(Self::function_names(self@)),
        decreases self, 1int,
    {
        let ghost before = crate::symbol::names(seen@).to_set();
        match self {
            DifferentialForm::Const(_) => {
                proof {
                    assert(before.union(Set::empty()) =~= before);
                }
            },
            DifferentialForm::Function(f) => {
                crate::symbol::note_name(seen, f);
                proof {
                    assert(before.insert(f@) =~= before.union(set![f@]));
                }
            },
            DifferentialForm::Neg(x) => x.collect_names(seen),
            DifferentialForm::Differential(x) => x.collect_names(seen),
            DifferentialForm::Add(v) => Self::collect_list_names(v, seen, Ghost(*self)),
            DifferentialForm::Wedged(v) => Self::collect_list_names(v, seen, Ghost(*self)),
        }
    }

    /// Adds the names of the functions in the children `v` of `whole`.
    fn collect_list_names(v: &Vec<Self>, seen: &mut Vec<Symbol>, Ghost(whole): Ghost<Self>)
        requires
            whole == DifferentialForm::<M>::Add(*v) || whole == DifferentialForm::<M>::Wedged(*v),
            crate::symbol::names(old(seen)@).no_duplicates(),
        ensures
            crate::symbol::names(final(seen)@).no_duplicates(),
            crate::symbol::names(final(seen)@).to_set() == crate::symbol::names(
                old(seen)@,
            ).to_set().union(Self::list_names(Self::terms(v@))),
        decreases whole, 0int,
    {
        let ghost start = crate::symbol::names(seen@).to_set();
        let mut i: usize = 0;
        proof {
            Self::lemma_terms(v@);
            assert(Self::terms(v@).skip(0) =~= Self::terms(v@));
        }
        while i < v.len()
            invariant
                whole == DifferentialForm::<M>::Add(*v) || whole == DifferentialForm::<M>::Wedged(
                    *v,
                ),
                i <= v.len(),
                Self::terms(v@).len() == v.len(),
                forall|j: int| 0 <= j < v.len() ==> #[trigger] Self::terms(v@)[j] == Self::term(v@[j]),
                crate::symbol::names(seen@).no_duplicates(),
                crate::symbol::names(seen@).to_set().union(
                    Self::list_names(Self::terms(v@).skip(i as int)),
                ) == start.union(Self::list_names(Self::terms(v@))),
            decreases v.len() - i,
        {
            proof {
                if whole == DifferentialForm::<M>::Add(*v) {
                    assert(decreases_to!(whole => whole->Add_0));
                } else {
                    assert(decreases_to!(whole => whole->Wedged_0));
                }
                assert(decreases_to!(v => v@));
                assert(decreases_to!(v@ => v@[i as int]));
            }
            let ghost mid = crate::symbol::names(seen@).to_set();
            v[i].collect_names(seen);
            proof {
                let rest = Self::terms(v@).skip(i as int);
                assert(rest[0] == Self::term(v@[i as int]));
                assert(rest.drop_first() =~= Self::terms(v@).skip(i + 1));
                let now = crate::symbol::names(seen@).to_set();
                let here = Self::function_names(v@[i as int]@);
                let later = Self::list_names(Self::terms(v@).skip(i + 1));
                assert(now.union(later) =~= mid.union(here.union(later)));
            }
            i = i + 1;
        }
        proof {
            assert(Self::terms(v@).skip(v.len() as int) =~= Seq::<FTerm<M>>::empty());
            let now = crate::symbol::names(seen@).to_set();
            assert(now.union(Set::empty()) =~= now);
        }
    }

    /// The number of distinct functions that occur in the form.
    pub fn degrees_of_freedom(&self) -> (r: usize)
        ensures
            r == Self::function_names(self@).len(),
    {
        let mut seen: Vec<Symbol> = Vec::new();
        proof {
            assert(crate::symbol::names(seen@) =~= Seq::<Seq<char>>::empty());
        }
        self.collect_names(&mut seen);
        proof {
            let ns = crate::symbol::names(seen@);
            assert(Seq::<Seq<char>>::empty().to_set() =~= Set::<Seq<char>>::empty());
            assert(Set::<Seq<char>>::empty().union(Self::function_names(self@)) =~= Self::function_names(
                self@,
            ));
            ns.unique_seq_to_set();
        }
        seen.len()
    }

    /// The form with every occurrence of the function `name` replaced by
    /// a copy of `expr`.
    fn replaced(self, name: &Symbol, expr: &Self) -> (r: Self)
        ensures
            r@ == Self::substitution(self@, name@, expr@),
        decreases self,
    {
        match self {
            DifferentialForm::Function(f) => {
                if f.same(name) {
                    expr.duplicate()
                } else {
                    DifferentialForm::Function(f)
                }
            },
            DifferentialForm::Const(c) => DifferentialForm::Const(c),
            DifferentialForm::Neg(x) => DifferentialForm::Neg(Box::new(x.replaced(name, expr))),
            DifferentialForm::Differential(x) => DifferentialForm::Differential(
                Box::new(x.replaced(name, expr)),
            ),
            DifferentialForm::Add(v) => {
                let ghost whole = DifferentialForm::<M>::Add(v);
                DifferentialForm::Add(Self::replaced_list(v, name, expr, Ghost(whole)))
            },
            DifferentialForm::Wedged(v) => {
                let ghost whole = DifferentialForm::<M>::Wedged(v);
                DifferentialForm::Wedged(Self::replaced_list(v, name, expr, Ghost(whole)))
            },
        }
    }

    /// [`Self::replaced`] on each child `v` of `whole`.
    fn replaced_list(v: Vec<Self>, name: &Symbol, expr: &Self, Ghost(whole): Ghost<Self>) -> (r: Vec<
        Self,
    >)
        requires
            whole == DifferentialForm::<M>::Add(v) || whole == DifferentialForm::<M>::Wedged(v),
        ensures
            Self::terms(r@) == Self::substitutions(Self::terms(v@), name@, expr@),
        decreases whole, 0int,
    {
        let ghost orig = v;
        let mut rest = v;
        let mut done: Vec<Self> = Vec::new();
        proof {
            assert(Self::terms(done@) =~= Seq::<FTerm<M>>::empty());
        }
        while rest.len() > 0
            invariant
                whole == DifferentialForm::<M>::Add(orig) || whole == DifferentialForm::<M>::Wedged(
                    orig,
                ),
                rest@.len() <= orig@.len(),
                forall|j: int| 0 <= j < rest@.len() ==> rest@[j] == orig@[orig@.len() - rest@.len() + j],
                Self::terms(done@) + Self::substitutions(Self::terms(rest@), name@, expr@)
                    == Self::substitutions(Self::terms(orig@), name@, expr@),
            decreases rest.len(),
        {
            let ghost before = rest@;
            let ghost done_before = done@;
            let item = rest.remove(0);
            proof {
                let k = orig@.len() - before.len();
                assert(item == orig@[k]);
                if whole == DifferentialForm::<M>::Add(orig) {
                    assert(decreases_to!(whole => whole->Add_0));
                } else {
                    assert(decreases_to!(whole => whole->Wedged_0));
                }
                assert(decreases_to!(orig => orig@));
                assert(decreases_to!(orig@ => orig@[k]));
                assert(decreases_to!(whole => item));
                assert(rest@ =~= before.drop_first());
                let tb = Self::terms(before);
                assert(tb == seq![Self::term(item)] + Self::terms(rest@));
                assert(tb[0] == Self::term(item));
                assert(tb.drop_first() =~= Self::terms(rest@));
            }
            let n = item.replaced(name, expr);
            proof {
                Self::lemma_terms_push(done_before, n);
                assert(Self::terms(done@.push(n)) + Self::substitutions(Self::terms(rest@), name@, expr@)
                    =~= Self::terms(done_before) + Self::substitutions(Self::terms(before), name@, expr@));
            }
            done.push(n);
        }
        proof {
            assert(Self::terms(done@) + Self::substitutions(Self::terms(rest@), name@, expr@)
                =~= Self::terms(done@));
        }
        done
    }

    /// Replaces every occurrence of the function `sym` by a copy of `expr`.
    /// The copies are not searched again.
    pub fn substitute(&mut self, sym: Symbol, expr: &Self)
        ensures
            final(self)@ == Self::substitution(old(self)@, sym@, expr@),
    {
        let mut e = DifferentialForm::Add(Vec::new());
        std::mem::swap(self, &mut e);
        *self = e.replaced(&sym, expr);
    }

    /// The form with every occurrence of the function `sym` replaced by a
    /// copy of `expr`.
    pub fn substituted(self, sym: Symbol, expr: &Self) -> (r: Self)
        ensures
            r@ == Self::substitution(self@, sym@, expr@),
    {
        self.replaced(&sym, expr)
    }
}

/// A factor of a normalized wedge product: a function `f` (degree 0) or
/// its differential `df` (degree 1).
pub enum Atom {
    F(Seq<char>),
    D(Seq<char>),
}

/// A normalized term: a coefficient times a wedge product of atoms.
pub type Mono<M> = (FValue<M>, Seq<Atom>);

/// The number of differentials among `atoms`.
pub open spec fn degree(atoms: Seq<Atom>) -> nat
    decreases atoms.len(),
{
    if atoms.len() == 0 {
        0
    } else {
        degree(atoms.drop_last()) + if atoms.last() is D {
            1nat
        } else {
            0nat
        }
    }
}

/// An atom as a form.
pub open spec fn atom_form<V>(a: Atom) -> FormTerm<V> {
    match a {
        Atom::F(f) => FormTerm::Function(f),
        Atom::D(f) => FormTerm::Differential(Box::new(FormTerm::Function(f))),
    }
}

/// A factor of a normalized wedge product, as the engine holds it.
enum Factor {
    F(Symbol),
    D(Symbol),
}

impl View for Factor {
    type V = Atom;

    closed spec fn view(&self) -> Atom {
        match self {
            Factor::F(f) => Atom::F(f@),
            Factor::D(f) => Atom::D(f@),
        }
    }
}

/// The atoms of a list of factors.
spec fn atoms_of(v: Seq<Factor>) -> Seq<Atom> {
    v.map_values(|f: Factor| f@)
}

impl Factor {
    fn duplicate(&self) -> (r: Factor)
        ensures
            r@ == self@,
    {
        match self {
            Factor::F(f) => Factor::F(f.clone()),
            Factor::D(f) => Factor::D(f.clone()),
        }
    }

    fn is_differential(&self) -> (r: bool)
        ensures
            r == (self@ is D),
    {
        match self {
            Factor::F(_) => false,
            Factor::D(_) => true,
        }
    }
}

/// A coefficient times a wedge product of factors, as the engine holds it.
struct Term<M: Manifold> {
    coeff: M::Element,
    atoms: Vec<Factor>,
}

impl<M: Manifold> Term<M> {
    spec fn mono(self) -> Mono<M> {
        (self.coeff@, atoms_of(self.atoms@))
    }
}

/// The normalized terms of a list of engine terms.
spec fn monos<M: Manifold>(ts: Seq<Term<M>>) -> Seq<Mono<M>> {
    ts.map_values(|t: Term<M>| t.mono())
}

/// The normal form of forms under the laws of the exterior algebra.
impl<M: Manifold> DifferentialForm<M> {
    /// `-m`.
    pub open spec fn negated(m: Mono<M>) -> Mono<M> {
        (<M::Scalar as Ring>::spec_negate(m.0), m.1)
    }

    /// `a ∧ b`.
    pub open spec fn wedge(a: Mono<M>, b: Mono<M>) -> Mono<M> {
        (times::<M::Scalar>(a.0, b.0), a.1 + b.1)
    }

    /// The empty wedge product, one.
    pub open spec fn unit() -> Mono<M> {
        (one::<M::Scalar>(), Seq::empty())
    }

    /// Every `a ∧ b` with `a` from `acc` and `b` from `rhs`, `a` varying
    /// slowest.
    pub open spec fn cross(acc: Seq<Mono<M>>, rhs: Seq<Mono<M>>) -> Seq<Mono<M>>
        decreases acc.len(),
    {
        if acc.len() == 0 {
            Seq::empty()
        } else {
            rhs.map_values(|b: Mono<M>| Self::wedge(acc[0], b)) + Self::cross(acc.drop_first(), rhs)
        }
    }

    /// Leibniz's rule from the `i`-th atom on, `odd` saying whether the atoms
    /// before it have odd degree: each function `f` among them becomes `df`,
    /// negated past an odd number of differentials.
    pub open spec fn leibniz_from(m: Mono<M>, i: nat, odd: bool) -> Seq<Mono<M>>
        decreases m.1.len() - i,
    {
        if i >= m.1.len() {
            Seq::empty()
        } else {
            let rest = Self::leibniz_from(m, i + 1, odd != (m.1[i as int] is D));
            match m.1[i as int] {
                Atom::F(f) => {
                    let t = (m.0, m.1.update(i as int, Atom::D(f)));
                    seq![
                        if odd {
                            Self::negated(t)
                        } else {
                            t
                        },
                    ] + rest
                },
                Atom::D(_) => rest,
            }
        }
    }

    /// `d(a_1 ∧ … ∧ a_n) = Σ_i (-1)^{deg(a_1 … a_{i-1})} a_1 ∧ … ∧ da_i ∧ … ∧ a_n`,
    /// where `d(df) = 0` and `dc = 0`.
    pub open spec fn leibniz(m: Mono<M>) -> Seq<Mono<M>> {
        Self::leibniz_from(m, 0, false)
    }

    /// Leibniz's rule on each term of a sum.
    pub open spec fn leibniz_all(ms: Seq<Mono<M>>) -> Seq<Mono<M>>
        decreases ms.len(),
    {
        if ms.len() == 0 {
            Seq::empty()
        } else {
            Self::leibniz(ms[0]) + Self::leibniz_all(ms.drop_first())
        }
    }

    /// The terms of a form: the wedge product distributed over sums, and
    /// the exterior derivative applied.
    pub open spec fn monomials(t: FTerm<M>) -> Seq<Mono<M>>
        decreases t,
    {
        match t {
            FormTerm::Const(c) => seq![(c, Seq::<Atom>::empty())],
            FormTerm::Function(f) => seq![(one::<M::Scalar>(), seq![Atom::F(f)])],
            FormTerm::Neg(x) => Self::monomials(*x).map_values(|m: Mono<M>| Self::negated(m)),
            FormTerm::Add(xs) => Self::sum_monomials(xs),
            FormTerm::Wedged(xs) => Self::wedge_monomials(seq![Self::unit()], xs),
            FormTerm::Differential(x) => Self::leibniz_all(Self::monomials(*x)),
        }
    }

    /// The terms of a sum.
    pub open spec fn sum_monomials(xs: Seq<FTerm<M>>) -> Seq<Mono<M>>
        decreases xs,
    {
        if xs.len() == 0 {
            Seq::empty()
        } else {
            Self::monomials(xs[0]) + Self::sum_monomials(xs.drop_first())
        }
    }

    /// The terms of `acc ∧ xs[0] ∧ xs[1] ∧ …`.
    pub open spec fn wedge_monomials(acc: Seq<Mono<M>>, xs: Seq<FTerm<M>>) -> Seq<Mono<M>>
        decreases xs,
    {
        if xs.len() == 0 {
            acc
        } else {
            Self::wedge_monomials(Self::cross(acc, Self::monomials(xs[0])), xs.drop_first())
        }
    }

    /// A term as a form: its coefficient, where it is not one, wedged with
    /// its atoms.
    pub open spec fn mono_form(m: Mono<M>) -> FTerm<M> {
        let atoms = m.1.map_values(|a: Atom| atom_form::<FValue<M>>(a));
        let factors = if m.1.len() == 0 || m.0 != one::<M::Scalar>() {
            seq![FormTerm::Const(m.0)] + atoms
        } else {
            atoms
        };
        if factors.len() == 1 {
            factors[0]
        } else {
            FormTerm::Wedged(factors)
        }
    }

    /// A sum of terms as a form.
    pub open spec fn sum_form(ms: Seq<Mono<M>>) -> FTerm<M> {
        if ms.len() == 0 {
            FormTerm::Const(zero::<M::Scalar>())
        } else if ms.len() == 1 {
            Self::mono_form(ms[0])
        } else {
            FormTerm::Add(ms.map_values(|m: Mono<M>| Self::mono_form(m)))
        }
    }

    /// Whether a term survives: it has degree at most the dimension and a
    /// nonzero coefficient.
    pub open spec fn survives(m: Mono<M>) -> bool {
        degree(m.1) <= M::spec_dim() && m.0 != zero::<M::Scalar>()
    }

    /// The normal form under the laws that need no ordering: linearity, the
    /// wedge product distributing over sums, `dc = 0`, `d(df) = 0`, Leibniz,
    /// constant folding, and vanishing above the dimension. Wedge factors
    /// keep their written order.
    pub open spec fn exterior_normal_form(t: FTerm<M>) -> FTerm<M> {
        Self::sum_form(Self::monomials(t).filter(|m: Mono<M>| Self::survives(m)))
    }
}

/// The exterior-algebra engine.
impl<M: Manifold> DifferentialForm<M> {
    fn zero_value() -> (r: M::Element)
        ensures
            r@ == zero::<M::Scalar>(),
    {
        <<M::Scalar as SemiRing>::Addition as Identity>::identity()
    }

    fn one_value() -> (r: M::Element)
        ensures
            r@ == one::<M::Scalar>(),
    {
        <<M::Scalar as SemiRing>::Multiplication as Identity>::identity()
    }

    fn duplicate_factors(v: &Vec<Factor>) -> (r: Vec<Factor>)
        ensures
            atoms_of(r@) == atoms_of(v@),
    {
        let mut out: Vec<Factor> = Vec::new();
        let mut i: usize = 0;
        while i < v.len()
            invariant
                i <= v.len(),
                atoms_of(out@) == atoms_of(v@.take(i as int)),
            decreases v.len() - i,
        {
            let f = v[i].duplicate();
            proof {
                assert(atoms_of(out@.push(f)) =~= atoms_of(out@).push(f@));
                assert(v@.take(i + 1) =~= v@.take(i as int).push(v@[i as int]));
                assert(atoms_of(v@.take(i as int).push(v@[i as int])) =~= atoms_of(
                    v@.take(i as int),
                ).push(v@[i as int]@));
            }
            out.push(f);
            i = i + 1;
        }
        proof {
            assert(v@.take(v.len() as int) =~= v@);
        }
        out
    }

    fn negated_term(t: Term<M>) -> (r: Term<M>)
        ensures
            r.mono() == Self::negated(t.mono()),
    {
        Term { coeff: <M::Scalar as Ring>::negate(t.coeff), atoms: t.atoms }
    }

    fn wedge_terms(a: &Term<M>, b: &Term<M>) -> (r: Term<M>)
        ensures
            r.mono() == Self::wedge(a.mono(), b.mono()),
    {
        let coeff = <M::Scalar as SemiRing>::multiply(a.coeff.duplicate(), b.coeff.duplicate());
        let mut atoms = Self::duplicate_factors(&a.atoms);
        let mut more = Self::duplicate_factors(&b.atoms);
        let ghost left = atoms@;
        let ghost right = more@;
        atoms.append(&mut more);
        proof {
            assert(atoms_of(left + right) =~= atoms_of(left) + atoms_of(right));
        }
        Term { coeff, atoms }
    }

    fn duplicate_term(t: &Term<M>) -> (r: Term<M>)
        ensures
            r.mono() == t.mono(),
    {
        Term { coeff: t.coeff.duplicate(), atoms: Self::duplicate_factors(&t.atoms) }
    }

    /// Every wedge of a term of `acc` with a term of `rhs`.
    fn cross_terms(acc: &Vec<Term<M>>, rhs: &Vec<Term<M>>) -> (r: Vec<Term<M>>)
        ensures
            monos(r@) == Self::cross(monos(acc@), monos(rhs@)),
    {
        let ghost all = monos(acc@);
        let ghost right = monos(rhs@);
        let mut out: Vec<Term<M>> = Vec::new();
        let mut i: usize = 0;
        proof {
            assert(all.skip(0) =~= all);
            assert(monos(out@) =~= Seq::<Mono<M>>::empty());
        }
        while i < acc.len()
            invariant
                i <= acc.len(),
                all == monos(acc@),
                right == monos(rhs@),
                monos(out@) + Self::cross(all.skip(i as int), right) == Self::cross(all, right),
            decreases acc.len() - i,
        {
            let ghost before = monos(out@);
            let ghost a = all[i as int];
            let mut j: usize = 0;
            while j < rhs.len()
                invariant
                    i < acc.len(),
                    j <= rhs.len(),
                    right == monos(rhs@),
                    a == all[i as int],
                    all == monos(acc@),
                    monos(out@) == before + right.take(j as int).map_values(
                        |b: Mono<M>| Self::wedge(a, b),
                    ),
                decreases rhs.len() - j,
            {
                let w = Self::wedge_terms(&acc[i], &rhs[j]);
                proof {
                    assert(acc@[i as int].mono() == a);
                    assert(rhs@[j as int].mono() == right[j as int]);
                    assert(monos(out@.push(w)) =~= monos(out@).push(w.mono()));
                    assert(right.take(j + 1).map_values(|b: Mono<M>| Self::wedge(a, b))
                        =~= right.take(j as int).map_values(|b: Mono<M>| Self::wedge(a, b)).push(
                        Self::wedge(a, right[j as int]),
                    ));
                }
                out.push(w);
                j = j + 1;
            }
            proof {
                let rest = all.skip(i as int);
                assert(rest[0] == a);
                assert(rest.drop_first() =~= all.skip(i + 1));
                assert(right.take(rhs.len() as int) =~= right);
                assert(monos(out@) + Self::cross(all.skip(i + 1), right) =~= before + Self::cross(
                    rest,
                    right,
                ));
            }
            i = i + 1;
        }
        proof {
            assert(all.skip(acc.len() as int) =~= Seq::<Mono<M>>::empty());
            assert(monos(out@) + Seq::<Mono<M>>::empty() =~= monos(out@));
        }
        out
    }

    /// Leibniz's rule on one term.
    fn leibniz_terms(t: &Term<M>) -> (r: Vec<Term<M>>)
        ensures
            monos(r@) == Self::leibniz(t.mono()),
    {
        let ghost m = t.mono();
        let mut out: Vec<Term<M>> = Vec::new();
        let mut odd = false;
        let mut i: usize = 0;
        proof {
            assert(monos(out@) =~= Seq::<Mono<M>>::empty());
            assert(Seq::<Mono<M>>::empty() + Self::leibniz_from(m, 0, false) =~= Self::leibniz(m));
        }
        while i < t.atoms.len()
            invariant
                i <= t.atoms.len(),
                m == t.mono(),
                m.1.len() == t.atoms.len(),
                monos(out@) + Self::leibniz_from(m, i as nat, odd) == Self::leibniz(m),
            decreases t.atoms.len() - i,
        {
            let ghost before = monos(out@);
            let ghost was_odd = odd;
            proof {
                assert(m.1[i as int] == t.atoms@[i as int]@);
            }
            match &t.atoms[i] {
                Factor::F(f) => {
                    let mut atoms = Self::duplicate_factors(&t.atoms);
                    let ghost copied = atoms@;
                    atoms.set(i, Factor::D(f.clone()));
                    proof {
                        assert(atoms_of(atoms@) =~= atoms_of(copied).update(i as int, Atom::D(f@)));
                    }
                    let nt = Term { coeff: t.coeff.duplicate(), atoms };
                    let nt = if odd {
                        Self::negated_term(nt)
                    } else {
                        nt
                    };
                    proof {
                        assert(monos(out@.push(nt)) =~= monos(out@).push(nt.mono()));
                    }
                    out.push(nt);
                },
                Factor::D(_) => {},
            }
            let d = t.atoms[i].is_differential();
            odd = odd != d;
            proof {
                let rest = Self::leibniz_from(m, (i + 1) as nat, odd);
                assert(Self::leibniz_from(m, i as nat, was_odd) == match m.1[i as int] {
                    Atom::F(f) => {
                        let t2 = (m.0, m.1.update(i as int, Atom::D(f)));
                        seq![if was_odd { Self::negated(t2) } else { t2 }] + rest
                    },
                    Atom::D(_) => rest,
                });
                match m.1[i as int] {
                    Atom::F(f) => {
                        assert(monos(out@) + rest =~= before + Self::leibniz_from(m, i as nat, was_odd));
                    },
                    Atom::D(_) => {},
                }
            }
            i = i + 1;
        }
        proof {
            assert(Self::leibniz_from(m, i as nat, odd) =~= Seq::<Mono<M>>::empty());
            assert(monos(out@) + Seq::<Mono<M>>::empty() =~= monos(out@));
        }
        out
    }
}

/// The terms of a form, computed.
impl<M: Manifold> DifferentialForm<M> {
    proof fn lemma_monos_push(ts: Seq<Term<M>>, t: Term<M>)
        ensures
            monos(ts.push(t)) == monos(ts).push(t.mono()),
    {
        assert(monos(ts.push(t)) =~= monos(ts).push(t.mono()));
    }

    proof fn lemma_monos_concat(a: Seq<Term<M>>, b: Seq<Term<M>>)
        ensures
            monos(a + b) == monos(a) + monos(b),
    {
        assert(monos(a + b) =~= monos(a) + monos(b));
    }

    /// Each term negated.
    fn negated_all(ts: Vec<Term<M>>) -> (r: Vec<Term<M>>)
        ensures
            monos(r@) == monos(ts@).map_values(|m: Mono<M>| Self::negated(m)),
    {
        let ghost all = monos(ts@);
        let mut rest = ts;
        let mut out: Vec<Term<M>> = Vec::new();
        proof {
            assert(rest@ =~= ts@.skip(0));
        }
        while rest.len() > 0
            invariant
                all == monos(ts@),
                rest@.len() <= ts@.len(),
                rest@ == ts@.skip(ts@.len() - rest@.len()),
                monos(out@) == all.take(ts@.len() - rest@.len()).map_values(
                    |m: Mono<M>| Self::negated(m),
                ),
            decreases rest.len(),
        {
            let ghost k = ts@.len() - rest@.len();
            let t = rest.remove(0);
            let n = Self::negated_term(t);
            proof {
                assert(t == ts@[k]);
                assert(rest@ =~= ts@.skip(k + 1));
                Self::lemma_monos_push(out@, n);
                assert(all.take(k + 1).map_values(|m: Mono<M>| Self::negated(m)) =~= all.take(
                    k,
                ).map_values(|m: Mono<M>| Self::negated(m)).push(Self::negated(all[k])));
            }
            out.push(n);
        }
        proof {
            assert(all.take(ts@.len() as int) =~= all);
        }
        out
    }

    /// Leibniz's rule on each term.
    fn leibniz_each(ts: &Vec<Term<M>>) -> (r: Vec<Term<M>>)
        ensures
            monos(r@) == Self::leibniz_all(monos(ts@)),
    {
        let ghost all = monos(ts@);
        let mut out: Vec<Term<M>> = Vec::new();
        let mut i: usize = 0;
        proof {
            assert(all.skip(0) =~= all);
            assert(monos(out@) =~= Seq::<Mono<M>>::empty());
        }
        while i < ts.len()
            invariant
                i <= ts.len(),
                all == monos(ts@),
                monos(out@) + Self::leibniz_all(all.skip(i as int)) == Self::leibniz_all(all),
            decreases ts.len() - i,
        {
            let ghost out_before = out@;
            let mut more = Self::leibniz_terms(&ts[i]);
            let ghost added = more@;
            out.append(&mut more);
            proof {
                Self::lemma_monos_concat(out_before, added);
                let rest = all.skip(i as int);
                assert(rest[0] == ts@[i as int].mono());
                assert(rest.drop_first() =~= all.skip(i + 1));
            }
            i = i + 1;
        }
        proof {
            assert(all.skip(ts.len() as int) =~= Seq::<Mono<M>>::empty());
            assert(monos(out@) + Seq::<Mono<M>>::empty() =~= monos(out@));
        }
        out
    }
}

impl<M: Manifold> DifferentialForm<M> {
    /// The terms of the form.
    fn monomials_of(self) -> (r: Vec<Term<M>>)
        ensures
            monos(r@) == Self::monomials(self@),
        decreases self,
    {
        let ghost whole = self;
        match self {
            DifferentialForm::Const(c) => {
                let t = Term { coeff: c, atoms: Vec::new() };
                let mut out: Vec<Term<M>> = Vec::new();
                out.push(t);
                proof {
                    assert(atoms_of(t.atoms@) =~= Seq::<Atom>::empty());
                    assert(monos(out@) =~= seq![t.mono()]);
                }
                out
            },
            DifferentialForm::Function(f) => {
                let mut atoms: Vec<Factor> = Vec::new();
                atoms.push(Factor::F(f));
                let t = Term { coeff: Self::one_value(), atoms };
                let mut out: Vec<Term<M>> = Vec::new();
                out.push(t);
                proof {
                    assert(atoms_of(t.atoms@) =~= seq![Atom::F(f@)]);
                    assert(monos(out@) =~= seq![t.mono()]);
                }
                out
            },
            DifferentialForm::Neg(x) => Self::negated_all(x.monomials_of()),
            DifferentialForm::Differential(x) => {
                let ts = x.monomials_of();
                Self::leibniz_each(&ts)
            },
            DifferentialForm::Add(v) => Self::sum_of(v, Ghost(whole)),
            DifferentialForm::Wedged(v) => Self::wedge_of(v, Ghost(whole)),
        }
    }

    /// The terms of the sum of the children `v` of `whole`.
    fn sum_of(v: Vec<Self>, Ghost(whole): Ghost<Self>) -> (r: Vec<Term<M>>)
        requires
            whole == DifferentialForm::<M>::Add(v),
        ensures
            monos(r@) == Self::sum_monomials(Self::terms(v@)),
        decreases whole, 0int,
    {
        let ghost orig = v;
        let mut rest = v;
        let mut out: Vec<Term<M>> = Vec::new();
        proof {
            assert(monos(out@) =~= Seq::<Mono<M>>::empty());
            assert(Seq::<Mono<M>>::empty() + Self::sum_monomials(Self::terms(rest@))
                =~= Self::sum_monomials(Self::terms(orig@)));
        }
        while rest.len() > 0
            invariant
                whole == DifferentialForm::<M>::Add(orig),
                rest@.len() <= orig@.len(),
                forall|j: int| 0 <= j < rest@.len() ==> rest@[j] == orig@[orig@.len() - rest@.len() + j],
                monos(out@) + Self::sum_monomials(Self::terms(rest@)) == Self::sum_monomials(
                    Self::terms(orig@),
                ),
            decreases rest.len(),
        {
            let ghost before = rest@;
            let ghost out_before = out@;
            let item = rest.remove(0);
            proof {
                let k = orig@.len() - before.len();
                assert(item == orig@[k]);
                assert(decreases_to!(whole => whole->Add_0));
                assert(decreases_to!(orig => orig@));
                assert(decreases_to!(orig@ => orig@[k]));
                assert(rest@ =~= before.drop_first());
                let tb = Self::terms(before);
                assert(tb == seq![Self::term(item)] + Self::terms(rest@));
                assert(tb[0] == Self::term(item));
                assert(tb.drop_first() =~= Self::terms(rest@));
            }
            let mut more = item.monomials_of();
            let ghost added = more@;
            out.append(&mut more);
            proof {
                Self::lemma_monos_concat(out_before, added);
                assert(monos(out@) + Self::sum_monomials(Self::terms(rest@)) =~= monos(out_before)
                    + Self::sum_monomials(Self::terms(before)));
            }
        }
        proof {
            assert(Self::terms(rest@) =~= Seq::<FTerm<M>>::empty());
            assert(monos(out@) + Seq::<Mono<M>>::empty() =~= monos(out@));
        }
        out
    }

    /// The terms of the wedge product of the children `v` of `whole`.
    fn wedge_of(v: Vec<Self>, Ghost(whole): Ghost<Self>) -> (r: Vec<Term<M>>)
        requires
            whole == DifferentialForm::<M>::Wedged(v),
        ensures
            monos(r@) == Self::wedge_monomials(seq![Self::unit()], Self::terms(v@)),
        decreases whole, 0int,
    {
        let ghost orig = v;
        let mut rest = v;
        let mut acc: Vec<Term<M>> = Vec::new();
        let unit = Term { coeff: Self::one_value(), atoms: Vec::new() };
        acc.push(unit);
        proof {
            assert(atoms_of(unit.atoms@) =~= Seq::<Atom>::empty());
            assert(monos(acc@) =~= seq![Self::unit()]);
        }
        while rest.len() > 0
            invariant
                whole == DifferentialForm::<M>::Wedged(orig),
                rest@.len() <= orig@.len(),
                forall|j: int| 0 <= j < rest@.len() ==> rest@[j] == orig@[orig@.len() - rest@.len() + j],
                Self::wedge_monomials(monos(acc@), Self::terms(rest@)) == Self::wedge_monomials(
                    seq![Self::unit()],
                    Self::terms(orig@),
                ),
            decreases rest.len(),
        {
            let ghost before = rest@;
            let item = rest.remove(0);
            proof {
                let k = orig@.len() - before.len();
                assert(item == orig@[k]);
                assert(decreases_to!(whole => whole->Wedged_0));
                assert(decreases_to!(orig => orig@));
                assert(decreases_to!(orig@ => orig@[k]));
                assert(rest@ =~= before.drop_first());
                let tb = Self::terms(before);
                assert(tb == seq![Self::term(item)] + Self::terms(rest@));
                assert(tb[0] == Self::term(item));
                assert(tb.drop_first() =~= Self::terms(rest@));
            }
            let rhs = item.monomials_of();
            acc = Self::cross_terms(&acc, &rhs);
        }
        proof {
            assert(Self::terms(rest@) =~= Seq::<FTerm<M>>::empty());
        }
        acc
    }
}

impl<M: Manifold> DifferentialForm<M> {
    /// The number of differentials among the factors.
    fn degree_of(atoms: &Vec<Factor>) -> (r: usize)
        ensures
            r == degree(atoms_of(atoms@)),
    {
        let mut count: usize = 0;
        let mut i: usize = 0;
        proof {
            assert(atoms_of(atoms@).take(0) =~= Seq::<Atom>::empty());
        }
        while i < atoms.len()
            invariant
                i <= atoms.len(),
                count <= i,
                count == degree(atoms_of(atoms@).take(i as int)),
            decreases atoms.len() - i,
        {
            proof {
                let s = atoms_of(atoms@).take(i + 1);
                assert(s.drop_last() =~= atoms_of(atoms@).take(i as int));
                assert(s.last() == atoms@[i as int]@);
            }
            if atoms[i].is_differential() {
                count = count + 1;
            }
            i = i + 1;
        }
        proof {
            assert(atoms_of(atoms@).take(atoms.len() as int) =~= atoms_of(atoms@));
        }
        count
    }

    /// The terms of degree at most the dimension with a nonzero coefficient.
    fn survivors(ts: Vec<Term<M>>) -> (r: Vec<Term<M>>)
        ensures
            monos(r@) == monos(ts@).filter(|m: Mono<M>| Self::survives(m)),
    {
        let ghost all = monos(ts@);
        let ghost keep = |m: Mono<M>| Self::survives(m);
        let dim = M::dim();
        let nothing = Self::zero_value();
        let mut rest = ts;
        let mut out: Vec<Term<M>> = Vec::new();
        proof {
            assert(rest@ =~= ts@.skip(0));
            reveal(Seq::filter);
            assert(all.take(0) =~= Seq::<Mono<M>>::empty());
            assert(monos(out@) =~= all.take(0).filter(keep));
        }
        while rest.len() > 0
            invariant
                all == monos(ts@),
                keep == (|m: Mono<M>| Self::survives(m)),
                dim == M::spec_dim(),
                nothing@ == zero::<M::Scalar>(),
                rest@.len() <= ts@.len(),
                rest@ == ts@.skip(ts@.len() - rest@.len()),
                monos(out@) == all.take(ts@.len() - rest@.len()).filter(keep),
            decreases rest.len(),
        {
            let ghost k = ts@.len() - rest@.len();
            let t = rest.remove(0);
            proof {
                assert(t == ts@[k]);
                assert(rest@ =~= ts@.skip(k + 1));
                reveal(Seq::filter);
                let s = all.take(k + 1);
                assert(s.drop_last() =~= all.take(k));
                assert(s.last() == t.mono());
            }
            let d = Self::degree_of(&t.atoms);
            if d <= dim && !t.coeff.equals(&nothing) {
                proof {
                    Self::lemma_monos_push(out@, t);
                }
                out.push(t);
            }
        }
        proof {
            assert(all.take(ts@.len() as int) =~= all);
        }
        out
    }

    /// An atom as a form.
    fn factor_form(f: &Factor) -> (r: Self)
        ensures
            r@ == atom_form::<FValue<M>>(f@),
    {
        match f {
            Factor::F(s) => DifferentialForm::Function(s.clone()),
            Factor::D(s) => {
                let inner = DifferentialForm::<M>::Function(s.clone());
                assert(inner@ == FormTerm::<FValue<M>>::Function(s@));
                DifferentialForm::Differential(Box::new(inner))
            },
        }
    }

    /// A term as a form.
    fn term_form(t: Term<M>) -> (r: Self)
        ensures
            r@ == Self::mono_form(t.mono()),
    {
        let ghost m = t.mono();
        let ghost atoms = m.1.map_values(|a: Atom| atom_form::<FValue<M>>(a));
        let unit = Self::one_value();
        let lead = t.atoms.len() == 0 || !t.coeff.equals(&unit);
        let mut factors: Vec<Self> = Vec::new();
        let mut rest = t.atoms;
        let ghost all = rest@;
        if lead {
            factors.push(DifferentialForm::Const(t.coeff));
        }
        let ghost start = Self::terms(factors@);
        proof {
            Self::lemma_terms(factors@);
            assert(rest@ =~= all.skip(0));
            assert(start + atoms.take(0) =~= start);
        }
        while rest.len() > 0
            invariant
                atoms == m.1.map_values(|a: Atom| atom_form::<FValue<M>>(a)),
                m.1 == atoms_of(all),
                rest@.len() <= all.len(),
                rest@ == all.skip(all.len() - rest@.len()),
                Self::terms(factors@) == start + atoms.take(all.len() - rest@.len()),
            decreases rest.len(),
        {
            let ghost k = all.len() - rest@.len();
            let f = rest.remove(0);
            proof {
                assert(f == all[k]);
                assert(rest@ =~= all.skip(k + 1));
            }
            let g = Self::factor_form(&f);
            proof {
                Self::lemma_terms_push(factors@, g);
                assert(atoms.take(k + 1) =~= atoms.take(k).push(atoms[k]));
            }
            factors.push(g);
        }
        proof {
            assert(atoms.take(all.len() as int) =~= atoms);
            Self::lemma_terms(factors@);
            if lead {
                assert(start =~= seq![FormTerm::Const(m.0)]);
            } else {
                assert(start =~= Seq::<FTerm<M>>::empty());
                assert(start + atoms =~= atoms);
            }
        }
        if factors.len() == 1 {
            let r = factors.pop().unwrap();
            r
        } else {
            DifferentialForm::Wedged(factors)
        }
    }

    /// A sum of terms as a form.
    fn sum_form_of(ts: Vec<Term<M>>) -> (r: Self)
        ensures
            r@ == Self::sum_form(monos(ts@)),
    {
        let ghost ms = monos(ts@);
        if ts.len() == 0 {
            return DifferentialForm::Const(Self::zero_value());
        }
        let mut ts = ts;
        if ts.len() == 1 {
            let t = ts.pop().unwrap();
            return Self::term_form(t);
        }
        let ghost all = ts@;
        let mut out: Vec<Self> = Vec::new();
        proof {
            assert(ts@ =~= all.skip(0));
            assert(Self::terms(out@) =~= ms.take(0).map_values(|m: Mono<M>| Self::mono_form(m)));
        }
        while ts.len() > 0
            invariant
                ms == monos(all),
                ts@.len() <= all.len(),
                ts@ == all.skip(all.len() - ts@.len()),
                Self::terms(out@) == ms.take(all.len() - ts@.len()).map_values(
                    |m: Mono<M>| Self::mono_form(m),
                ),
            decreases ts.len(),
        {
            let ghost k = all.len() - ts@.len();
            let t = ts.remove(0);
            proof {
                assert(t == all[k]);
                assert(ts@ =~= all.skip(k + 1));
            }
            let f = Self::term_form(t);
            proof {
                Self::lemma_terms_push(out@, f);
                assert(ms.take(k + 1).map_values(|m: Mono<M>| Self::mono_form(m)) =~= ms.take(
                    k,
                ).map_values(|m: Mono<M>| Self::mono_form(m)).push(Self::mono_form(ms[k])));
            }
            out.push(f);
        }
        proof {
            assert(ms.take(all.len() as int) =~= ms);
        }
        DifferentialForm::Add(out)
    }

    /// The normal form under the laws that need no ordering.
    fn exterior_normalized(self) -> (r: Self)
        ensures
            r@ == Self::exterior_normal_form(self@),
    {
        let ts = self.monomials_of();
        let kept = Self::survivors(ts);
        Self::sum_form_of(kept)
    }
}

/// Normalizes forms by the exterior-algebra laws that need no ordering:
/// linearity, the wedge product distributing over sums, `dc = 0`,
/// `d(df) = 0`, Leibniz, constant folding, and vanishing above the
/// dimension. Wedge factors keep their written order.
pub struct ExteriorFormatter<M: Manifold> {
    marker: PhantomData<M>,
}

impl<M: Manifold> ExteriorFormatter<M> {
    pub fn new() -> (r: Self) {
        ExteriorFormatter { marker: PhantomData }
    }

    /// The normal form of `expr`.
    pub fn format_expr(&self, expr: DifferentialForm<M>) -> (r: DifferentialForm<M>)
        ensures
            r@ == DifferentialForm::<M>::exterior_normal_form(expr@),
    {
        expr.exterior_normalized()
    }
}

/// The order of atoms: functions before differentials, each by name.
pub open spec fn atom_order(a: Atom, b: Atom) -> Cmp {
    match (a, b) {
        (Atom::F(x), Atom::F(y)) => compare_chars(x, y),
        (Atom::D(x), Atom::D(y)) => compare_chars(x, y),
        (Atom::F(_), Atom::D(_)) => Cmp::Less,
        (Atom::D(_), Atom::F(_)) => Cmp::Greater,
    }
}

/// Wedge products of atoms in lexicographic order; a prefix comes first.
pub open spec fn word_order(a: Seq<Atom>, b: Seq<Atom>) -> Cmp
    decreases a.len(),
{
    if a.len() == 0 || b.len() == 0 {
        compare_ints(a.len() as int, b.len() as int)
    } else {
        match atom_order(a[0], b[0]) {
            Cmp::Equal => word_order(a.drop_first(), b.drop_first()),
            c => c,
        }
    }
}

/// `x` inserted into `sorted` after every atom that is not greater than
/// it, with the number of atoms it passes on the way.
pub open spec fn insert_atom(sorted: Seq<Atom>, x: Atom) -> (Seq<Atom>, nat)
    decreases sorted.len(),
{
    if sorted.len() == 0 {
        (seq![x], 0)
    } else if atom_order(sorted.last(), x) == Cmp::Greater {
        let (s, k) = insert_atom(sorted.drop_last(), x);
        (s.push(sorted.last()), k + 1)
    } else {
        (sorted.push(x), 0)
    }
}

/// Atoms sorted by insertion, with whether it took an odd number of
/// transpositions of neighbours: the sign of the permutation.
pub open spec fn sort_atoms(s: Seq<Atom>) -> (Seq<Atom>, bool)
    decreases s.len(),
{
    if s.len() == 0 {
        (Seq::empty(), false)
    } else {
        let (sorted, odd) = sort_atoms(s.drop_last());
        let (inserted, k) = insert_atom(sorted, s.last());
        (inserted, odd != (k % 2 == 1))
    }
}

/// The functions among the atoms, in order.
pub open spec fn functions_of(s: Seq<Atom>) -> Seq<Atom>
    decreases s.len(),
{
    if s.len() == 0 {
        Seq::empty()
    } else {
        let rest = functions_of(s.drop_last());
        if s.last() is F {
            rest.push(s.last())
        } else {
            rest
        }
    }
}

/// The differentials among the atoms, in order.
pub open spec fn differentials_of(s: Seq<Atom>) -> Seq<Atom>
    decreases s.len(),
{
    if s.len() == 0 {
        Seq::empty()
    } else {
        let rest = differentials_of(s.drop_last());
        if s.last() is D {
            rest.push(s.last())
        } else {
            rest
        }
    }
}

/// Whether two neighbours are equal.
pub open spec fn has_repeat(s: Seq<Atom>) -> bool {
    exists|i: int| 0 <= i < s.len() - 1 && #[trigger] s[i] == s[i + 1]
}

/// Graded commutativity on one term.
impl<M: Manifold> DifferentialForm<M> {
    /// A term with its functions sorted and then its differentials sorted
    /// with the sign of their permutation (functions commute with
    /// everything, differentials anticommute); none when a differential
    /// repeats, since `df ∧ df = 0`.
    pub open spec fn canonical(m: Mono<M>) -> Option<Mono<M>> {
        let fs = sort_atoms(functions_of(m.1)).0;
        let (ds, odd) = sort_atoms(differentials_of(m.1));
        if has_repeat(ds) {
            None
        } else {
            Some(
                (
                    if odd {
                        <M::Scalar as Ring>::spec_negate(m.0)
                    } else {
                        m.0
                    },
                    fs + ds,
                ),
            )
        }
    }

    /// `x` inserted into `sorted` after every term whose atoms do not come
    /// after its own.
    pub open spec fn insert_term(sorted: Seq<Mono<M>>, x: Mono<M>) -> Seq<Mono<M>>
        decreases sorted.len(),
    {
        if sorted.len() == 0 {
            seq![x]
        } else if word_order(sorted.last().1, x.1) == Cmp::Greater {
            Self::insert_term(sorted.drop_last(), x).push(sorted.last())
        } else {
            sorted.push(x)
        }
    }

    /// Terms stably sorted by their atoms.
    pub open spec fn sort_terms(s: Seq<Mono<M>>) -> Seq<Mono<M>>
        decreases s.len(),
    {
        if s.len() == 0 {
            Seq::empty()
        } else {
            Self::insert_term(Self::sort_terms(s.drop_last()), s.last())
        }
    }

    /// Neighbouring terms with the same atoms merged by adding their
    /// coefficients.
    pub open spec fn merge_terms(s: Seq<Mono<M>>) -> Seq<Mono<M>>
        decreases s.len(),
    {
        if s.len() == 0 {
            Seq::empty()
        } else {
            let out = Self::merge_terms(s.drop_last());
            let t = s.last();
            if out.len() > 0 && out.last().1 == t.1 {
                out.drop_last().push((plus::<M::Scalar>(out.last().0, t.0), t.1))
            } else {
                out.push(t)
            }
        }
    }

    /// Whether a term has degree at most the dimension.
    pub open spec fn within_dimension(m: Mono<M>) -> bool {
        degree(m.1) <= M::spec_dim()
    }

    /// Whether a term has a nonzero coefficient.
    pub open spec fn nonzero(m: Mono<M>) -> bool {
        m.0 != zero::<M::Scalar>()
    }

    /// The normal form under the laws of [`Self::exterior_normal_form`] and
    /// graded commutativity: wedge factors sort into a canonical order with
    /// the sign of the permutation, `df ∧ df = 0`, and like terms collect
    /// into one coefficient, terms sorted by their atoms.
    pub open spec fn graded_normal_form(t: FTerm<M>) -> FTerm<M> {
        let low = Self::monomials(t).filter(|m: Mono<M>| Self::within_dimension(m));
        let canonical = low.filter_map(|m: Mono<M>| Self::canonical(m));
        let merged = Self::merge_terms(Self::sort_terms(canonical));
        Self::sum_form(merged.filter(|m: Mono<M>| Self::nonzero(m)))
    }
}

/// The graded-commutative engine.
impl<M: Manifold> DifferentialForm<M> {
    fn atom_order_exec(a: &Factor, b: &Factor) -> (r: Cmp)
        ensures
            r == atom_order(a@, b@),
    {
        match (a, b) {
            (Factor::F(x), Factor::F(y)) => x.compare(y),
            (Factor::D(x), Factor::D(y)) => x.compare(y),
            (Factor::F(_), Factor::D(_)) => Cmp::Less,
            (Factor::D(_), Factor::F(_)) => Cmp::Greater,
        }
    }

    fn same_factor(a: &Factor, b: &Factor) -> (r: bool)
        ensures
            r == (a@ == b@),
    {
        match (a, b) {
            (Factor::F(x), Factor::F(y)) => x.same(y),
            (Factor::D(x), Factor::D(y)) => x.same(y),
            _ => false,
        }
    }

    fn word_order_exec(a: &Vec<Factor>, b: &Vec<Factor>) -> (r: Cmp)
        ensures
            r == word_order(atoms_of(a@), atoms_of(b@)),
    {
        let ghost x = atoms_of(a@);
        let ghost y = atoms_of(b@);
        proof {
            assert(x.skip(0) =~= x);
            assert(y.skip(0) =~= y);
        }
        let mut i: usize = 0;
        while i < a.len() && i < b.len()
            invariant
                x == atoms_of(a@),
                y == atoms_of(b@),
                i <= a.len(),
                i <= b.len(),
                word_order(x, y) == word_order(x.skip(i as int), y.skip(i as int)),
            decreases a.len() - i,
        {
            proof {
                assert(x.skip(i as int)[0] == a@[i as int]@);
                assert(y.skip(i as int)[0] == b@[i as int]@);
                assert(x.skip(i as int).drop_first() =~= x.skip(i + 1));
                assert(y.skip(i as int).drop_first() =~= y.skip(i + 1));
            }
            let c = Self::atom_order_exec(&a[i], &b[i]);
            match c {
                Cmp::Equal => {},
                _ => {
                    return c;
                },
            }
            i = i + 1;
        }
        if a.len() - i < b.len() - i {
            Cmp::Less
        } else if a.len() - i > b.len() - i {
            Cmp::Greater
        } else {
            Cmp::Equal
        }
    }

    fn same_words(a: &Vec<Factor>, b: &Vec<Factor>) -> (r: bool)
        ensures
            r == (atoms_of(a@) == atoms_of(b@)),
    {
        if a.len() != b.len() {
            proof {
                assert(atoms_of(a@).len() != atoms_of(b@).len());
            }
            return false;
        }
        let mut i: usize = 0;
        while i < a.len()
            invariant
                i <= a.len(),
                a.len() == b.len(),
                forall|j: int| 0 <= j < i ==> #[trigger] atoms_of(a@)[j] == atoms_of(b@)[j],
            decreases a.len() - i,
        {
            if !Self::same_factor(&a[i], &b[i]) {
                proof {
                    assert(atoms_of(a@)[i as int] != atoms_of(b@)[i as int]);
                }
                return false;
            }
            i = i + 1;
        }
        proof {
            assert(atoms_of(a@) =~= atoms_of(b@));
        }
        true
    }

    proof fn lemma_insert_atom_at(sorted: Seq<Atom>, x: Atom, i: int)
        requires
            0 <= i <= sorted.len(),
            forall|j: int| i <= j < sorted.len() ==> #[trigger] atom_order(sorted[j], x) == Cmp::Greater,
            i == 0 || atom_order(sorted[i - 1], x) != Cmp::Greater,
        ensures
            insert_atom(sorted, x) == (sorted.take(i).push(x) + sorted.skip(i), (sorted.len() - i) as nat),
        decreases sorted.len(),
    {
        if sorted.len() == 0 {
            assert(sorted.take(i).push(x) + sorted.skip(i) =~= seq![x]);
        } else if i == sorted.len() {
            assert(sorted.take(i).push(x) + sorted.skip(i) =~= sorted.push(x));
        } else {
            let rest = sorted.drop_last();
            assert forall|j: int| i <= j < rest.len() implies #[trigger] atom_order(rest[j], x)
                == Cmp::Greater by {
                assert(rest[j] == sorted[j]);
            }
            Self::lemma_insert_atom_at(rest, x, i);
            assert(rest.take(i).push(x) + rest.skip(i) + seq![sorted.last()] =~= sorted.take(i).push(x)
                + sorted.skip(i));
        }
    }

    /// Atoms sorted by insertion, with the parity of the transpositions.
    fn sort_atoms_exec(v: Vec<Factor>) -> (r: (Vec<Factor>, bool))
        ensures
            (atoms_of(r.0@), r.1) == sort_atoms(atoms_of(v@)),
    {
        let ghost all = atoms_of(v@);
        let mut rest = v;
        let mut out: Vec<Factor> = Vec::new();
        let mut odd = false;
        proof {
            assert(all.take(0) =~= Seq::<Atom>::empty());
            assert(atoms_of(rest@) =~= all.skip(0));
            assert(atoms_of(out@) =~= Seq::<Atom>::empty());
        }
        while rest.len() > 0
            invariant
                rest@.len() <= all.len(),
                atoms_of(rest@) == all.skip(all.len() - rest@.len()),
                (atoms_of(out@), odd) == sort_atoms(all.take(all.len() - rest@.len())),
            decreases rest.len(),
        {
            let ghost k = all.len() - rest@.len();
            let ghost sorted = atoms_of(out@);
            let ghost before = rest@;
            let item = rest.remove(0);
            let ghost x = item@;
            proof {
                assert(item == before[0]);
                assert(atoms_of(before)[0] == x);
                assert(all.skip(k)[0] == all[k]);
                assert(rest@ =~= before.drop_first());
                assert(atoms_of(rest@) =~= atoms_of(before).drop_first());
                assert(atoms_of(rest@) =~= all.skip(k + 1));
                assert(all.take(k + 1).drop_last() =~= all.take(k));
                assert(all.take(k + 1).last() == x);
            }
            let mut i = out.len();
            while i > 0
                invariant
                    i <= out.len(),
                    sorted == atoms_of(out@),
                    x == item@,
                    forall|j: int| i <= j < sorted.len() ==> #[trigger] atom_order(sorted[j], x)
                        == Cmp::Greater,
                ensures
                    i <= out.len(),
                    forall|j: int| i <= j < sorted.len() ==> #[trigger] atom_order(sorted[j], x)
                        == Cmp::Greater,
                    i == 0 || atom_order(sorted[i - 1], x) != Cmp::Greater,
                decreases i,
            {
                let c = Self::atom_order_exec(&out[i - 1], &item);
                match c {
                    Cmp::Greater => {},
                    _ => {
                        break;
                    },
                }
                i = i - 1;
            }
            let passed = out.len() - i;
            proof {
                Self::lemma_insert_atom_at(sorted, x, i as int);
            }
            out.insert(i, item);
            proof {
                assert(atoms_of(out@) =~= sorted.take(i as int).push(x) + sorted.skip(i as int));
            }
            odd = odd != (passed % 2 == 1);
        }
        proof {
            assert(all.take(all.len() as int) =~= all);
        }
        (out, odd)
    }

    /// The functions and the differentials among the factors, in order.
    fn split_factors(v: &Vec<Factor>) -> (r: (Vec<Factor>, Vec<Factor>))
        ensures
            atoms_of(r.0@) == functions_of(atoms_of(v@)),
            atoms_of(r.1@) == differentials_of(atoms_of(v@)),
    {
        let ghost all = atoms_of(v@);
        let mut fs: Vec<Factor> = Vec::new();
        let mut ds: Vec<Factor> = Vec::new();
        let mut i: usize = 0;
        proof {
            assert(all.take(0) =~= Seq::<Atom>::empty());
            assert(atoms_of(fs@) =~= Seq::<Atom>::empty());
            assert(atoms_of(ds@) =~= Seq::<Atom>::empty());
        }
        while i < v.len()
            invariant
                i <= v.len(),
                all == atoms_of(v@),
                atoms_of(fs@) == functions_of(all.take(i as int)),
                atoms_of(ds@) == differentials_of(all.take(i as int)),
            decreases v.len() - i,
        {
            let f = v[i].duplicate();
            proof {
                assert(all.take(i + 1).drop_last() =~= all.take(i as int));
                assert(all.take(i + 1).last() == f@);
            }
            if f.is_differential() {
                proof {
                    assert(atoms_of(ds@.push(f)) =~= atoms_of(ds@).push(f@));
                }
                ds.push(f);
            } else {
                proof {
                    assert(atoms_of(fs@.push(f)) =~= atoms_of(fs@).push(f@));
                }
                fs.push(f);
            }
            i = i + 1;
        }
        proof {
            assert(all.take(v.len() as int) =~= all);
        }
        (fs, ds)
    }

    /// Whether two neighbouring factors are equal.
    fn has_repeat_exec(v: &Vec<Factor>) -> (r: bool)
        ensures
            r == has_repeat(atoms_of(v@)),
    {
        let ghost all = atoms_of(v@);
        let mut i: usize = 0;
        while v.len() > 0 && i < v.len() - 1
            invariant
                all == atoms_of(v@),
                i <= v.len(),
                forall|j: int| 0 <= j < i && j < all.len() - 1 ==> #[trigger] all[j] != all[j + 1],
            decreases v.len() - i,
        {
            if Self::same_factor(&v[i], &v[i + 1]) {
                proof {
                    assert(all[i as int] == all[i + 1]);
                }
                return true;
            }
            i = i + 1;
        }
        false
    }

    /// Graded commutativity on one term.
    fn canonical_term(t: Term<M>) -> (r: Option<Term<M>>)
        ensures
            match Self::canonical(t.mono()) {
                None => r is None,
                Some(m) => r matches Some(u) && u.mono() == m,
            },
    {
        let (fs, ds) = Self::split_factors(&t.atoms);
        let (sorted_fs, _) = Self::sort_atoms_exec(fs);
        let (sorted_ds, odd) = Self::sort_atoms_exec(ds);
        if Self::has_repeat_exec(&sorted_ds) {
            return None;
        }
        let mut atoms = sorted_fs;
        let mut tail = sorted_ds;
        let ghost left = atoms@;
        let ghost right = tail@;
        atoms.append(&mut tail);
        proof {
            assert(atoms_of(left + right) =~= atoms_of(left) + atoms_of(right));
        }
        let coeff = if odd {
            <M::Scalar as Ring>::negate(t.coeff)
        } else {
            t.coeff
        };
        Some(Term { coeff, atoms })
    }

    proof fn lemma_insert_term_at(sorted: Seq<Mono<M>>, x: Mono<M>, i: int)
        requires
            0 <= i <= sorted.len(),
            forall|j: int| i <= j < sorted.len() ==> #[trigger] word_order(sorted[j].1, x.1) == Cmp::Greater,
            i == 0 || word_order(sorted[i - 1].1, x.1) != Cmp::Greater,
        ensures
            Self::insert_term(sorted, x) == sorted.take(i).push(x) + sorted.skip(i),
        decreases sorted.len(),
    {
        if sorted.len() == 0 {
            assert(sorted.take(i).push(x) + sorted.skip(i) =~= seq![x]);
        } else if i == sorted.len() {
            assert(sorted.take(i).push(x) + sorted.skip(i) =~= sorted.push(x));
        } else {
            let rest = sorted.drop_last();
            assert forall|j: int| i <= j < rest.len() implies #[trigger] word_order(rest[j].1, x.1)
                == Cmp::Greater by {
                assert(rest[j] == sorted[j]);
            }
            Self::lemma_insert_term_at(rest, x, i);
            assert(rest.take(i).push(x) + rest.skip(i) + seq![sorted.last()] =~= sorted.take(i).push(x)
                + sorted.skip(i));
        }
    }

    /// Terms stably sorted by their atoms.
    fn sort_terms_exec(ts: Vec<Term<M>>) -> (r: Vec<Term<M>>)
        ensures
            monos(r@) == Self::sort_terms(monos(ts@)),
    {
        let ghost all = monos(ts@);
        let mut rest = ts;
        let mut out: Vec<Term<M>> = Vec::new();
        proof {
            assert(all.take(0) =~= Seq::<Mono<M>>::empty());
            assert(monos(rest@) =~= all.skip(0));
            assert(monos(out@) =~= Seq::<Mono<M>>::empty());
        }
        while rest.len() > 0
            invariant
                rest@.len() <= all.len(),
                monos(rest@) == all.skip(all.len() - rest@.len()),
                monos(out@) == Self::sort_terms(all.take(all.len() - rest@.len())),
            decreases rest.len(),
        {
            let ghost k = all.len() - rest@.len();
            let ghost sorted = monos(out@);
            let ghost before = rest@;
            let item = rest.remove(0);
            let ghost x = item.mono();
            proof {
                assert(item == before[0]);
                assert(monos(before)[0] == x);
                assert(all.skip(k)[0] == all[k]);
                assert(rest@ =~= before.drop_first());
                assert(monos(rest@) =~= monos(before).drop_first());
                assert(monos(rest@) =~= all.skip(k + 1));
                assert(all.take(k + 1).drop_last() =~= all.take(k));
                assert(all.take(k + 1).last() == x);
            }
            let mut i = out.len();
            while i > 0
                invariant
                    i <= out.len(),
                    sorted == monos(out@),
                    x == item.mono(),
                    forall|j: int| i <= j < sorted.len() ==> #[trigger] word_order(sorted[j].1, x.1)
                        == Cmp::Greater,
                ensures
                    i <= out.len(),
                    forall|j: int| i <= j < sorted.len() ==> #[trigger] word_order(sorted[j].1, x.1)
                        == Cmp::Greater,
                    i == 0 || word_order(sorted[i - 1].1, x.1) != Cmp::Greater,
                decreases i,
            {
                let c = Self::word_order_exec(&out[i - 1].atoms, &item.atoms);
                match c {
                    Cmp::Greater => {},
                    _ => {
                        break;
                    },
                }
                i = i - 1;
            }
            proof {
                Self::lemma_insert_term_at(sorted, x, i as int);
            }
            out.insert(i, item);
            proof {
                assert(monos(out@) =~= sorted.take(i as int).push(x) + sorted.skip(i as int));
            }
        }
        proof {
            assert(all.take(all.len() as int) =~= all);
        }
        out
    }

    /// Neighbouring terms with the same atoms merged.
    fn merge_terms_exec(ts: Vec<Term<M>>) -> (r: Vec<Term<M>>)
        ensures
            monos(r@) == Self::merge_terms(monos(ts@)),
    {
        let ghost all = monos(ts@);
        let mut rest = ts;
        let mut out: Vec<Term<M>> = Vec::new();
        proof {
            assert(all.take(0) =~= Seq::<Mono<M>>::empty());
            assert(monos(rest@) =~= all.skip(0));
            assert(monos(out@) =~= Seq::<Mono<M>>::empty());
        }
        while rest.len() > 0
            invariant
                rest@.len() <= all.len(),
                monos(rest@) == all.skip(all.len() - rest@.len()),
                monos(out@) == Self::merge_terms(all.take(all.len() - rest@.len())),
            decreases rest.len(),
        {
            let ghost k = all.len() - rest@.len();
            let ghost merged = monos(out@);
            let ghost before = rest@;
            let item = rest.remove(0);
            let ghost x = item.mono();
            proof {
                assert(item == before[0]);
                assert(monos(before)[0] == x);
                assert(all.skip(k)[0] == all[k]);
                assert(rest@ =~= before.drop_first());
                assert(monos(rest@) =~= monos(before).drop_first());
                assert(monos(rest@) =~= all.skip(k + 1));
                assert(all.take(k + 1).drop_last() =~= all.take(k));
                assert(all.take(k + 1).last() == x);
            }
            let joins = out.len() > 0 && Self::same_words(&out[out.len() - 1].atoms, &item.atoms);
            if joins {
                let last = out.pop().unwrap();
                proof {
                    assert(last.mono() == merged.last());
                    assert(monos(out@) =~= merged.drop_last());
                }
                let coeff = <M::Scalar as SemiRing>::add(last.coeff, item.coeff);
                let joined = Term { coeff, atoms: item.atoms };
                proof {
                    Self::lemma_monos_push(out@, joined);
                }
                out.push(joined);
            } else {
                proof {
                    Self::lemma_monos_push(out@, item);
                }
                out.push(item);
            }
        }
        proof {
            assert(all.take(all.len() as int) =~= all);
        }
        out
    }

    /// The terms of degree at most the dimension.
    fn within_dimension_exec(ts: Vec<Term<M>>) -> (r: Vec<Term<M>>)
        ensures
            monos(r@) == monos(ts@).filter(|m: Mono<M>| Self::within_dimension(m)),
    {
        let ghost all = monos(ts@);
        let ghost keep = |m: Mono<M>| Self::within_dimension(m);
        let dim = M::dim();
        let mut rest = ts;
        let mut out: Vec<Term<M>> = Vec::new();
        proof {
            assert(rest@ =~= ts@.skip(0));
            reveal(Seq::filter);
            assert(all.take(0) =~= Seq::<Mono<M>>::empty());
            assert(monos(out@) =~= all.take(0).filter(keep));
        }
        while rest.len() > 0
            invariant
                all == monos(ts@),
                keep == (|m: Mono<M>| Self::within_dimension(m)),
                dim == M::spec_dim(),
                rest@.len() <= ts@.len(),
                rest@ == ts@.skip(ts@.len() - rest@.len()),
                monos(out@) == all.take(ts@.len() - rest@.len()).filter(keep),
            decreases rest.len(),
        {
            let ghost k = ts@.len() - rest@.len();
            let t = rest.remove(0);
            proof {
                assert(t == ts@[k]);
                assert(rest@ =~= ts@.skip(k + 1));
                reveal(Seq::filter);
                let s = all.take(k + 1);
                assert(s.drop_last() =~= all.take(k));
                assert(s.last() == t.mono());
            }
            if Self::degree_of(&t.atoms) <= dim {
                proof {
                    Self::lemma_monos_push(out@, t);
                }
                out.push(t);
            }
        }
        proof {
            assert(all.take(ts@.len() as int) =~= all);
        }
        out
    }

    /// The terms with a nonzero coefficient.
    fn nonzero_exec(ts: Vec<Term<M>>) -> (r: Vec<Term<M>>)
        ensures
            monos(r@) == monos(ts@).filter(|m: Mono<M>| Self::nonzero(m)),
    {
        let ghost all = monos(ts@);
        let ghost keep = |m: Mono<M>| Self::nonzero(m);
        let nothing = Self::zero_value();
        let mut rest = ts;
        let mut out: Vec<Term<M>> = Vec::new();
        proof {
            assert(rest@ =~= ts@.skip(0));
            reveal(Seq::filter);
            assert(all.take(0) =~= Seq::<Mono<M>>::empty());
            assert(monos(out@) =~= all.take(0).filter(keep));
        }
        while rest.len() > 0
            invariant
                all == monos(ts@),
                keep == (|m: Mono<M>| Self::nonzero(m)),
                nothing@ == zero::<M::Scalar>(),
                rest@.len() <= ts@.len(),
                rest@ == ts@.skip(ts@.len() - rest@.len()),
                monos(out@) == all.take(ts@.len() - rest@.len()).filter(keep),
            decreases rest.len(),
        {
            let ghost k = ts@.len() - rest@.len();
            let t = rest.remove(0);
            proof {
                assert(t == ts@[k]);
                assert(rest@ =~= ts@.skip(k + 1));
                reveal(Seq::filter);
                let s = all.take(k + 1);
                assert(s.drop_last() =~= all.take(k));
                assert(s.last() == t.mono());
            }
            if !t.coeff.equals(&nothing) {
                proof {
                    Self::lemma_monos_push(out@, t);
                }
                out.push(t);
            }
        }
        proof {
            assert(all.take(ts@.len() as int) =~= all);
        }
        out
    }

    /// Graded commutativity on each term; terms with a repeated
    /// differential drop out.
    fn canonical_all(ts: Vec<Term<M>>) -> (r: Vec<Term<M>>)
        ensures
            monos(r@) == monos(ts@).filter_map(|m: Mono<M>| Self::canonical(m)),
    {
        let ghost all = monos(ts@);
        let ghost f = |m: Mono<M>| Self::canonical(m);
        let mut rest = ts;
        let mut out: Vec<Term<M>> = Vec::new();
        proof {
            assert(rest@ =~= ts@.skip(0));
            assert(all.take(0) =~= Seq::<Mono<M>>::empty());
            assert(monos(out@) =~= all.take(0).filter_map(f));
        }
        while rest.len() > 0
            invariant
                all == monos(ts@),
                f == (|m: Mono<M>| Self::canonical(m)),
                rest@.len() <= ts@.len(),
                rest@ == ts@.skip(ts@.len() - rest@.len()),
                monos(out@) == all.take(ts@.len() - rest@.len()).filter_map(f),
            decreases rest.len(),
        {
            let ghost k = ts@.len() - rest@.len();
            let t = rest.remove(0);
            proof {
                assert(t == ts@[k]);
                assert(rest@ =~= ts@.skip(k + 1));
                let s = all.take(k + 1);
                assert(s.drop_last() =~= all.take(k));
                assert(s.last() == t.mono());
            }
            match Self::canonical_term(t) {
                Some(u) => {
                    proof {
                        Self::lemma_monos_push(out@, u);
                        assert(monos(out@).push(u.mono()) =~= monos(out@) + seq![u.mono()]);
                    }
                    out.push(u);
                },
                None => {},
            }
        }
        proof {
            assert(all.take(ts@.len() as int) =~= all);
        }
        out
    }

    /// The normal form under the exterior-algebra laws and graded
    /// commutativity.
    fn graded_normalized(self) -> (r: Self)
        ensures
            r@ == Self::graded_normal_form(self@),
    {
        let ts = self.monomials_of();
        let low = Self::within_dimension_exec(ts);
        let canonical = Self::canonical_all(low);
        let sorted = Self::sort_terms_exec(canonical);
        let merged = Self::merge_terms_exec(sorted);
        let kept = Self::nonzero_exec(merged);
        Self::sum_form_of(kept)
    }
}

/// [`ExteriorFormatter`] plus graded commutativity: wedge factors sort into
/// a canonical order with the sign of the permutation, `df ∧ df = 0`, and
/// like terms collect into one coefficient.
pub struct GradedCommutativeFormatter<M: Manifold> {
    marker: PhantomData<M>,
}

impl<M: Manifold> GradedCommutativeFormatter<M> {
    pub fn new() -> (r: Self) {
        GradedCommutativeFormatter { marker: PhantomData }
    }

    /// The normal form of `expr`.
    pub fn format_expr(&self, expr: DifferentialForm<M>) -> (r: DifferentialForm<M>)
        ensures
            r@ == DifferentialForm::<M>::graded_normal_form(expr@),
    {
        expr.graded_normalized()
    }
}

/// The exterior derivative of a constant vanishes: `dc = 0`, in either
/// normal form.
pub proof fn lemma_d_of_constant_vanishes<M: Manifold>(c: FValue<M>)
    ensures
        DifferentialForm::<M>::exterior_normal_form(
            FormTerm::Differential(Box::new(FormTerm::Const(c))),
        ) == FormTerm::<FValue<M>>::Const(zero::<M::Scalar>()),
        DifferentialForm::<M>::graded_normal_form(
            FormTerm::Differential(Box::new(FormTerm::Const(c))),
        ) == FormTerm::<FValue<M>>::Const(zero::<M::Scalar>()),
{
    let t = FormTerm::<FValue<M>>::Differential(Box::new(FormTerm::Const(c)));
    let m = (c, Seq::<Atom>::empty());
    reveal_with_fuel(DifferentialForm::leibniz_all, 2);
    reveal_with_fuel(DifferentialForm::leibniz_from, 2);
    reveal_with_fuel(DifferentialForm::monomials, 3);

    assert(DifferentialForm::<M>::leibniz(m) =~= Seq::<Mono<M>>::empty());
    assert(DifferentialForm::<M>::leibniz_all(seq![m]) =~= Seq::<Mono<M>>::empty()) by {
        assert(seq![m].drop_first() =~= Seq::<Mono<M>>::empty());
    }
    assert(DifferentialForm::<M>::monomials(t) =~= Seq::<Mono<M>>::empty());
    lemma_nothing_left::<M>(t);
}

/// The exterior derivative of the exterior derivative of a function
/// vanishes: `d(df) = 0`, in either normal form.
pub proof fn lemma_d_squared_of_function_vanishes<M: Manifold>(f: Seq<char>)
    ensures
        DifferentialForm::<M>::exterior_normal_form(
            FormTerm::Differential(
                Box::new(FormTerm::Differential(Box::new(FormTerm::Function(f)))),
            ),
        ) == FormTerm::<FValue<M>>::Const(zero::<M::Scalar>()),
        DifferentialForm::<M>::graded_normal_form(
            FormTerm::Differential(
                Box::new(FormTerm::Differential(Box::new(FormTerm::Function(f)))),
            ),
        ) == FormTerm::<FValue<M>>::Const(zero::<M::Scalar>()),
{
    let inner = FormTerm::<FValue<M>>::Differential(Box::new(FormTerm::Function(f)));
    let t = FormTerm::<FValue<M>>::Differential(Box::new(inner));
    let m = (one::<M::Scalar>(), seq![Atom::F(f)]);
    let dm = (one::<M::Scalar>(), seq![Atom::D(f)]);
    reveal_with_fuel(DifferentialForm::leibniz_all, 2);
    reveal_with_fuel(DifferentialForm::leibniz_from, 2);
    reveal_with_fuel(DifferentialForm::monomials, 3);

    assert(DifferentialForm::<M>::leibniz_from(m, 1, false) =~= Seq::<Mono<M>>::empty());
    assert(m.1.update(0, Atom::D(f)) =~= dm.1);
    assert(DifferentialForm::<M>::leibniz(m) =~= seq![dm]);
    assert(DifferentialForm::<M>::leibniz_all(seq![m]) =~= seq![dm]) by {
        assert(seq![m].drop_first() =~= Seq::<Mono<M>>::empty());
        assert(seq![dm] + Seq::<Mono<M>>::empty() =~= seq![dm]);
    }
    assert(DifferentialForm::<M>::monomials(inner) =~= seq![dm]);
    assert(DifferentialForm::<M>::leibniz_from(dm, 1, true) =~= Seq::<Mono<M>>::empty());
    assert(DifferentialForm::<M>::leibniz(dm) =~= Seq::<Mono<M>>::empty());
    assert(DifferentialForm::<M>::leibniz_all(seq![dm]) =~= Seq::<Mono<M>>::empty()) by {
        assert(seq![dm].drop_first() =~= Seq::<Mono<M>>::empty());
    }
    assert(DifferentialForm::<M>::monomials(t) =~= Seq::<Mono<M>>::empty());
    lemma_nothing_left::<M>(t);
}

/// A differential wedged with itself vanishes: `df ∧ df = 0`, in the
/// graded-commutative normal form.
pub proof fn lemma_repeated_differential_vanishes<M: Manifold>(f: Seq<char>)
    ensures
        DifferentialForm::<M>::graded_normal_form(
            FormTerm::Wedged(
                seq![
                    FormTerm::Differential(Box::new(FormTerm::Function(f))),
                    FormTerm::Differential(Box::new(FormTerm::Function(f))),
                ],
            ),
        ) == FormTerm::<FValue<M>>::Const(zero::<M::Scalar>()),
{
    let df = FormTerm::<FValue<M>>::Differential(Box::new(FormTerm::Function(f)));
    let t = FormTerm::<FValue<M>>::Wedged(seq![df, df]);
    let m = (one::<M::Scalar>(), seq![Atom::F(f)]);
    let dm = (one::<M::Scalar>(), seq![Atom::D(f)]);
    reveal_with_fuel(DifferentialForm::leibniz_all, 2);
    reveal_with_fuel(DifferentialForm::leibniz_from, 2);
    reveal_with_fuel(DifferentialForm::monomials, 3);
    reveal_with_fuel(DifferentialForm::wedge_monomials, 3);
    reveal_with_fuel(DifferentialForm::cross, 2);
    reveal_with_fuel(differentials_of, 3);
    reveal_with_fuel(sort_atoms, 3);
    reveal_with_fuel(insert_atom, 2);

    assert(DifferentialForm::<M>::leibniz_from(m, 1, false) =~= Seq::<Mono<M>>::empty());
    assert(m.1.update(0, Atom::D(f)) =~= dm.1);
    assert(DifferentialForm::<M>::leibniz(m) =~= seq![dm]);
    assert(DifferentialForm::<M>::leibniz_all(seq![m]) =~= seq![dm]) by {
        assert(seq![m].drop_first() =~= Seq::<Mono<M>>::empty());
        assert(seq![dm] + Seq::<Mono<M>>::empty() =~= seq![dm]);
    }
    assert(DifferentialForm::<M>::monomials(df) =~= seq![dm]);
    let unit = DifferentialForm::<M>::unit();
    let once = (times::<M::Scalar>(one::<M::Scalar>(), one::<M::Scalar>()), seq![Atom::D(f)]);
    assert(DifferentialForm::<M>::cross(seq![unit], seq![dm]) =~= seq![once]) by {
        assert(seq![unit].drop_first() =~= Seq::<Mono<M>>::empty());
        assert(DifferentialForm::<M>::cross(Seq::<Mono<M>>::empty(), seq![dm]) =~= Seq::<
            Mono<M>,
        >::empty());
        assert(Seq::<Atom>::empty() + seq![Atom::D(f)] =~= seq![Atom::D(f)]);
        assert(seq![dm].map_values(|b: Mono<M>| DifferentialForm::<M>::wedge(unit, b)) =~= seq![
            once,
        ]);
    }
    let twice = (times::<M::Scalar>(once.0, one::<M::Scalar>()), seq![Atom::D(f), Atom::D(f)]);
    assert(DifferentialForm::<M>::cross(seq![once], seq![dm]) =~= seq![twice]) by {
        assert(seq![once].drop_first() =~= Seq::<Mono<M>>::empty());
        assert(DifferentialForm::<M>::cross(Seq::<Mono<M>>::empty(), seq![dm]) =~= Seq::<
            Mono<M>,
        >::empty());
        assert(seq![Atom::D(f)] + seq![Atom::D(f)] =~= seq![Atom::D(f), Atom::D(f)]);
        assert(seq![dm].map_values(|b: Mono<M>| DifferentialForm::<M>::wedge(once, b)) =~= seq![
            twice,
        ]);
    }
    let xs = seq![df, df];
    assert(xs.drop_first() =~= seq![df]);
    assert(seq![df].drop_first() =~= Seq::<FTerm<M>>::empty());
    assert(DifferentialForm::<M>::wedge_monomials(seq![twice], Seq::<FTerm<M>>::empty()) == seq![
        twice,
    ]);
    assert(DifferentialForm::<M>::wedge_monomials(seq![once], seq![df]) == seq![twice]);
    assert(DifferentialForm::<M>::monomials(t) == seq![twice]);
    // The two differentials sort into a repeat, so the term has no
    // canonical form.
    let ds = seq![Atom::D(f), Atom::D(f)];
    assert(differentials_of(ds.drop_last()) =~= seq![Atom::D(f)]) by {
        assert(ds.drop_last().drop_last() =~= Seq::<Atom>::empty());
    }
    assert(differentials_of(ds) =~= ds);
    lemma_compare_chars_equal(f, f);
    assert(sort_atoms(seq![Atom::D(f)]) == (seq![Atom::D(f)], false)) by {
        assert(seq![Atom::D(f)].drop_last() =~= Seq::<Atom>::empty());
    }
    assert(insert_atom(seq![Atom::D(f)], Atom::D(f)).0 =~= ds);
    assert(sort_atoms(ds).0 =~= ds);
    assert(ds[0int] == ds[0int + 1]);
    assert(has_repeat(sort_atoms(ds).0));
    assert(DifferentialForm::<M>::canonical(twice) is None);
    let keep = |m: Mono<M>| DifferentialForm::<M>::within_dimension(m);
    let low = seq![twice].filter(keep);
    assert(seq![twice].drop_last() =~= Seq::<Mono<M>>::empty());
    assert(low.len() <= 1) by {
        reveal(Seq::filter);
        assert(Seq::<Mono<M>>::empty().filter(keep) =~= Seq::<Mono<M>>::empty());
    }
    assert(forall|i: int| 0 <= i < low.len() ==> low[i] == twice) by {
        reveal(Seq::filter);
        assert(Seq::<Mono<M>>::empty().filter(keep) =~= Seq::<Mono<M>>::empty());
    }
    let pick = |m: Mono<M>| DifferentialForm::<M>::canonical(m);
    assert(low.filter_map(pick) =~= Seq::<Mono<M>>::empty()) by {
        reveal_with_fuel(Seq::filter_map, 2);
        if low.len() == 1 {
            assert(low.last() == twice);
            assert(low.drop_last() =~= Seq::<Mono<M>>::empty());
        }
    }
    assert(DifferentialForm::<M>::sort_terms(Seq::<Mono<M>>::empty()) =~= Seq::<Mono<M>>::empty());
    assert(DifferentialForm::<M>::merge_terms(Seq::<Mono<M>>::empty()) =~= Seq::<Mono<M>>::empty());
    assert(Seq::<Mono<M>>::empty().filter(|m: Mono<M>| DifferentialForm::<M>::nonzero(m)) =~= Seq::<
        Mono<M>,
    >::empty()) by {
        reveal(Seq::filter);
    }
}

/// A form without terms is zero in either normal form.
proof fn lemma_nothing_left<M: Manifold>(t: FTerm<M>)
    requires
        DifferentialForm::<M>::monomials(t) == Seq::<Mono<M>>::empty(),
    ensures
        DifferentialForm::<M>::exterior_normal_form(t) == FormTerm::<FValue<M>>::Const(
            zero::<M::Scalar>(),
        ),
        DifferentialForm::<M>::graded_normal_form(t) == FormTerm::<FValue<M>>::Const(
            zero::<M::Scalar>(),
        ),
{
    reveal(Seq::filter);
    let e = Seq::<Mono<M>>::empty();
    assert(e.filter(|m: Mono<M>| DifferentialForm::<M>::survives(m)) =~= e);
    assert(e.filter(|m: Mono<M>| DifferentialForm::<M>::within_dimension(m)) =~= e);
    assert(e.filter_map(|m: Mono<M>| DifferentialForm::<M>::canonical(m)) =~= e);
    assert(DifferentialForm::<M>::sort_terms(e) =~= e);
    assert(DifferentialForm::<M>::merge_terms(e) =~= e);
    assert(e.filter(|m: Mono<M>| DifferentialForm::<M>::nonzero(m)) =~= e);
}

} // verus!
