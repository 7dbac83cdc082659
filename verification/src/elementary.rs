//! Expression trees over a field closed under the elementary functions and
//! differentiation, and symbolic differentiation of them.
use vstd::prelude::*;
use vstd::std_specs::cmp::PartialEqSpecImpl;

use crate::op::AlgebraicSet;
use crate::ring::{from_usize, nat_value, one, zero, SemiRing};
use crate::structure::Field;
use crate::symbol::{names, note_name, Symbol};

verus! {

/// Elementary transcendental functions.
#[derive(Clone, Copy, Debug, PartialEq, Eq, Structural)]
pub enum Elementary {
    Exp,
    Log,
    Sin,
    Cos,
}

/// An expression tree over a field, closed under the elementary functions
/// and differentiation. `Pow` takes any integer exponent, so `x^-1` is
/// division. `D` is the unevaluated derivative `d(inner)/d(wrt)`.
#[derive(Debug)]
pub enum ElementaryExpr<F: Field> {
    Const(F::Domain),
    Symbol(Symbol),
    Neg(Box<ElementaryExpr<F>>),
    Add(Vec<ElementaryExpr<F>>),
    Mul(Vec<ElementaryExpr<F>>),
    Pow { base: Box<ElementaryExpr<F>>, exponent: isize },
    Fn(Elementary, Box<ElementaryExpr<F>>),
    D { wrt: Symbol, inner: Box<ElementaryExpr<F>> },
}

/// The mathematical content of an [`ElementaryExpr`]: constants by value,
/// symbols by name.
pub enum ETerm<V> {
    Const(V),
    Symbol(Seq<char>),
    Neg(Box<ETerm<V>>),
    Add(Seq<ETerm<V>>),
    Mul(Seq<ETerm<V>>),
    Pow(Box<ETerm<V>>, int),
    Fn(Elementary, Box<ETerm<V>>),
    D(Seq<char>, Box<ETerm<V>>),
}

/// The value type of `F`'s elements.
pub type EValue<F> = <<F as SemiRing>::Domain as View>::V;

/// The term type of expressions over `F`.
pub type ETermOf<F> = ETerm<EValue<F>>;

impl<F: Field> View for ElementaryExpr<F> {
    type V = ETermOf<F>;

    open spec fn view(&self) -> ETermOf<F> {
        Self::term(*self)
    }
}

impl<F: Field> ElementaryExpr<F> {
    pub open spec fn term(e: Self) -> ETermOf<F>
        decreases e,
    {
        match e {
            ElementaryExpr::Const(c) => ETerm::Const(c@),
            ElementaryExpr::Symbol(s) => ETerm::Symbol(s@),
            ElementaryExpr::Neg(x) => ETerm::Neg(Box::new(Self::term(*x))),
            ElementaryExpr::Add(v) => ETerm::Add(Self::terms(v@)),
            ElementaryExpr::Mul(v) => ETerm::Mul(Self::terms(v@)),
            ElementaryExpr::Pow { base, exponent } => ETerm::Pow(
                Box::new(Self::term(*base)),
                exponent as int,
            ),
            ElementaryExpr::Fn(kind, x) => ETerm::Fn(kind, Box::new(Self::term(*x))),
            ElementaryExpr::D { wrt, inner } => ETerm::D(wrt@, Box::new(Self::term(*inner))),
        }
    }

    pub open spec fn terms(s: Seq<Self>) -> Seq<ETermOf<F>>
        decreases s,
    {
        if s.len() == 0 {
            Seq::empty()
        } else {
            seq![Self::term(s[0])] + Self::terms(s.drop_first())
        }
    }

    pub proof fn lemma_terms(s: Seq<Self>)
        ensures
            Self::terms(s).len() == s.len(),
            forall|i: int| 0 <= i < s.len() ==> #[trigger] Self::terms(s)[i] == Self::term(s[i]),
        decreases s.len(),
    {
        if s.len() > 0 {
            Self::lemma_terms(s.drop_first());
            assert forall|i: int| 0 <= i < s.len() implies #[trigger] Self::terms(s)[i] == Self::term(
                s[i],
            ) by {
                if i > 0 {
                    assert(s.drop_first()[i - 1] == s[i]);
                }
            }
        }
    }

    pub proof fn lemma_terms_push(s: Seq<Self>, x: Self)
        ensures
            Self::terms(s.push(x)) == Self::terms(s).push(Self::term(x)),
    {
        Self::lemma_terms(s);
        Self::lemma_terms(s.push(x));
        assert(Self::terms(s.push(x)) =~= Self::terms(s).push(Self::term(x)));
    }

    /// `kind(arg)`.
    pub fn elementary(kind: Elementary, arg: Self) -> (r: Self)
        ensures
            r@ == ETerm::<EValue<F>>::Fn(kind, Box::new(arg@)),
    {
        ElementaryExpr::Fn(kind, Box::new(arg))
    }

    /// The unevaluated derivative `d(inner)/d(wrt)`.
    pub fn d(wrt: Symbol, inner: Self) -> (r: Self)
        ensures
            r@ == ETerm::<EValue<F>>::D(wrt@, Box::new(inner@)),
    {
        ElementaryExpr::D { wrt, inner: Box::new(inner) }
    }

    /// A copy of the expression.
    pub fn duplicate(&self) -> (r: Self)
        ensures
            r@ == self@,
        decreases self,
    {
        match self {
            ElementaryExpr::Const(c) => ElementaryExpr::Const(c.duplicate()),
            ElementaryExpr::Symbol(s) => ElementaryExpr::Symbol(s.clone()),
            ElementaryExpr::Neg(x) => ElementaryExpr::Neg(Box::new(x.duplicate())),
            ElementaryExpr::Pow { base, exponent } => ElementaryExpr::Pow {
                base: Box::new(base.duplicate()),
                exponent: *exponent,
            },
            ElementaryExpr::Fn(kind, x) => ElementaryExpr::Fn(*kind, Box::new(x.duplicate())),
            ElementaryExpr::D { wrt, inner } => ElementaryExpr::D {
                wrt: wrt.clone(),
                inner: Box::new(inner.duplicate()),
            },
            ElementaryExpr::Add(v) => ElementaryExpr::Add(Self::duplicate_list(v, Ghost(*self))),
            ElementaryExpr::Mul(v) => ElementaryExpr::Mul(Self::duplicate_list(v, Ghost(*self))),
        }
    }

    /// Copies of the children `v` of `whole`.
    fn duplicate_list(v: &Vec<Self>, Ghost(whole): Ghost<Self>) -> (r: Vec<Self>)
        requires
            whole == ElementaryExpr::<F>::Add(*v) || whole == ElementaryExpr::<F>::Mul(*v),
        ensures
            Self::terms(r@) == Self::terms(v@),
        decreases whole, 0int,
    {
        let mut out: Vec<Self> = Vec::new();
        let mut i: usize = 0;
        while i < v.len()
            invariant
                whole == ElementaryExpr::<F>::Add(*v) || whole == ElementaryExpr::<F>::Mul(*v),
                i <= v.len(),
                Self::terms(out@) == Self::terms(v@.take(i as int)),
            decreases v.len() - i,
        {
            proof {
                if whole == ElementaryExpr::<F>::Add(*v) {
                    assert(decreases_to!(whole => whole->Add_0));
                } else {
                    assert(decreases_to!(whole => whole->Mul_0));
                }
                assert(decreases_to!(v => v@));
                assert(decreases_to!(v@ => v@[i as int]));
            }
            let c = v[i].duplicate();
            proof {
                Self::lemma_terms_push(out@, c);
                Self::lemma_terms_push(v@.take(i as int), v@[i as int]);
                assert(v@.take(i + 1) =~= v@.take(i as int).push(v@[i as int]));
            }
            out.push(c);
            i = i + 1;
        }
        proof {
            assert(v@.take(v.len() as int) =~= v@);
        }
        out
    }

    /// Whether two lists of expressions are equal element by element.
    fn equal_lists(a: &Vec<Self>, b: &Vec<Self>, Ghost(whole): Ghost<Self>) -> (r: bool)
        requires
            whole == ElementaryExpr::<F>::Add(*a) || whole == ElementaryExpr::<F>::Mul(*a),
        ensures
            r == (Self::terms(a@) == Self::terms(b@)),
        decreases whole, 0int,
    {
        proof {
            Self::lemma_terms(a@);
            Self::lemma_terms(b@);
        }
        if a.len() != b.len() {
            return false;
        }
        let mut i: usize = 0;
        while i < a.len()
            invariant
                whole == ElementaryExpr::<F>::Add(*a) || whole == ElementaryExpr::<F>::Mul(*a),
                i <= a.len(),
                a.len() == b.len(),
                Self::terms(a@).len() == a.len(),
                Self::terms(b@).len() == b.len(),
                forall|j: int| 0 <= j < a.len() ==> #[trigger] Self::terms(a@)[j] == Self::term(a@[j]),
                forall|j: int| 0 <= j < b.len() ==> #[trigger] Self::terms(b@)[j] == Self::term(b@[j]),
                forall|j: int| 0 <= j < i ==> Self::term(#[trigger] a@[j]) == Self::term(b@[j]),
            decreases a.len() - i,
        {
            proof {
                if whole == ElementaryExpr::<F>::Add(*a) {
                    assert(decreases_to!(whole => whole->Add_0));
                } else {
                    assert(decreases_to!(whole => whole->Mul_0));
                }
                assert(decreases_to!(a => a@));
                assert(decreases_to!(a@ => a@[i as int]));
            }
            if !a[i].equals(&b[i]) {
                proof {
                    assert(Self::terms(a@)[i as int] != Self::terms(b@)[i as int]);
                }
                return false;
            }
            i = i + 1;
        }
        proof {
            assert(Self::terms(a@) =~= Self::terms(b@));
        }
        true
    }

    /// Structural equality of the mathematical content.
    pub fn equals(&self, other: &Self) -> (r: bool)
        ensures
            r == (self@ == other@),
        decreases self, 1int,
    {
        match (self, other) {
            (ElementaryExpr::Const(a), ElementaryExpr::Const(b)) => a.equals(b),
            (ElementaryExpr::Symbol(a), ElementaryExpr::Symbol(b)) => a.same(b),
            (ElementaryExpr::Neg(a), ElementaryExpr::Neg(b)) => a.equals(b),
            (
                ElementaryExpr::Pow { base: a, exponent: i },
                ElementaryExpr::Pow { base: b, exponent: j },
            ) => *i == *j && a.equals(b),
            (ElementaryExpr::Fn(k, a), ElementaryExpr::Fn(l, b)) => *k == *l && a.equals(b),
            (
                ElementaryExpr::D { wrt: v, inner: a },
                ElementaryExpr::D { wrt: w, inner: b },
            ) => v.same(w) && a.equals(b),
            (ElementaryExpr::Add(a), ElementaryExpr::Add(b)) => Self::equal_lists(
                a,
                b,
                Ghost(*self),
            ),
            (ElementaryExpr::Mul(a), ElementaryExpr::Mul(b)) => Self::equal_lists(
                a,
                b,
                Ghost(*self),
            ),
            _ => false,
        }
    }
}

impl<F: Field> Clone for ElementaryExpr<F> {
    fn clone(&self) -> (r: Self)
        ensures
            r@ == self@,
    {
        self.duplicate()
    }
}

impl<F: Field> PartialEq for ElementaryExpr<F> {
    fn eq(&self, other: &Self) -> (r: bool) {
        self.equals(other)
    }
}

impl<F: Field> PartialEqSpecImpl for ElementaryExpr<F> {
    open spec fn obeys_eq_spec() -> bool {
        true
    }

    open spec fn eq_spec(&self, other: &Self) -> bool {
        self@ == other@
    }
}

/// Symbolic differentiation.
impl<F: Field> ElementaryExpr<F> {
    /// The coefficient `n` that `x^n` brings down when differentiated.
    pub open spec fn exponent_coefficient(n: int) -> EValue<F> {
        if n < 0 {
            F::spec_negate(nat_value::<F>((-n) as nat))
        } else {
            nat_value::<F>(n as nat)
        }
    }

    /// How deeply unevaluated derivatives nest in `t`.
    pub open spec fn d_depth(t: ETermOf<F>) -> nat
        decreases t,
    {
        match t {
            ETerm::Const(_) => 0,
            ETerm::Symbol(_) => 0,
            ETerm::Neg(u) => Self::d_depth(*u),
            ETerm::Add(v) => Self::list_d_depth(v),
            ETerm::Mul(v) => Self::list_d_depth(v),
            ETerm::Pow(b, _) => Self::d_depth(*b),
            ETerm::Fn(_, u) => Self::d_depth(*u),
            ETerm::D(_, u) => Self::d_depth(*u) + 1,
        }
    }

    /// The deepest nesting of unevaluated derivatives in a list.
    pub open spec fn list_d_depth(v: Seq<ETermOf<F>>) -> nat
        decreases v,
    {
        if v.len() == 0 {
            0
        } else {
            let here = Self::d_depth(v[0]);
            let rest = Self::list_d_depth(v.drop_first());
            if here >= rest {
                here
            } else {
                rest
            }
        }
    }

    /// The derivative of `t` with respect to the symbol `w`, where
    /// unevaluated derivatives nest at most `k` deep. Symbols are
    /// independent variables; a product is differentiated by Leibniz's rule,
    /// one summand per factor; the other factors are kept as they are.
    pub open spec fn deriv(t: ETermOf<F>, w: Seq<char>, k: nat) -> ETermOf<F>
        decreases k, t, 0int,
    {
        match t {
            ETerm::Const(_) => ETerm::Const(zero::<F>()),
            ETerm::Symbol(s) => ETerm::Const(
                if s == w {
                    one::<F>()
                } else {
                    zero::<F>()
                },
            ),
            ETerm::Neg(u) => ETerm::Neg(Box::new(Self::deriv(*u, w, k))),
            ETerm::Add(v) => ETerm::Add(Self::derivs(v, w, k)),
            ETerm::Mul(v) => ETerm::Add(Self::product_rule(v, 0, w, k)),
            ETerm::Pow(b, n) => ETerm::Mul(
                seq![
                    ETerm::Const(Self::exponent_coefficient(n)),
                    ETerm::Pow(b, n - 1),
                    Self::deriv(*b, w, k),
                ],
            ),
            ETerm::Fn(kind, u) => {
                let du = Self::deriv(*u, w, k);
                match kind {
                    Elementary::Exp => ETerm::Mul(seq![ETerm::Fn(Elementary::Exp, u), du]),
                    Elementary::Log => ETerm::Mul(seq![ETerm::Pow(u, -1), du]),
                    Elementary::Sin => ETerm::Mul(seq![ETerm::Fn(Elementary::Cos, u), du]),
                    Elementary::Cos => ETerm::Mul(
                        seq![ETerm::Neg(Box::new(ETerm::Fn(Elementary::Sin, u))), du],
                    ),
                }
            },
            ETerm::D(w2, inner) => if k == 0 {
                t
            } else {
                Self::deriv(Self::deriv(*inner, w2, (k - 1) as nat), w, (k - 1) as nat)
            },
        }
    }

    /// The derivative of each expression of a list.
    pub open spec fn derivs(v: Seq<ETermOf<F>>, w: Seq<char>, k: nat) -> Seq<ETermOf<F>>
        decreases k, v, 0int,
    {
        if v.len() == 0 {
            Seq::empty()
        } else {
            seq![Self::deriv(v[0], w, k)] + Self::derivs(v.drop_first(), w, k)
        }
    }

    /// The summands of Leibniz's rule for the product of `v`, from the
    /// `i`-th factor on: the product with that factor differentiated.
    pub open spec fn product_rule(v: Seq<ETermOf<F>>, i: nat, w: Seq<char>, k: nat) -> Seq<
        ETermOf<F>,
    >
        decreases k, v, v.len() - i,
    {
        if i >= v.len() {
            Seq::empty()
        } else {
            seq![ETerm::Mul(v.update(i as int, Self::deriv(v[i as int], w, k)))]
                + Self::product_rule(v, i + 1, w, k)
        }
    }

    /// The derivative of `t` with respect to `w`.
    pub open spec fn derivative_of(t: ETermOf<F>, w: Seq<char>) -> ETermOf<F> {
        Self::deriv(t, w, Self::d_depth(t))
    }

    /// Whether differentiating `t` (with nesting budget `k`) keeps every
    /// exponent within `isize`: each power it differentiates has an exponent
    /// above `isize::MIN`, and each unevaluated derivative fits the budget.
    pub open spec fn derivable(t: ETermOf<F>, w: Seq<char>, k: nat) -> bool
        decreases k, t, 0int,
    {
        match t {
            ETerm::Const(_) => true,
            ETerm::Symbol(_) => true,
            ETerm::Neg(u) => Self::derivable(*u, w, k),
            ETerm::Add(v) => Self::all_derivable(v, w, k),
            ETerm::Mul(v) => Self::all_derivable(v, w, k),
            ETerm::Pow(b, n) => n > isize::MIN && Self::derivable(*b, w, k),
            ETerm::Fn(_, u) => Self::derivable(*u, w, k),
            ETerm::D(w2, inner) => k > 0 && Self::derivable(*inner, w2, (k - 1) as nat)
                && Self::derivable(
                Self::deriv(*inner, w2, (k - 1) as nat),
                w,
                (k - 1) as nat,
            ),
        }
    }

    /// Whether each expression of a list is [`Self::derivable`].
    pub open spec fn all_derivable(v: Seq<ETermOf<F>>, w: Seq<char>, k: nat) -> bool
        decreases k, v, 0int,
    {
        if v.len() == 0 {
            true
        } else {
            Self::derivable(v[0], w, k) && Self::all_derivable(v.drop_first(), w, k)
        }
    }
}

impl<F: Field> ElementaryExpr<F> {
    proof fn lemma_derivs(v: Seq<ETermOf<F>>, w: Seq<char>, k: nat)
        ensures
            Self::derivs(v, w, k).len() == v.len(),
            forall|i: int| 0 <= i < v.len() ==> #[trigger] Self::derivs(v, w, k)[i] == Self::deriv(
                v[i],
                w,
                k,
            ),
            Self::all_derivable(v, w, k) <==> forall|i: int|
                0 <= i < v.len() ==> #[trigger] Self::derivable(v[i], w, k),
        decreases v.len(),
    {
        if v.len() > 0 {
            Self::lemma_derivs(v.drop_first(), w, k);
            assert forall|i: int| 0 <= i < v.len() implies #[trigger] Self::derivs(v, w, k)[i]
                == Self::deriv(v[i], w, k) by {
                if i > 0 {
                    assert(v.drop_first()[i - 1] == v[i]);
                }
            }
            if forall|i: int| 0 <= i < v.len() ==> #[trigger] Self::derivable(v[i], w, k) {
                assert(Self::derivable(v[0], w, k));
                assert forall|i: int| 0 <= i < v.drop_first().len() implies #[trigger] Self::derivable(
                    v.drop_first()[i],
                    w,
                    k,
                ) by {
                    assert(v.drop_first()[i] == v[i + 1]);
                }
            }
            if Self::all_derivable(v, w, k) {
                assert forall|i: int| 0 <= i < v.len() implies #[trigger] Self::derivable(v[i], w, k) by {
                    if i > 0 {
                        assert(v.drop_first()[i - 1] == v[i]);
                    }
                }
            }
        }
    }

    proof fn lemma_product_rule(v: Seq<ETermOf<F>>, i: nat, w: Seq<char>, k: nat)
        requires
            i <= v.len(),
        ensures
            Self::product_rule(v, i, w, k).len() == v.len() - i,
            forall|j: int| 0 <= j < v.len() - i ==> #[trigger] Self::product_rule(v, i, w, k)[j]
                == ETerm::<EValue<F>>::Mul(v.update(i + j, Self::deriv(v[i + j], w, k))),
        decreases v.len() - i,
    {
        if i < v.len() {
            Self::lemma_product_rule(v, i + 1, w, k);
            assert forall|j: int| 0 <= j < v.len() - i implies #[trigger] Self::product_rule(
                v,
                i,
                w,
                k,
            )[j] == ETerm::<EValue<F>>::Mul(v.update(i + j, Self::deriv(v[i + j], w, k))) by {
                if j > 0 {
                    assert(Self::product_rule(v, i, w, k)[j] == Self::product_rule(v, i + 1, w, k)[j
                        - 1]);
                    assert(i + 1 + (j - 1) == i + j);
                }
            }
        }
    }

    fn zero_value() -> (r: F::Domain)
        ensures
            r@ == zero::<F>(),
    {
        <F as SemiRing>::zero()
    }

    fn one_value() -> (r: F::Domain)
        ensures
            r@ == one::<F>(),
    {
        <F as SemiRing>::one()
    }

    /// The derivative with respect to `wrt`, where unevaluated derivatives
    /// nest at most `k` deep.
    pub(crate) fn derivative_within(&self, wrt: &Symbol, Ghost(k): Ghost<nat>) -> (r: Self)
        requires
            Self::derivable(self@, wrt@, k),
        ensures
            r@ == Self::deriv(self@, wrt@, k),
        decreases k, self, 1int,
    {
        match self {
            ElementaryExpr::Const(_) => ElementaryExpr::Const(Self::zero_value()),
            ElementaryExpr::Symbol(s) => {
                if s.same(wrt) {
                    ElementaryExpr::Const(Self::one_value())
                } else {
                    ElementaryExpr::Const(Self::zero_value())
                }
            },
            ElementaryExpr::Neg(u) => ElementaryExpr::Neg(
                Box::new(u.derivative_within(wrt, Ghost(k))),
            ),
            ElementaryExpr::Add(v) => ElementaryExpr::Add(
                Self::derivative_list(v, wrt, Ghost(k), Ghost(*self)),
            ),
            ElementaryExpr::Mul(v) => ElementaryExpr::Add(
                Self::product_rule_list(v, wrt, Ghost(k), Ghost(*self)),
            ),
            ElementaryExpr::Pow { base, exponent } => {
                let n = *exponent;
                let d_base = base.derivative_within(wrt, Ghost(k));
                let coefficient = if n < 0 {
                    let magnitude: usize = (-n) as usize;
                    F::negate(from_usize::<F>(magnitude))
                } else {
                    from_usize::<F>(n as usize)
                };
                let mut factors: Vec<Self> = Vec::new();
                factors.push(ElementaryExpr::Const(coefficient));
                factors.push(ElementaryExpr::Pow { base: Box::new(base.duplicate()), exponent: n - 1 });
                factors.push(d_base);
                proof {
                    Self::lemma_terms(factors@);
                    assert(Self::terms(factors@) =~= seq![
                        ETerm::Const(Self::exponent_coefficient(n as int)),
                        ETerm::Pow(Box::new(base@), n - 1),
                        Self::deriv(base@, wrt@, k),
                    ]);
                    assert(Self::exponent_coefficient(n as int) == coefficient@);
                }
                ElementaryExpr::Mul(factors)
            },
            ElementaryExpr::Fn(kind, u) => {
                let du = u.derivative_within(wrt, Ghost(k));
                let first = match kind {
                    Elementary::Exp => ElementaryExpr::Fn(Elementary::Exp, Box::new(u.duplicate())),
                    Elementary::Log => ElementaryExpr::Pow { base: Box::new(u.duplicate()), exponent: -1 },
                    Elementary::Sin => ElementaryExpr::Fn(Elementary::Cos, Box::new(u.duplicate())),
                    Elementary::Cos => {
                        let sine = ElementaryExpr::Fn(Elementary::Sin, Box::new(u.duplicate()));
                        assert(sine@ == ETerm::<EValue<F>>::Fn(Elementary::Sin, Box::new(u@)));
                        ElementaryExpr::Neg(Box::new(sine))
                    },
                };
                let mut factors: Vec<Self> = Vec::new();
                factors.push(first);
                factors.push(du);
                proof {
                    Self::lemma_terms(factors@);
                    assert(Self::terms(factors@) =~= seq![first@, du@]);
                }
                ElementaryExpr::Mul(factors)
            },
            ElementaryExpr::D { wrt: w2, inner } => {
                let ghost j = (k - 1) as nat;
                let y = inner.derivative_within(w2, Ghost(j));
                y.derivative_within(wrt, Ghost(j))
            },
        }
    }

    /// The derivatives of the children `v` of `whole`.
    fn derivative_list(v: &Vec<Self>, wrt: &Symbol, Ghost(k): Ghost<nat>, Ghost(whole): Ghost<Self>) -> (r: Vec<Self>)
        requires
            whole == ElementaryExpr::<F>::Add(*v),
            Self::all_derivable(Self::terms(v@), wrt@, k),
        ensures
            Self::terms(r@) == Self::derivs(Self::terms(v@), wrt@, k),
        decreases k, whole, 0int,
    {
        let ghost tv = Self::terms(v@);
        proof {
            Self::lemma_terms(v@);
            Self::lemma_derivs(tv, wrt@, k);
        }
        let mut out: Vec<Self> = Vec::new();
        let mut i: usize = 0;
        while i < v.len()
            invariant
                whole == ElementaryExpr::<F>::Add(*v),
                tv == Self::terms(v@),
                tv.len() == v.len(),
                forall|j: int| 0 <= j < v.len() ==> #[trigger] tv[j] == Self::term(v@[j]),
                forall|j: int| 0 <= j < v.len() ==> #[trigger] Self::derivable(tv[j], wrt@, k),
                Self::derivs(tv, wrt@, k).len() == v.len(),
                forall|j: int| 0 <= j < v.len() ==> #[trigger] Self::derivs(tv, wrt@, k)[j]
                    == Self::deriv(tv[j], wrt@, k),
                i <= v.len(),
                Self::terms(out@) == Self::derivs(tv, wrt@, k).take(i as int),
            decreases v.len() - i,
        {
            proof {
                assert(decreases_to!(whole => whole->Add_0));
                assert(decreases_to!(v => v@));
                assert(decreases_to!(v@ => v@[i as int]));
                assert(tv[i as int] == v@[i as int]@);
            }
            let d = v[i].derivative_within(wrt, Ghost(k));
            proof {
                Self::lemma_terms_push(out@, d);
                assert(Self::derivs(tv, wrt@, k).take(i + 1) =~= Self::derivs(tv, wrt@, k).take(
                    i as int,
                ).push(d@));
            }
            out.push(d);
            i = i + 1;
        }
        proof {
            assert(Self::derivs(tv, wrt@, k).take(v.len() as int) =~= Self::derivs(tv, wrt@, k));
        }
        out
    }

    /// The summands of Leibniz's rule for the product of the children `v`
    /// of `whole`.
    fn product_rule_list(v: &Vec<Self>, wrt: &Symbol, Ghost(k): Ghost<nat>, Ghost(whole): Ghost<Self>) -> (r: Vec<Self>)
        requires
            whole == ElementaryExpr::<F>::Mul(*v),
            Self::all_derivable(Self::terms(v@), wrt@, k),
        ensures
            Self::terms(r@) == Self::product_rule(Self::terms(v@), 0, wrt@, k),
        decreases k, whole, 0int,
    {
        let ghost tv = Self::terms(v@);
        let ghost rule = Self::product_rule(tv, 0, wrt@, k);
        proof {
            Self::lemma_terms(v@);
            Self::lemma_derivs(tv, wrt@, k);
            Self::lemma_product_rule(tv, 0, wrt@, k);
        }
        let mut out: Vec<Self> = Vec::new();
        let mut i: usize = 0;
        while i < v.len()
            invariant
                whole == ElementaryExpr::<F>::Mul(*v),
                tv == Self::terms(v@),
                tv.len() == v.len(),
                forall|j: int| 0 <= j < v.len() ==> #[trigger] tv[j] == Self::term(v@[j]),
                forall|j: int| 0 <= j < v.len() ==> #[trigger] Self::derivable(tv[j], wrt@, k),
                rule == Self::product_rule(tv, 0, wrt@, k),
                rule.len() == v.len(),
                forall|j: int| 0 <= j < v.len() ==> #[trigger] rule[j] == ETerm::<EValue<F>>::Mul(
                    tv.update(j, Self::deriv(tv[j], wrt@, k)),
                ),
                i <= v.len(),
                Self::terms(out@) == rule.take(i as int),
            decreases v.len() - i,
        {
            proof {
                assert(decreases_to!(whole => whole->Mul_0));
                assert(decreases_to!(v => v@));
                assert(decreases_to!(v@ => v@[i as int]));
                assert(tv[i as int] == v@[i as int]@);
                assert(rule[i as int] == ETerm::<EValue<F>>::Mul(
                    tv.update(i as int, Self::deriv(tv[i as int], wrt@, k)),
                ));
            }
            let d = v[i].derivative_within(wrt, Ghost(k));
            let mut factors = Self::duplicate_list(v, Ghost(whole));
            let ghost copied = factors@;
            proof {
                Self::lemma_terms(copied);
                assert(copied.len() == v@.len());
            }
            factors.set(i, d);
            let summand = ElementaryExpr::Mul(factors);
            proof {
                Self::lemma_terms(copied);
                Self::lemma_terms(factors@);
                assert(Self::terms(factors@) =~= tv.update(i as int, d@));
                Self::lemma_terms_push(out@, summand);
                assert(rule.take(i + 1) =~= rule.take(i as int).push(summand@));
            }
            out.push(summand);
            i = i + 1;
        }
        proof {
            assert(rule.take(v.len() as int) =~= rule);
        }
        out
    }

    /// The derivative with respect to `wrt`, where differentiating keeps
    /// every exponent within `isize`. Symbols are independent variables; a
    /// product is differentiated by Leibniz's rule, one summand per factor;
    /// an unevaluated derivative inside is evaluated first.
    pub fn derivative(self, wrt: &Symbol) -> (r: Self)
        requires
            Self::derivable(self@, wrt@, Self::d_depth(self@)),
        ensures
            r@ == Self::derivative_of(self@, wrt@),
    {
        self.derivative_within(wrt, Ghost(Self::d_depth(self@)))
    }
}

impl<F: Field> ElementaryExpr<F> {
    /// The names of the symbols that occur in a term.
    pub open spec fn symbols_in(t: ETermOf<F>) -> Set<Seq<char>>
        decreases t,
    {
        match t {
            ETerm::Const(_) => Set::empty(),
            ETerm::Symbol(s) => set![s],
            ETerm::Neg(x) => Self::symbols_in(*x),
            ETerm::Add(xs) => Self::symbols_in_list(xs),
            ETerm::Mul(xs) => Self::symbols_in_list(xs),
            ETerm::Pow(x, _) => Self::symbols_in(*x),
            ETerm::Fn(_, x) => Self::symbols_in(*x),
            ETerm::D(_, x) => Self::symbols_in(*x),
        }
    }

    /// The names of the symbols that occur in a list of terms.
    pub open spec fn symbols_in_list(xs: Seq<ETermOf<F>>) -> Set<Seq<char>>
        decreases xs,
    {
        if xs.len() == 0 {
            Set::empty()
        } else {
            Self::symbols_in(xs[0]).union(Self::symbols_in_list(xs.drop_first()))
        }
    }

    /// `t` with every occurrence of the symbol `name` replaced by `e`; the
    /// copies of `e` are not searched again.
    pub open spec fn substitution(t: ETermOf<F>, name: Seq<char>, e: ETermOf<F>) -> ETermOf<F>
        decreases t,
    {
        match t {
            ETerm::Const(_) => t,
            ETerm::Symbol(s) => if s == name {
                e
            } else {
                t
            },
            ETerm::Neg(x) => ETerm::Neg(Box::new(Self::substitution(*x, name, e))),
            ETerm::Add(xs) => ETerm::Add(Self::substitutions(xs, name, e)),
            ETerm::Mul(xs) => ETerm::Mul(Self::substitutions(xs, name, e)),
            ETerm::Pow(x, k) => ETerm::Pow(Box::new(Self::substitution(*x, name, e)), k),
            ETerm::Fn(f, x) => ETerm::Fn(f, Box::new(Self::substitution(*x, name, e))),
            ETerm::D(w, x) => ETerm::D(w, Box::new(Self::substitution(*x, name, e))),
        }
    }

    /// [`Self::substitution`] in each term of a list.
    pub open spec fn substitutions(xs: Seq<ETermOf<F>>, name: Seq<char>, e: ETermOf<F>) -> Seq<ETermOf<F>>
        decreases xs,
    {
        if xs.len() == 0 {
            Seq::empty()
        } else {
            seq![Self::substitution(xs[0], name, e)] + Self::substitutions(xs.drop_first(), name, e)
        }
    }

    /// Adds the names of the symbols in `self` to `seen`.
    fn collect_names(&self, seen: &mut Vec<Symbol>)
        requires
            names(old(seen)@).no_duplicates(),
        ensures
            names(final(seen)@).no_duplicates(),
            names(final(seen)@).to_set() == names(old(seen)@).to_set().union(
                Self::symbols_in(self@),
            ),
        decreases self, 1int,
    {
        let ghost before = names(seen@).to_set();
        match self {
            ElementaryExpr::Const(_) => {
                proof {
                    assert(before.union(Set::empty()) =~= before);
                }
            },
            ElementaryExpr::Symbol(s) => {
                note_name(seen, s);
                proof {
                    assert(before.insert(s@) =~= before.union(set![s@]));
                }
            },
            ElementaryExpr::Neg(x) => x.collect_names(seen),
            ElementaryExpr::Add(v) => Self::collect_list_names(v, seen, Ghost(*self)),
            ElementaryExpr::Mul(v) => Self::collect_list_names(v, seen, Ghost(*self)),
            ElementaryExpr::Pow { base, .. } => base.collect_names(seen),
            ElementaryExpr::Fn(_, x) => x.collect_names(seen),
            ElementaryExpr::D { inner, .. } => inner.collect_names(seen),
        }
    }

    /// Adds the names of the symbols in the children `v` of `whole`.
    fn collect_list_names(v: &Vec<Self>, seen: &mut Vec<Symbol>, Ghost(whole): Ghost<Self>)
        requires
            whole == ElementaryExpr::<F>::Add(*v) || whole == ElementaryExpr::<F>::Mul(*v),
            names(old(seen)@).no_duplicates(),
        ensures
            names(final(seen)@).no_duplicates(),
            names(final(seen)@).to_set() == names(old(seen)@).to_set().union(
                Self::symbols_in_list(Self::terms(v@)),
            ),
        decreases whole, 0int,
    {
        let ghost start = names(seen@).to_set();
        let mut i: usize = 0;
        proof {
            Self::lemma_terms(v@);
            assert(Self::terms(v@).skip(0) =~= Self::terms(v@));
        }
        while i < v.len()
            invariant
                whole == ElementaryExpr::<F>::Add(*v) || whole == ElementaryExpr::<F>::Mul(*v),
                i <= v.len(),
                Self::terms(v@).len() == v.len(),
                forall|j: int| 0 <= j < v.len() ==> #[trigger] Self::terms(v@)[j] == Self::term(v@[j]),
                names(seen@).no_duplicates(),
                names(seen@).to_set().union(Self::symbols_in_list(Self::terms(v@).skip(i as int)))
                    == start.union(Self::symbols_in_list(Self::terms(v@))),
            decreases v.len() - i,
        {
            proof {
                if whole == ElementaryExpr::<F>::Add(*v) {
                    assert(decreases_to!(whole => whole->Add_0));
                } else {
                    assert(decreases_to!(whole => whole->Mul_0));
                }
                assert(decreases_to!(v => v@));
                assert(decreases_to!(v@ => v@[i as int]));
            }
            let ghost mid = names(seen@).to_set();
            v[i].collect_names(seen);
            proof {
                let rest = Self::terms(v@).skip(i as int);
                assert(rest[0] == Self::term(v@[i as int]));
                assert(rest.drop_first() =~= Self::terms(v@).skip(i + 1));
                let now = names(seen@).to_set();
                let here = Self::symbols_in(v@[i as int]@);
                let later = Self::symbols_in_list(Self::terms(v@).skip(i + 1));
                assert(now.union(later) =~= mid.union(here.union(later)));
            }
            i = i + 1;
        }
        proof {
            assert(Self::terms(v@).skip(v.len() as int) =~= Seq::<ETermOf<F>>::empty());
            let now = names(seen@).to_set();
            assert(now.union(Set::empty()) =~= now);
        }
    }

    /// The number of distinct symbols in the expression.
    pub fn degrees_of_freedom(&self) -> (r: usize)
        ensures
            r == Self::symbols_in(self@).len(),
    {
        let mut seen: Vec<Symbol> = Vec::new();
        proof {
            assert(names(seen@) =~= Seq::<Seq<char>>::empty());
        }
        self.collect_names(&mut seen);
        proof {
            let ns = names(seen@);
            assert(Seq::<Seq<char>>::empty().to_set() =~= Set::<Seq<char>>::empty());
            assert(Set::<Seq<char>>::empty().union(Self::symbols_in(self@)) =~= Self::symbols_in(
                self@,
            ));
            ns.unique_seq_to_set();
        }
        seen.len()
    }

    /// The expression with every occurrence of the symbol `name` replaced
    /// by a copy of `expr`.
    fn replaced(self, name: &Symbol, expr: &Self) -> (r: Self)
        ensures
            r@ == Self::substitution(self@, name@, expr@),
        decreases self,
    {
        match self {
            ElementaryExpr::Const(c) => ElementaryExpr::Const(c),
            ElementaryExpr::Symbol(s) => {
                if s.same(name) {
                    expr.duplicate()
                } else {
                    ElementaryExpr::Symbol(s)
                }
            },
            ElementaryExpr::Neg(x) => ElementaryExpr::Neg(Box::new(x.replaced(name, expr))),
            ElementaryExpr::Add(v) => {
                let ghost whole = ElementaryExpr::<F>::Add(v);
                ElementaryExpr::Add(Self::replaced_list(v, name, expr, Ghost(whole)))
            },
            ElementaryExpr::Mul(v) => {
                let ghost whole = ElementaryExpr::<F>::Mul(v);
                ElementaryExpr::Mul(Self::replaced_list(v, name, expr, Ghost(whole)))
            },
            ElementaryExpr::Pow { base, exponent } => ElementaryExpr::Pow {
                base: Box::new(base.replaced(name, expr)),
                exponent,
            },
            ElementaryExpr::Fn(f, x) => ElementaryExpr::Fn(f, Box::new(x.replaced(name, expr))),
            ElementaryExpr::D { wrt, inner } => ElementaryExpr::D {
                wrt,
                inner: Box::new(inner.replaced(name, expr)),
            },
        }
    }

    /// [`Self::replaced`] on each child `v` of `whole`.
    fn replaced_list(v: Vec<Self>, name: &Symbol, expr: &Self, Ghost(whole): Ghost<Self>) -> (r: Vec<Self>)
        requires
            whole == ElementaryExpr::<F>::Add(v) || whole == ElementaryExpr::<F>::Mul(v),
        ensures
            Self::terms(r@) == Self::substitutions(Self::terms(v@), name@, expr@),
        decreases whole, 0int,
    {
        let ghost orig = v;
        let mut rest = v;
        let mut done: Vec<Self> = Vec::new();
        proof {
            assert(Self::terms(done@) =~= Seq::<ETermOf<F>>::empty());
        }
        while rest.len() > 0
            invariant
                whole == ElementaryExpr::<F>::Add(orig) || whole == ElementaryExpr::<F>::Mul(orig),
                rest@.len() <= orig@.len(),
                forall|j: int| 0 <= j < rest@.len() ==> rest@[j] == orig@[orig@.len() - rest@.len() + j],
                Self::terms(done@) + Self::substitutions(Self::terms(rest@), name@, expr@)
                    == Self::substitutions(Self::terms(orig@), name@, expr@),
            decreases rest.len(),
        {
            let ghost before = rest@;
            let ghost done_before = done@;
            let item = rest.remove(0);
            proof {
                let k = orig@.len() - before.len();
                assert(item == orig@[k]);
                if whole == ElementaryExpr::<F>::Add(orig) {
                    assert(decreases_to!(whole => whole->Add_0));
                } else {
                    assert(decreases_to!(whole => whole->Mul_0));
                }
                assert(decreases_to!(orig => orig@));
                assert(decreases_to!(orig@ => orig@[k]));
                assert(decreases_to!(whole => item));
                assert(rest@ =~= before.drop_first());
                let tb = Self::terms(before);
                assert(tb == seq![Self::term(item)] + Self::terms(rest@));
                assert(tb[0] == Self::term(item));
                assert(tb.drop_first() =~= Self::terms(rest@));
            }
            let n = item.replaced(name, expr);
            proof {
                Self::lemma_terms_push(done_before, n);
                assert(Self::terms(done@.push(n)) + Self::substitutions(Self::terms(rest@), name@, expr@)
                    =~= Self::terms(done_before) + Self::substitutions(Self::terms(before), name@, expr@));
            }
            done.push(n);
        }
        proof {
            assert(Self::terms(done@) + Self::substitutions(Self::terms(rest@), name@, expr@)
                =~= Self::terms(done@));
        }
        done
    }

    /// Replaces every occurrence of the symbol `sym` by a copy of `expr`.
    /// The copies are not searched again.
    pub fn substitute(&mut self, sym: Symbol, expr: &Self)
        ensures
            final(self)@ == Self::substitution(old(self)@, sym@, expr@),
    {
        let mut e = ElementaryExpr::Add(Vec::new());
        std::mem::swap(self, &mut e);
        *self = e.replaced(&sym, expr);
    }

    /// The expression with every occurrence of the symbol `sym` replaced by
    /// a copy of `expr`.
    pub fn substituted(self, sym: Symbol, expr: &Self) -> (r: Self)
        ensures
            r@ == Self::substitution(self@, sym@, expr@),
    {
        self.replaced(&sym, expr)
    }
}

} // verus!
