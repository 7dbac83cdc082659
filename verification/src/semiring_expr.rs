//! Expression trees over semi-rings, and their normal forms under the
//! semi-ring laws.
use vstd::prelude::*;
use vstd::std_specs::cmp::PartialEqSpecImpl;

use crate::op::{AlgebraicSet, BinaryOperator, Identity};
use crate::ring::{one, plus, times, zero, SemiRing};
use crate::symbol::{compare_chars, compare_ints, names, note_name, Cmp, Symbol};

verus! {

/// An expression tree over a semi-ring: constants, named symbols, n-ary sums
/// and products, and powers (repeated multiplication; a well-formed tree has
/// exponents of at least 1).
#[derive(Debug)]
pub enum SemiRingExpr<SR: SemiRing> {
    Const(SR::Domain),
    Symbol(Symbol),
    Add(Vec<SemiRingExpr<SR>>),
    Mul(Vec<SemiRingExpr<SR>>),
    Pow { base: Box<SemiRingExpr<SR>>, exponent: usize },
}

/// The mathematical content of a [`SemiRingExpr`]: constants by value,
/// symbols by name.
pub enum SRTerm<V> {
    Const(V),
    Symbol(Seq<char>),
    Add(Seq<SRTerm<V>>),
    Mul(Seq<SRTerm<V>>),
    Pow(Box<SRTerm<V>>, nat),
}

/// The value type of `SR`'s elements.
pub type SValue<SR> = <<SR as SemiRing>::Domain as View>::V;

/// The term type of expressions over `SR`.
pub type STerm<SR> = SRTerm<SValue<SR>>;

impl<SR: SemiRing> View for SemiRingExpr<SR> {
    type V = STerm<SR>;

    open spec fn view(&self) -> STerm<SR> {
        Self::term(*self)
    }
}

impl<SR: SemiRing> SemiRingExpr<SR> {
    pub open spec fn term(e: Self) -> STerm<SR>
        decreases e,
    {
        match e {
            SemiRingExpr::Const(c) => SRTerm::Const(c@),
            SemiRingExpr::Symbol(s) => SRTerm::Symbol(s@),
            SemiRingExpr::Add(v) => SRTerm::Add(Self::terms(v@)),
            SemiRingExpr::Mul(v) => SRTerm::Mul(Self::terms(v@)),
            SemiRingExpr::Pow { base, exponent } => SRTerm::Pow(
                Box::new(Self::term(*base)),
                exponent as nat,
            ),
        }
    }

    pub open spec fn terms(s: Seq<Self>) -> Seq<STerm<SR>>
        decreases s,
    {
        if s.len() == 0 {
            Seq::empty()
        } else {
            seq![Self::term(s[0])] + Self::terms(s.drop_first())
        }
    }

    pub proof fn lemma_terms(s: Seq<Self>)
        ensures
            Self::terms(s).len() == s.len(),
            forall|i: int| 0 <= i < s.len() ==> #[trigger] Self::terms(s)[i] == Self::term(s[i]),
        decreases s.len(),
    {
        if s.len() > 0 {
            Self::lemma_terms(s.drop_first());
            assert forall|i: int| 0 <= i < s.len() implies #[trigger] Self::terms(s)[i] == Self::term(
                s[i],
            ) by {
                if i > 0 {
                    assert(s.drop_first()[i - 1] == s[i]);
                }
            }
        }
    }

    pub proof fn lemma_terms_push(s: Seq<Self>, x: Self)
        ensures
            Self::terms(s.push(x)) == Self::terms(s).push(Self::term(x)),
    {
        Self::lemma_terms(s);
        Self::lemma_terms(s.push(x));
        assert(Self::terms(s.push(x)) =~= Self::terms(s).push(Self::term(x)));
    }

    pub proof fn lemma_terms_concat(a: Seq<Self>, b: Seq<Self>)
        ensures
            Self::terms(a + b) == Self::terms(a) + Self::terms(b),
    {
        Self::lemma_terms(a);
        Self::lemma_terms(b);
        Self::lemma_terms(a + b);
        assert(Self::terms(a + b) =~= Self::terms(a) + Self::terms(b));
    }

    /// Wraps a domain element as a constant expression.
    pub fn constant(value: SR::Domain) -> (r: Self)
        ensures
            r@ == SRTerm::<SValue<SR>>::Const(value@),
    {
        SemiRingExpr::Const(value)
    }

    /// A copy of the expression.
    pub fn duplicate(&self) -> (r: Self)
        ensures
            r@ == self@,
        decreases self,
    {
        match self {
            SemiRingExpr::Const(c) => SemiRingExpr::Const(c.duplicate()),
            SemiRingExpr::Symbol(s) => SemiRingExpr::Symbol(s.clone()),
            SemiRingExpr::Pow { base, exponent } => SemiRingExpr::Pow {
                base: Box::new(base.duplicate()),
                exponent: *exponent,
            },
            SemiRingExpr::Add(v) => {
                let mut out: Vec<Self> = Vec::new();
                let mut i: usize = 0;
                while i < v.len()
                    invariant
                        *self == SemiRingExpr::<SR>::Add(*v),
                        i <= v.len(),
                        Self::terms(out@) == Self::terms(v@.take(i as int)),
                    decreases v.len() - i,
                {
                    proof {
                        assert(decreases_to!(*self => self->Add_0));
                        assert(decreases_to!(v => v@));
                        assert(decreases_to!(v@ => v@[i as int]));
                    }
                    let c = v[i].duplicate();
                    proof {
                        Self::lemma_terms_push(out@, c);
                        Self::lemma_terms_push(v@.take(i as int), v@[i as int]);
                        assert(v@.take(i + 1) =~= v@.take(i as int).push(v@[i as int]));
                    }
                    out.push(c);
                    i = i + 1;
                }
                proof {
                    assert(v@.take(v.len() as int) =~= v@);
                }
                SemiRingExpr::Add(out)
            },
            SemiRingExpr::Mul(v) => {
                let mut out: Vec<Self> = Vec::new();
                let mut i: usize = 0;
                while i < v.len()
                    invariant
                        *self == SemiRingExpr::<SR>::Mul(*v),
                        i <= v.len(),
                        Self::terms(out@) == Self::terms(v@.take(i as int)),
                    decreases v.len() - i,
                {
                    proof {
                        assert(decreases_to!(*self => self->Mul_0));
                        assert(decreases_to!(v => v@));
                        assert(decreases_to!(v@ => v@[i as int]));
                    }
                    let c = v[i].duplicate();
                    proof {
                        Self::lemma_terms_push(out@, c);
                        Self::lemma_terms_push(v@.take(i as int), v@[i as int]);
                        assert(v@.take(i + 1) =~= v@.take(i as int).push(v@[i as int]));
                    }
                    out.push(c);
                    i = i + 1;
                }
                proof {
                    assert(v@.take(v.len() as int) =~= v@);
                }
                SemiRingExpr::Mul(out)
            },
        }
    }

    /// Whether two lists of expressions are equal element by element.
    fn equal_lists(a: &Vec<Self>, b: &Vec<Self>, Ghost(whole): Ghost<Self>) -> (r: bool)
        requires
            whole == SemiRingExpr::<SR>::Add(*a) || whole == SemiRingExpr::<SR>::Mul(*a),
        ensures
            r == (Self::terms(a@) == Self::terms(b@)),
        decreases whole, 0int,
    {
        proof {
            Self::lemma_terms(a@);
            Self::lemma_terms(b@);
        }
        if a.len() != b.len() {
            return false;
        }
        let mut i: usize = 0;
        while i < a.len()
            invariant
                whole == SemiRingExpr::<SR>::Add(*a) || whole == SemiRingExpr::<SR>::Mul(*a),
                i <= a.len(),
                a.len() == b.len(),
                Self::terms(a@).len() == a.len(),
                Self::terms(b@).len() == b.len(),
                forall|j: int| 0 <= j < a.len() ==> #[trigger] Self::terms(a@)[j] == Self::term(a@[j]),
                forall|j: int| 0 <= j < b.len() ==> #[trigger] Self::terms(b@)[j] == Self::term(b@[j]),
                forall|j: int| 0 <= j < i ==> Self::term(#[trigger] a@[j]) == Self::term(b@[j]),
            decreases a.len() - i,
        {
            proof {
                if whole == SemiRingExpr::<SR>::Add(*a) {
                    assert(decreases_to!(whole => whole->Add_0));
                } else {
                    assert(decreases_to!(whole => whole->Mul_0));
                }
                assert(decreases_to!(a => a@));
                assert(decreases_to!(a@ => a@[i as int]));
            }
            if !a[i].equals(&b[i]) {
                proof {
                    assert(Self::terms(a@)[i as int] != Self::terms(b@)[i as int]);
                }
                return false;
            }
            i = i + 1;
        }
        proof {
            assert(Self::terms(a@) =~= Self::terms(b@));
        }
        true
    }

    /// Structural equality of the mathematical content.
    pub fn equals(&self, other: &Self) -> (r: bool)
        ensures
            r == (self@ == other@),
        decreases self, 1int,
    {
        match (self, other) {
            (SemiRingExpr::Const(a), SemiRingExpr::Const(b)) => a.equals(b),
            (SemiRingExpr::Symbol(a), SemiRingExpr::Symbol(b)) => a.same(b),
            (
                SemiRingExpr::Pow { base: a, exponent: i },
                SemiRingExpr::Pow { base: b, exponent: j },
            ) => *i == *j && a.equals(b),
            (SemiRingExpr::Add(a), SemiRingExpr::Add(b)) => Self::equal_lists(a, b, Ghost(*self)),
            (SemiRingExpr::Mul(a), SemiRingExpr::Mul(b)) => Self::equal_lists(a, b, Ghost(*self)),
            _ => false,
        }
    }
}

impl<SR: SemiRing> Clone for SemiRingExpr<SR> {
    fn clone(&self) -> (r: Self)
        ensures
            r@ == self@,
    {
        self.duplicate()
    }
}

impl<SR: SemiRing> PartialEq for SemiRingExpr<SR> {
    fn eq(&self, other: &Self) -> (r: bool) {
        self.equals(other)
    }
}

impl<SR: SemiRing> PartialEqSpecImpl for SemiRingExpr<SR> {
    open spec fn obeys_eq_spec() -> bool {
        true
    }

    open spec fn eq_spec(&self, other: &Self) -> bool {
        self@ == other@
    }
}

impl<SR: SemiRing> Eq for SemiRingExpr<SR> {

}

/// The normal form of sums, products and powers under the semi-ring laws.
impl<SR: SemiRing> SemiRingExpr<SR> {
    /// The summands of a list of terms, with one level of sums spliced in.
    pub open spec fn flatten_sums(items: Seq<STerm<SR>>) -> Seq<STerm<SR>>
        decreases items.len(),
    {
        if items.len() == 0 {
            Seq::empty()
        } else {
            let rest = Self::flatten_sums(items.drop_last());
            match items.last() {
                SRTerm::Add(inner) => rest + inner,
                t => rest.push(t),
            }
        }
    }

    /// The factors of a list of terms, with one level of products spliced in.
    pub open spec fn flatten_products(items: Seq<STerm<SR>>) -> Seq<STerm<SR>>
        decreases items.len(),
    {
        if items.len() == 0 {
            Seq::empty()
        } else {
            let rest = Self::flatten_products(items.drop_last());
            match items.last() {
                SRTerm::Mul(inner) => rest + inner,
                t => rest.push(t),
            }
        }
    }

    /// A summand as a left coefficient and its core: `c * x` is `(c, x)`,
    /// `c * x * y` is `(c, x * y)`, and anything else has coefficient one.
    pub open spec fn split_coefficient(item: STerm<SR>) -> (SValue<SR>, STerm<SR>) {
        match item {
            SRTerm::Mul(factors) => if factors.len() > 0 {
                match factors[0] {
                    SRTerm::Const(c) => (
                        c,
                        if factors.len() == 2 {
                            factors[1]
                        } else {
                            SRTerm::Mul(factors.drop_first())
                        },
                    ),
                    _ => (one::<SR>(), item),
                }
            } else {
                (one::<SR>(), item)
            },
            _ => (one::<SR>(), item),
        }
    }

    /// The position of the first entry for `core`.
    pub open spec fn find_core(coeffs: Seq<(STerm<SR>, SValue<SR>)>, core: STerm<SR>) -> Option<int>
        decreases coeffs.len(),
    {
        if coeffs.len() == 0 {
            None
        } else if coeffs[0].0 == core {
            Some(0)
        } else {
            match Self::find_core(coeffs.drop_first(), core) {
                Some(i) => Some(i + 1),
                None => None,
            }
        }
    }

    /// Adds `c` to the coefficient of `core`, appending it if it is new.
    pub open spec fn add_term(
        coeffs: Seq<(STerm<SR>, SValue<SR>)>,
        core: STerm<SR>,
        c: SValue<SR>,
    ) -> Seq<(STerm<SR>, SValue<SR>)> {
        match Self::find_core(coeffs, core) {
            Some(i) => coeffs.update(i, (core, plus::<SR>(coeffs[i].1, c))),
            None => coeffs.push((core, c)),
        }
    }

    /// One summand into the coefficient table.
    pub open spec fn collect_step(
        state: (SValue<SR>, Seq<(STerm<SR>, SValue<SR>)>),
        item: STerm<SR>,
    ) -> (SValue<SR>, Seq<(STerm<SR>, SValue<SR>)>) {
        match item {
            SRTerm::Const(c) => (plus::<SR>(state.0, c), state.1),
            _ => {
                let split = Self::split_coefficient(item);
                (state.0, Self::add_term(state.1, split.1, split.0))
            },
        }
    }

    /// The coefficient table of a sum: the folded constant term, and each
    /// distinct core with its summed coefficient, in first-appearance order.
    pub open spec fn collect_terms(items: Seq<STerm<SR>>) -> (SValue<SR>, Seq<(STerm<SR>, SValue<SR>)>)
        decreases items.len(),
    {
        if items.len() == 0 {
            (zero::<SR>(), Seq::empty())
        } else {
            Self::collect_step(Self::collect_terms(items.drop_last()), items.last())
        }
    }

    /// `coeff * core`, with the coefficient as the first factor.
    pub open spec fn scaled(core: STerm<SR>, coeff: SValue<SR>) -> STerm<SR> {
        SRTerm::Mul(
            seq![SRTerm::Const(coeff)] + match core {
                SRTerm::Mul(inner) => inner,
                c => seq![c],
            },
        )
    }

    /// The summands for the table entries, after `out`: zero coefficients
    /// drop out and a coefficient of one is left implicit.
    pub open spec fn emit(out: Seq<STerm<SR>>, coeffs: Seq<(STerm<SR>, SValue<SR>)>) -> Seq<STerm<SR>>
        decreases coeffs.len(),
    {
        if coeffs.len() == 0 {
            out
        } else {
            let core = coeffs[0].0;
            let c = coeffs[0].1;
            let next = if c == zero::<SR>() {
                out
            } else if c == one::<SR>() {
                out.push(core)
            } else {
                out.push(Self::scaled(core, c))
            };
            Self::emit(next, coeffs.drop_first())
        }
    }

    /// A sum of the given summands: zero when there are none, the summand
    /// when there is one.
    pub open spec fn finish_sum(out: Seq<STerm<SR>>) -> STerm<SR> {
        if out.len() == 0 {
            SRTerm::Const(zero::<SR>())
        } else if out.len() == 1 {
            out[0]
        } else {
            SRTerm::Add(out)
        }
    }

    /// Rebuilds a sum from its coefficient table: the constant term first
    /// (unless it is zero and other terms remain), then the entries.
    pub open spec fn build_sum(table: (SValue<SR>, Seq<(STerm<SR>, SValue<SR>)>)) -> STerm<SR> {
        let start = if table.1.len() == 0 || table.0 != zero::<SR>() {
            seq![SRTerm::Const(table.0)]
        } else {
            Seq::empty()
        };
        Self::finish_sum(Self::emit(start, table.1))
    }

    /// One factor onto the stack of a product: ones drop out, a zero
    /// annihilates, and adjacent constants fold.
    pub open spec fn fold_step(stack: Option<Seq<STerm<SR>>>, item: STerm<SR>) -> Option<Seq<STerm<SR>>> {
        match stack {
            None => None,
            Some(st) => if item == SRTerm::<SValue<SR>>::Const(one::<SR>()) {
                Some(st)
            } else if item == SRTerm::<SValue<SR>>::Const(zero::<SR>()) {
                None
            } else {
                match item {
                    SRTerm::Const(s) => if st.len() > 0 {
                        match st.last() {
                            SRTerm::Const(t) => {
                                let c = times::<SR>(t, s);
                                if c == zero::<SR>() {
                                    None
                                } else if c != one::<SR>() {
                                    Some(st.drop_last().push(SRTerm::Const(c)))
                                } else {
                                    Some(st.drop_last())
                                }
                            },
                            _ => Some(st.push(item)),
                        }
                    } else {
                        Some(st.push(item))
                    },
                    _ => Some(st.push(item)),
                }
            },
        }
    }

    /// Order-preserving pass over factors: drops ones and folds adjacent
    /// constants; `None` when a zero annihilates the product.
    pub open spec fn fold_factors(items: Seq<STerm<SR>>) -> Option<Seq<STerm<SR>>>
        decreases items.len(),
    {
        if items.len() == 0 {
            Some(Seq::empty())
        } else {
            Self::fold_step(Self::fold_factors(items.drop_last()), items.last())
        }
    }

    /// Some factor is a sum.
    pub open spec fn has_sum(factors: Seq<STerm<SR>>) -> bool {
        exists|i: int| 0 <= i < factors.len() && factors[i] is Add
    }

    /// Each product extended by each term, products first.
    pub open spec fn spread(products: Seq<Seq<STerm<SR>>>, terms: Seq<STerm<SR>>) -> Seq<
        Seq<STerm<SR>>,
    >
        decreases products.len(),
    {
        if products.len() == 0 {
            Seq::empty()
        } else {
            terms.map_values(|t: STerm<SR>| products[0].push(t)) + Self::spread(
                products.drop_first(),
                terms,
            )
        }
    }

    /// The products extended by one more factor: by each of its terms when
    /// it is a sum.
    pub open spec fn expand(products: Seq<Seq<STerm<SR>>>, factor: STerm<SR>) -> Seq<Seq<STerm<SR>>> {
        match factor {
            SRTerm::Add(terms) => Self::spread(products, terms),
            f => products.map_values(|p: Seq<STerm<SR>>| p.push(f)),
        }
    }

    /// The products of the cartesian expansion of the factors, factor order
    /// kept.
    pub open spec fn products_of(factors: Seq<STerm<SR>>) -> Seq<Seq<STerm<SR>>>
        decreases factors.len(),
    {
        if factors.len() == 0 {
            seq![Seq::empty()]
        } else {
            Self::expand(Self::products_of(factors.drop_last()), factors.last())
        }
    }

    /// A product with sum factors, distributed into a sum of products.
    pub open spec fn distribute(factors: Seq<STerm<SR>>) -> STerm<SR> {
        SRTerm::Add(Self::products_of(factors).map_values(|p: Seq<STerm<SR>>| SRTerm::Mul(p)))
    }

    /// A product of the given factors: one when there are none, the factor
    /// when there is one.
    pub open spec fn build_product(factors: Seq<STerm<SR>>) -> STerm<SR> {
        if factors.len() == 0 {
            SRTerm::Const(one::<SR>())
        } else if factors.len() == 1 {
            factors[0]
        } else {
            SRTerm::Mul(factors)
        }
    }

    /// `c * c * ... * c` with `n` factors (`c` itself when `n` is at most 1).
    pub open spec fn power(c: SValue<SR>, n: nat) -> SValue<SR>
        decreases n,
    {
        if n <= 1 {
            c
        } else {
            times::<SR>(Self::power(c, (n - 1) as nat), c)
        }
    }

    /// `base^n` with `base` in normal form: constant bases fold, exponent 1
    /// collapses, and nested powers multiply their exponents when the
    /// product fits a `usize`.
    pub open spec fn reduce_pow(base: STerm<SR>, n: nat) -> STerm<SR> {
        match base {
            SRTerm::Const(c) => SRTerm::Const(Self::power(c, n)),
            _ => if n == 1 {
                base
            } else {
                match base {
                    SRTerm::Pow(b, m) => if m * n <= usize::MAX {
                        SRTerm::Pow(b, m * n)
                    } else {
                        SRTerm::Pow(Box::new(SRTerm::Pow(b, m)), n)
                    },
                    _ => SRTerm::Pow(Box::new(base), n),
                }
            },
        }
    }

    /// The rank of a node kind in the structural order.
    pub open spec fn rank(t: STerm<SR>) -> int {
        match t {
            SRTerm::Const(_) => 0,
            SRTerm::Symbol(_) => 1,
            SRTerm::Pow(_, _) => 2,
            SRTerm::Mul(_) => 3,
            SRTerm::Add(_) => 4,
        }
    }

    /// The structural order used for canonical sorting under
    /// commutativity: by node kind, then symbols by name, powers by base
    /// then exponent, sums and products factor by factor then by length.
    /// It never compares domain elements: constants tie.
    pub open spec fn structural_order(a: STerm<SR>, b: STerm<SR>) -> Cmp
        decreases a,
    {
        match (a, b) {
            (SRTerm::Const(_), SRTerm::Const(_)) => Cmp::Equal,
            (SRTerm::Symbol(s), SRTerm::Symbol(o)) => compare_chars(s, o),
            (SRTerm::Pow(sb, se), SRTerm::Pow(ob, oe)) => match Self::structural_order(*sb, *ob) {
                Cmp::Equal => compare_ints(se as int, oe as int),
                c => c,
            },
            (SRTerm::Mul(s), SRTerm::Mul(o)) => Self::structural_order_lists(s, o),
            (SRTerm::Add(s), SRTerm::Add(o)) => Self::structural_order_lists(s, o),
            _ => compare_ints(Self::rank(a), Self::rank(b)),
        }
    }

    /// Lists in the structural order: the first differing entry decides,
    /// then the length.
    pub open spec fn structural_order_lists(s: Seq<STerm<SR>>, o: Seq<STerm<SR>>) -> Cmp
        decreases s,
    {
        if s.len() == 0 || o.len() == 0 {
            compare_ints(s.len() as int, o.len() as int)
        } else {
            match Self::structural_order(s[0], o[0]) {
                Cmp::Equal => Self::structural_order_lists(s.drop_first(), o.drop_first()),
                c => c,
            }
        }
    }

    /// `x` inserted into `sorted` after every entry whose term does not
    /// compare greater than its own.
    pub open spec fn insert_by_term<T>(sorted: Seq<(STerm<SR>, T)>, x: (STerm<SR>, T)) -> Seq<
        (STerm<SR>, T),
    >
        decreases sorted.len(),
    {
        if sorted.len() == 0 {
            seq![x]
        } else if Self::structural_order(sorted.last().0, x.0) == Cmp::Greater {
            Self::insert_by_term(sorted.drop_last(), x).push(sorted.last())
        } else {
            sorted.push(x)
        }
    }

    /// The entries stably sorted by their terms in the structural order:
    /// entries whose terms compare equal keep their order.
    pub open spec fn sort_by_term<T>(s: Seq<(STerm<SR>, T)>) -> Seq<(STerm<SR>, T)>
        decreases s.len(),
    {
        if s.len() == 0 {
            Seq::empty()
        } else {
            Self::insert_by_term(Self::sort_by_term(s.drop_last()), s.last())
        }
    }

    /// The product of the constant factors, in order.
    pub open spec fn const_product(fs: Seq<STerm<SR>>) -> SValue<SR>
        decreases fs.len(),
    {
        if fs.len() == 0 {
            one::<SR>()
        } else {
            let p = Self::const_product(fs.drop_last());
            match fs.last() {
                SRTerm::Const(c) => times::<SR>(p, c),
                _ => p,
            }
        }
    }

    /// The factors that are not constants, in order.
    pub open spec fn non_constants(fs: Seq<STerm<SR>>) -> Seq<STerm<SR>>
        decreases fs.len(),
    {
        if fs.len() == 0 {
            Seq::empty()
        } else {
            let rest = Self::non_constants(fs.drop_last());
            match fs.last() {
                SRTerm::Const(_) => rest,
                f => rest.push(f),
            }
        }
    }

    /// A factor as a base and exponent: `b^n` is `(b, n)`, anything else is
    /// itself to the first power.
    pub open spec fn base_and_exponent(f: STerm<SR>) -> (STerm<SR>, nat) {
        match f {
            SRTerm::Pow(b, n) => (*b, n),
            _ => (f, 1),
        }
    }

    /// The position of the first entry with base `b`.
    pub open spec fn find_base(pows: Seq<(STerm<SR>, nat)>, b: STerm<SR>) -> Option<int>
        decreases pows.len(),
    {
        if pows.len() == 0 {
            None
        } else if pows[0].0 == b {
            Some(0)
        } else {
            match Self::find_base(pows.drop_first(), b) {
                Some(i) => Some(i + 1),
                None => None,
            }
        }
    }

    /// One factor into the table of powers: its exponent is added to its
    /// base's entry, which is appended if new.
    pub open spec fn power_step(pows: Seq<(STerm<SR>, nat)>, f: STerm<SR>) -> Seq<(STerm<SR>, nat)> {
        let (b, e) = Self::base_and_exponent(f);
        match Self::find_base(pows, b) {
            Some(i) => pows.update(i, (b, pows[i].1 + e)),
            None => pows.push((b, e)),
        }
    }

    /// Repeated factors collected into powers, bases in first-appearance
    /// order: `x * x^2 * y` is `[(x, 3), (y, 1)]`.
    pub open spec fn collect_powers(fs: Seq<STerm<SR>>) -> Seq<(STerm<SR>, nat)>
        decreases fs.len(),
    {
        if fs.len() == 0 {
            Seq::empty()
        } else {
            Self::power_step(Self::collect_powers(fs.drop_last()), fs.last())
        }
    }

    /// Whether collecting the powers of `fs` keeps every exponent, at every
    /// step, within `usize`.
    pub open spec fn powers_fit(fs: Seq<STerm<SR>>) -> bool {
        forall|k: int, i: int|
            0 <= k <= fs.len() && 0 <= i < Self::collect_powers(fs.take(k)).len() ==> #[trigger] Self::collect_powers(
                fs.take(k),
            )[i].1 <= usize::MAX
    }

    /// A base and exponent as a factor.
    pub open spec fn power_factor(p: (STerm<SR>, nat)) -> STerm<SR> {
        if p.1 == 1 {
            p.0
        } else {
            SRTerm::Pow(Box::new(p.0), p.1)
        }
    }

    /// A product under commutativity: all constants fold into one leading
    /// constant (the product vanishes when it is zero, and it is left out
    /// when it is one), and repeated factors collect into powers sorted by
    /// base.
    pub open spec fn commute(fs: Seq<STerm<SR>>) -> STerm<SR> {
        let c = Self::const_product(fs);
        if c == zero::<SR>() {
            SRTerm::Const(zero::<SR>())
        } else {
            let pows = Self::sort_by_term(Self::collect_powers(Self::non_constants(fs)));
            let lead = if c != one::<SR>() {
                seq![SRTerm::Const(c)]
            } else {
                Seq::empty()
            };
            Self::build_product(lead + pows.map_values(|p: (STerm<SR>, nat)| Self::power_factor(p)))
        }
    }

    /// The normal form of `t` under the semi-ring laws, and, when `comm`,
    /// commutativity of multiplication. Sums fold their constants into one
    /// leading constant and collect like terms into left coefficients in
    /// first-appearance order (sorted by the structural order of their terms
    /// when `comm`); products drop ones, fold adjacent constants, vanish on
    /// a zero factor, and distribute over sum factors (the distributed sum
    /// is normalized again, with `budget` counting how many times this may
    /// happen along one path); when `comm` they then fold all constants and
    /// collect powers; powers fold constant bases and collapse exponent 1
    /// and nested powers.
    pub open spec fn norm(t: STerm<SR>, budget: nat, comm: bool) -> STerm<SR>
        decreases budget, t,
    {
        match t {
            SRTerm::Add(es) => {
                let table = Self::collect_terms(Self::flatten_sums(Self::norms(es, budget, comm)));
                Self::build_sum(
                    if comm {
                        (table.0, Self::sort_by_term(table.1))
                    } else {
                        table
                    },
                )
            },
            SRTerm::Mul(es) => match Self::fold_factors(
                Self::flatten_products(Self::norms(es, budget, comm)),
            ) {
                None => SRTerm::Const(zero::<SR>()),
                Some(fs) => if Self::has_sum(fs) && budget > 0 {
                    Self::norm(Self::distribute(fs), (budget - 1) as nat, comm)
                } else if comm {
                    Self::commute(fs)
                } else {
                    Self::build_product(fs)
                },
            },
            SRTerm::Pow(b, n) => Self::reduce_pow(Self::norm(*b, budget, comm), n),
            _ => t,
        }
    }

    /// The normal forms of a list of terms.
    pub open spec fn norms(s: Seq<STerm<SR>>, budget: nat, comm: bool) -> Seq<STerm<SR>>
        decreases budget, s,
    {
        if s.len() == 0 {
            Seq::empty()
        } else {
            seq![Self::norm(s[0], budget, comm)] + Self::norms(s.drop_first(), budget, comm)
        }
    }

    /// Whether normalizing `t` keeps every collected exponent within
    /// `usize`; only products under commutativity collect exponents.
    pub open spec fn fits(t: STerm<SR>, budget: nat, comm: bool) -> bool
        decreases budget, t,
    {
        match t {
            SRTerm::Add(es) => Self::all_fit(es, budget, comm),
            SRTerm::Mul(es) => Self::all_fit(es, budget, comm) && match Self::fold_factors(
                Self::flatten_products(Self::norms(es, budget, comm)),
            ) {
                None => true,
                Some(fs) => if Self::has_sum(fs) && budget > 0 {
                    Self::fits(Self::distribute(fs), (budget - 1) as nat, comm)
                } else if comm {
                    Self::powers_fit(Self::non_constants(fs))
                } else {
                    true
                },
            },
            SRTerm::Pow(b, _) => Self::fits(*b, budget, comm),
            _ => true,
        }
    }

    /// Whether each term of a list [`Self::fits`].
    pub open spec fn all_fit(s: Seq<STerm<SR>>, budget: nat, comm: bool) -> bool
        decreases budget, s,
    {
        if s.len() == 0 {
            true
        } else {
            Self::fits(s[0], budget, comm) && Self::all_fit(s.drop_first(), budget, comm)
        }
    }
}

/// Tables of powers, as values.
pub open spec fn powers_view<SR: SemiRing>(pows: Seq<(SemiRingExpr<SR>, usize)>) -> Seq<(STerm<SR>, nat)> {
    pows.map_values(|p: (SemiRingExpr<SR>, usize)| (p.0@, p.1 as nat))
}

/// Coefficient tables, as values.
pub open spec fn table_view<SR: SemiRing>(coeffs: Seq<(SemiRingExpr<SR>, SR::Domain)>) -> Seq<
    (STerm<SR>, SValue<SR>),
> {
    coeffs.map_values(|p: (SemiRingExpr<SR>, SR::Domain)| (p.0@, p.1@))
}

impl<SR: SemiRing> SemiRingExpr<SR> {
    fn zero_value() -> (r: SR::Domain)
        ensures
            r@ == zero::<SR>(),
    {
        <SR::Addition as Identity>::identity()
    }

    fn one_value() -> (r: SR::Domain)
        ensures
            r@ == one::<SR>(),
    {
        <SR::Multiplication as Identity>::identity()
    }

    fn plus_values(a: SR::Domain, b: SR::Domain) -> (r: SR::Domain)
        ensures
            r@ == plus::<SR>(a@, b@),
    {
        <SR::Addition as BinaryOperator>::apply(a, b)
    }

    fn times_values(a: SR::Domain, b: SR::Domain) -> (r: SR::Domain)
        ensures
            r@ == times::<SR>(a@, b@),
    {
        <SR::Multiplication as BinaryOperator>::apply(a, b)
    }

    /// Splices one level of sums into a list.
    fn flatten_sums_exec(items: Vec<Self>) -> (r: Vec<Self>)
        ensures
            Self::terms(r@) == Self::flatten_sums(Self::terms(items@)),
    {
        let ghost all = items@;
        let mut rest = items;
        let mut out: Vec<Self> = Vec::new();
        proof {
            Self::lemma_terms(all);
            assert(Self::terms(all).take(0) =~= Seq::<STerm<SR>>::empty());
            assert(rest@ =~= all.skip(0));
        }
        while rest.len() > 0
            invariant
                rest@.len() <= all.len(),
                rest@ == all.skip(all.len() - rest@.len()),
                Self::terms(all).len() == all.len(),
                forall|j: int| 0 <= j < all.len() ==> #[trigger] Self::terms(all)[j] == Self::term(all[j]),
                Self::terms(out@) == Self::flatten_sums(
                    Self::terms(all).take(all.len() - rest@.len()),
                ),
            decreases rest.len(),
        {
            let ghost k = all.len() - rest@.len();
            let ghost before = out@;
            let item = rest.remove(0);
            proof {
                assert(item == all[k]);
                let prefix = Self::terms(all).take(k + 1);
                assert(prefix.drop_last() == Self::terms(all).take(k));
                assert(prefix.last() == Self::term(item));
                assert(rest@ =~= all.skip(k + 1));
            }
            match item {
                SemiRingExpr::Add(inner) => {
                    let mut inner = inner;
                    let ghost pieces = inner@;
                    out.append(&mut inner);
                    proof {
                        Self::lemma_terms_concat(before, pieces);
                    }
                },
                other => {
                    proof {
                        Self::lemma_terms_push(before, other);
                    }
                    out.push(other);
                },
            }
        }
        proof {
            assert(Self::terms(all).take(all.len() as int) =~= Self::terms(all));
        }
        out
    }

    /// Splices one level of products into a list.
    fn flatten_products_exec(items: Vec<Self>) -> (r: Vec<Self>)
        ensures
            Self::terms(r@) == Self::flatten_products(Self::terms(items@)),
    {
        let ghost all = items@;
        let mut rest = items;
        let mut out: Vec<Self> = Vec::new();
        proof {
            Self::lemma_terms(all);
            assert(Self::terms(all).take(0) =~= Seq::<STerm<SR>>::empty());
            assert(rest@ =~= all.skip(0));
        }
        while rest.len() > 0
            invariant
                rest@.len() <= all.len(),
                rest@ == all.skip(all.len() - rest@.len()),
                Self::terms(all).len() == all.len(),
                forall|j: int| 0 <= j < all.len() ==> #[trigger] Self::terms(all)[j] == Self::term(all[j]),
                Self::terms(out@) == Self::flatten_products(
                    Self::terms(all).take(all.len() - rest@.len()),
                ),
            decreases rest.len(),
        {
            let ghost k = all.len() - rest@.len();
            let ghost before = out@;
            let item = rest.remove(0);
            proof {
                assert(item == all[k]);
                let prefix = Self::terms(all).take(k + 1);
                assert(prefix.drop_last() == Self::terms(all).take(k));
                assert(prefix.last() == Self::term(item));
                assert(rest@ =~= all.skip(k + 1));
            }
            match item {
                SemiRingExpr::Mul(inner) => {
                    let mut inner = inner;
                    let ghost pieces = inner@;
                    out.append(&mut inner);
                    proof {
                        Self::lemma_terms_concat(before, pieces);
                    }
                },
                other => {
                    proof {
                        Self::lemma_terms_push(before, other);
                    }
                    out.push(other);
                },
            }
        }
        proof {
            assert(Self::terms(all).take(all.len() as int) =~= Self::terms(all));
        }
        out
    }

    /// A summand as its left coefficient and core.
    fn split_coefficient_exec(item: Self) -> (r: (SR::Domain, Self))
        ensures
            (r.0@, r.1@) == Self::split_coefficient(item@),
    {
        let ghost view = item@;
        match item {
            SemiRingExpr::Mul(factors) => {
                let leading = factors.len() > 0 && match &factors[0] {
                    SemiRingExpr::Const(_) => true,
                    _ => false,
                };
                proof {
                    Self::lemma_terms(factors@);
                }
                if leading {
                    let mut factors = factors;
                    let ghost all = factors@;
                    let first = factors.remove(0);
                    proof {
                        assert(factors@ =~= all.drop_first());
                        Self::lemma_terms(factors@);
                        assert(Self::terms(all).drop_first() =~= Self::terms(factors@));
                    }
                    match first {
                        SemiRingExpr::Const(c) => {
                            if factors.len() == 1 {
                                let core = factors.pop().unwrap();
                                (c, core)
                            } else {
                                (c, SemiRingExpr::Mul(factors))
                            }
                        },
                        other => (Self::one_value(), other),
                    }
                } else {
                    (Self::one_value(), SemiRingExpr::Mul(factors))
                }
            },
            other => (Self::one_value(), other),
        }
    }

    proof fn lemma_find_core_at(coeffs: Seq<(STerm<SR>, SValue<SR>)>, core: STerm<SR>, i: int)
        requires
            0 <= i <= coeffs.len(),
            forall|j: int| 0 <= j < i ==> #[trigger] coeffs[j].0 != core,
        ensures
            i < coeffs.len() && coeffs[i].0 == core ==> Self::find_core(coeffs, core) == Some(i),
            i == coeffs.len() ==> Self::find_core(coeffs, core) is None,
        decreases i,
    {
        if i > 0 {
            assert forall|j: int| 0 <= j < i - 1 implies #[trigger] coeffs.drop_first()[j].0 != core by {
                assert(coeffs.drop_first()[j] == coeffs[j + 1]);
            }
            Self::lemma_find_core_at(coeffs.drop_first(), core, i - 1);
        }
    }

    proof fn lemma_find_core_bound(coeffs: Seq<(STerm<SR>, SValue<SR>)>, core: STerm<SR>)
        ensures
            Self::find_core(coeffs, core) matches Some(i) ==> 0 <= i < coeffs.len() && coeffs[i].0
                == core,
        decreases coeffs.len(),
    {
        if coeffs.len() > 0 {
            Self::lemma_find_core_bound(coeffs.drop_first(), core);
        }
    }

    /// The position of the entry for `core`.
    fn find_core_exec(coeffs: &Vec<(Self, SR::Domain)>, core: &Self) -> (r: Option<usize>)
        ensures
            r matches Some(i) ==> Self::find_core(table_view::<SR>(coeffs@), core@) == Some(i as int),
            r is None ==> Self::find_core(table_view::<SR>(coeffs@), core@) is None,
    {
        let ghost view = table_view::<SR>(coeffs@);
        let mut i: usize = 0;
        while i < coeffs.len()
            invariant
                i <= coeffs.len(),
                view == table_view::<SR>(coeffs@),
                forall|j: int| 0 <= j < i ==> #[trigger] view[j].0 != core@,
            decreases coeffs.len() - i,
        {
            if coeffs[i].0.equals(core) {
                proof {
                    Self::lemma_find_core_at(view, core@, i as int);
                }
                return Some(i);
            }
            i = i + 1;
        }
        proof {
            Self::lemma_find_core_at(view, core@, i as int);
        }
        None
    }

    /// The coefficient table of a list of summands.
    fn collect_terms_exec(items: Vec<Self>) -> (r: (SR::Domain, Vec<(Self, SR::Domain)>))
        ensures
            (r.0@, table_view::<SR>(r.1@)) == Self::collect_terms(Self::terms(items@)),
    {
        let ghost all = items@;
        let mut rest = items;
        let mut acc = Self::zero_value();
        let mut coeffs: Vec<(Self, SR::Domain)> = Vec::new();
        proof {
            Self::lemma_terms(all);
            assert(Self::terms(all).take(0) =~= Seq::<STerm<SR>>::empty());
            assert(rest@ =~= all.skip(0));
            assert(table_view::<SR>(coeffs@) =~= Seq::<(STerm<SR>, SValue<SR>)>::empty());
        }
        while rest.len() > 0
            invariant
                rest@.len() <= all.len(),
                rest@ == all.skip(all.len() - rest@.len()),
                Self::terms(all).len() == all.len(),
                forall|j: int| 0 <= j < all.len() ==> #[trigger] Self::terms(all)[j] == Self::term(all[j]),
                (acc@, table_view::<SR>(coeffs@)) == Self::collect_terms(
                    Self::terms(all).take(all.len() - rest@.len()),
                ),
            decreases rest.len(),
        {
            let ghost k = all.len() - rest@.len();
            let ghost table = table_view::<SR>(coeffs@);
            let item = rest.remove(0);
            proof {
                assert(item == all[k]);
                let prefix = Self::terms(all).take(k + 1);
                assert(prefix.drop_last() == Self::terms(all).take(k));
                assert(prefix.last() == Self::term(item));
                assert(rest@ =~= all.skip(k + 1));
            }
            match item {
                SemiRingExpr::Const(c) => {
                    acc = Self::plus_values(acc, c);
                },
                other => {
                    let ghost other_view = other@;
                    let (c, core) = Self::split_coefficient_exec(other);
                    match Self::find_core_exec(&coeffs, &core) {
                        Some(i) => {
                            proof {
                                Self::lemma_find_core_bound(table, core@);
                            }
                            let current = coeffs[i].1.duplicate();
                            let sum = Self::plus_values(current, c);
                            let ghost entry = (core@, sum@);
                            coeffs.set(i, (core, sum));
                            proof {
                                assert(table_view::<SR>(coeffs@) =~= table.update(i as int, entry));
                            }
                        },
                        None => {
                            let ghost entry = (core@, c@);
                            coeffs.push((core, c));
                            proof {
                                assert(table_view::<SR>(coeffs@) =~= table.push(entry));
                            }
                        },
                    }
                },
            }
        }
        proof {
            assert(Self::terms(all).take(all.len() as int) =~= Self::terms(all));
        }
        (acc, coeffs)
    }
}

impl<SR: SemiRing> SemiRingExpr<SR> {
    /// Rebuilds a sum from its coefficient table.
    fn build_sum_exec(acc: SR::Domain, coeffs: Vec<(Self, SR::Domain)>) -> (r: Self)
        ensures
            r@ == Self::build_sum((acc@, table_view::<SR>(coeffs@))),
    {
        let ghost all = table_view::<SR>(coeffs@);
        let ghost acc_view = acc@;
        let zero_value = Self::zero_value();
        let one_value = Self::one_value();
        let mut out: Vec<Self> = Vec::new();
        if coeffs.len() == 0 || !acc.equals(&zero_value) {
            out.push(SemiRingExpr::Const(acc));
        }
        proof {
            Self::lemma_terms(out@);
            let start = if all.len() == 0 || acc_view != zero::<SR>() {
                seq![SRTerm::<SValue<SR>>::Const(acc_view)]
            } else {
                Seq::<STerm<SR>>::empty()
            };
            assert(Self::terms(out@) =~= start);
            assert(all.skip(0) =~= all);
        }
        let mut rest = coeffs;
        while rest.len() > 0
            invariant
                rest@.len() <= all.len(),
                table_view::<SR>(rest@) == all.skip(all.len() - rest@.len()),
                zero_value@ == zero::<SR>(),
                one_value@ == one::<SR>(),
                Self::emit(
                    if all.len() == 0 || acc_view != zero::<SR>() {
                        seq![SRTerm::<SValue<SR>>::Const(acc_view)]
                    } else {
                        Seq::<STerm<SR>>::empty()
                    },
                    all,
                ) == Self::emit(Self::terms(out@), table_view::<SR>(rest@)),
            decreases rest.len(),
        {
            let ghost before = rest@;
            let ghost out_before = out@;
            let (core, c) = rest.remove(0);
            proof {
                assert(table_view::<SR>(rest@) =~= table_view::<SR>(before).drop_first());
                assert(table_view::<SR>(before)[0] == (core@, c@));
                assert(all.skip(all.len() - rest@.len()) =~= all.skip(all.len() - before.len()).drop_first());
            }
            if c.equals(&zero_value) {
            } else if c.equals(&one_value) {
                proof {
                    Self::lemma_terms_push(out_before, core);
                }
                out.push(core);
            } else {
                let ghost core_view = core@;
                let mut factors: Vec<Self> = Vec::new();
                factors.push(SemiRingExpr::Const(c));
                proof {
                    Self::lemma_terms(factors@);
                    assert(Self::terms(factors@) =~= seq![SRTerm::<SValue<SR>>::Const(c@)]);
                }
                let ghost first = factors@;
                match core {
                    SemiRingExpr::Mul(inner) => {
                        let mut inner = inner;
                        let ghost pieces = inner@;
                        factors.append(&mut inner);
                        proof {
                            Self::lemma_terms_concat(first, pieces);
                            assert(core_view == SRTerm::<SValue<SR>>::Mul(Self::terms(pieces)));
                            assert(Self::terms(factors@) =~= seq![SRTerm::<SValue<SR>>::Const(c@)]
                                + Self::terms(pieces));
                        }
                    },
                    other => {
                        proof {
                            Self::lemma_terms_push(first, other);
                        }
                        factors.push(other);
                        proof {
                            assert(!(core_view is Mul));
                            assert(Self::terms(factors@) =~= seq![SRTerm::<SValue<SR>>::Const(c@)]
                                + seq![core_view]);
                        }
                    },
                }
                let product = SemiRingExpr::Mul(factors);
                proof {
                    assert(product@ == Self::scaled(core_view, c@));
                    Self::lemma_terms_push(out_before, product);
                }
                out.push(product);
            }
        }
        proof {
            assert(table_view::<SR>(rest@) =~= Seq::<(STerm<SR>, SValue<SR>)>::empty());
            Self::lemma_terms(out@);
        }
        if out.len() == 0 {
            SemiRingExpr::Const(zero_value)
        } else if out.len() == 1 {
            let only = out.pop().unwrap();
            proof {
                assert(Self::terms(seq![only]) =~= seq![Self::term(only)]) by {
                    Self::lemma_terms(seq![only]);
                }
            }
            only
        } else {
            SemiRingExpr::Add(out)
        }
    }

    proof fn lemma_fold_none(items: Seq<STerm<SR>>, k: int)
        requires
            0 <= k <= items.len(),
            Self::fold_factors(items.take(k)) is None,
        ensures
            Self::fold_factors(items) is None,
        decreases items.len() - k,
    {
        if k < items.len() {
            let longer = items.take(k + 1);
            assert(longer.drop_last() == items.take(k));
            Self::lemma_fold_none(items, k + 1);
        } else {
            assert(items.take(k) == items);
        }
    }

    /// Drops ones and folds adjacent constants; `None` on a zero factor.
    fn fold_factors_exec(items: Vec<Self>) -> (r: Option<Vec<Self>>)
        ensures
            match Self::fold_factors(Self::terms(items@)) {
                None => r is None,
                Some(fs) => r matches Some(v) && Self::terms(v@) == fs,
            },
    {
        let ghost all = items@;
        let zero_value = Self::zero_value();
        let one_value = Self::one_value();
        let mut rest = items;
        let mut stack: Vec<Self> = Vec::new();
        proof {
            Self::lemma_terms(all);
            assert(Self::terms(all).take(0) =~= Seq::<STerm<SR>>::empty());
            assert(rest@ =~= all.skip(0));
            assert(Self::terms(stack@) =~= Seq::<STerm<SR>>::empty());
        }
        while rest.len() > 0
            invariant
                all == items@,
                rest@.len() <= all.len(),
                rest@ == all.skip(all.len() - rest@.len()),
                zero_value@ == zero::<SR>(),
                one_value@ == one::<SR>(),
                Self::terms(all).len() == all.len(),
                forall|j: int| 0 <= j < all.len() ==> #[trigger] Self::terms(all)[j] == Self::term(all[j]),
                Self::fold_factors(Self::terms(all).take(all.len() - rest@.len())) == Some(
                    Self::terms(stack@),
                ),
            decreases rest.len(),
        {
            let ghost k = all.len() - rest@.len();
            let ghost st = stack@;
            let item = rest.remove(0);
            proof {
                assert(item == all[k]);
                let prefix = Self::terms(all).take(k + 1);
                assert(prefix.drop_last() == Self::terms(all).take(k));
                assert(prefix.last() == Self::term(item));
                assert(rest@ =~= all.skip(k + 1));
                Self::lemma_terms(st);
            }
            let (is_one, is_zero) = match &item {
                SemiRingExpr::Const(c) => (c.equals(&one_value), c.equals(&zero_value)),
                _ => (false, false),
            };
            if is_one {
                proof {
                    assert(Self::term(item) == SRTerm::<SValue<SR>>::Const(one::<SR>()));
                }
            } else if is_zero {
                proof {
                    assert(Self::term(item) == SRTerm::<SValue<SR>>::Const(zero::<SR>()));
                    assert(Self::fold_factors(Self::terms(all).take(k + 1)) is None);
                    Self::lemma_fold_none(Self::terms(all), k + 1);
                }
                return None;
            } else {
                match item {
                    SemiRingExpr::Const(s) => {
                        let last_is_const = stack.len() > 0 && match &stack[stack.len() - 1] {
                            SemiRingExpr::Const(_) => true,
                            _ => false,
                        };
                        if last_is_const {
                            let top = stack.pop().unwrap();
                            proof {
                                assert(stack@ =~= st.drop_last());
                                Self::lemma_terms(stack@);
                                assert(Self::terms(stack@) =~= Self::terms(st).drop_last());
                            }
                            match top {
                                SemiRingExpr::Const(t) => {
                                    let c = Self::times_values(t, s);
                                    if c.equals(&zero_value) {
                                        proof {
                                            assert(Self::terms(st).last() == SRTerm::<SValue<SR>>::Const(t@));
                                            assert(Self::fold_factors(Self::terms(all).take(k + 1)) is None);
                                            Self::lemma_fold_none(Self::terms(all), k + 1);
                                        }
                                        return None;
                                    }
                                    if !c.equals(&one_value) {
                                        let ghost below = stack@;
                                        let folded = SemiRingExpr::Const(c);
                                        proof {
                                            Self::lemma_terms_push(below, folded);
                                        }
                                        stack.push(folded);
                                    }
                                },
                                other => {
                                    stack.push(other);
                                },
                            }
                        } else {
                            let item = SemiRingExpr::Const(s);
                            proof {
                                Self::lemma_terms_push(st, item);
                            }
                            stack.push(item);
                        }
                    },
                    other => {
                        proof {
                            Self::lemma_terms_push(st, other);
                        }
                        stack.push(other);
                    },
                }
            }
        }
        proof {
            assert(Self::terms(all).take(all.len() as int) =~= Self::terms(all));
        }
        Some(stack)
    }

    /// Whether some factor is a sum.
    fn has_sum_exec(factors: &Vec<Self>) -> (r: bool)
        ensures
            r == Self::has_sum(Self::terms(factors@)),
    {
        proof {
            Self::lemma_terms(factors@);
        }
        let mut i: usize = 0;
        while i < factors.len()
            invariant
                i <= factors.len(),
                Self::terms(factors@).len() == factors.len(),
                forall|j: int| 0 <= j < factors.len() ==> #[trigger] Self::terms(factors@)[j] == Self::term(factors@[j]),
                forall|j: int| 0 <= j < i ==> !(Self::terms(factors@)[j] is Add),
            decreases factors.len() - i,
        {
            let found = match &factors[i] {
                SemiRingExpr::Add(_) => true,
                _ => false,
            };
            if found {
                proof {
                    assert(Self::terms(factors@)[i as int] is Add);
                }
                return true;
            }
            i = i + 1;
        }
        false
    }

    /// A copy of a list of expressions.
    fn duplicate_all(items: &Vec<Self>) -> (r: Vec<Self>)
        ensures
            Self::terms(r@) == Self::terms(items@),
    {
        let mut out: Vec<Self> = Vec::new();
        let mut i: usize = 0;
        while i < items.len()
            invariant
                i <= items.len(),
                Self::terms(out@) == Self::terms(items@.take(i as int)),
            decreases items.len() - i,
        {
            let c = items[i].duplicate();
            proof {
                Self::lemma_terms_push(out@, c);
                Self::lemma_terms_push(items@.take(i as int), items@[i as int]);
                assert(items@.take(i + 1) =~= items@.take(i as int).push(items@[i as int]));
            }
            out.push(c);
            i = i + 1;
        }
        proof {
            assert(items@.take(items.len() as int) =~= items@);
        }
        out
    }

    /// A product with a sum factor, distributed into a sum of products.
    fn distribute_exec(factors: Vec<Self>) -> (r: Self)
        ensures
            r@ == Self::distribute(Self::terms(factors@)),
    {
        let ghost all = factors@;
        let mut products: Vec<Vec<Self>> = Vec::new();
        products.push(Vec::new());
        let ghost pview = |ps: Seq<Vec<Self>>| ps.map_values(|p: Vec<Self>| Self::terms(p@));
        proof {
            Self::lemma_terms(all);
            assert(Self::terms(all).take(0) =~= Seq::<STerm<SR>>::empty());
            assert(pview(products@) =~= seq![Seq::<STerm<SR>>::empty()]);
        }
        let mut rest = factors;
        proof {
            assert(rest@ =~= all.skip(0));
        }
        while rest.len() > 0
            invariant
                rest@.len() <= all.len(),
                rest@ == all.skip(all.len() - rest@.len()),
                Self::terms(all).len() == all.len(),
                forall|j: int| 0 <= j < all.len() ==> #[trigger] Self::terms(all)[j] == Self::term(all[j]),
                pview == (|ps: Seq<Vec<Self>>| ps.map_values(|p: Vec<Self>| Self::terms(p@))),
                pview(products@) == Self::products_of(Self::terms(all).take(all.len() - rest@.len())),
            decreases rest.len(),
        {
            let ghost k = all.len() - rest@.len();
            let factor = rest.remove(0);
            proof {
                assert(factor == all[k]);
                let prefix = Self::terms(all).take(k + 1);
                assert(prefix.drop_last() == Self::terms(all).take(k));
                assert(prefix.last() == Self::term(factor));
                assert(rest@ =~= all.skip(k + 1));
            }
            let ghost old_products = pview(products@);
            match factor {
                SemiRingExpr::Add(terms) => {
                    let ghost tv = Self::terms(terms@);
                    proof {
                        Self::lemma_terms(terms@);
                        assert(old_products.skip(0) =~= old_products);
                    }
                    let mut next: Vec<Vec<Self>> = Vec::new();
                    let mut pending = products;
                    proof {
                        assert(pview(next@) + Self::spread(pview(pending@), tv) =~= Self::spread(
                            old_products,
                            tv,
                        ));
                    }
                    while pending.len() > 0
                        invariant
                            pview == (|ps: Seq<Vec<Self>>| ps.map_values(|p: Vec<Self>| Self::terms(p@))),
                            tv == Self::terms(terms@),
                            tv.len() == terms.len(),
                            forall|j: int| 0 <= j < terms.len() ==> #[trigger] tv[j] == Self::term(terms@[j]),
                            pview(next@) + Self::spread(pview(pending@), tv) == Self::spread(
                                old_products,
                                tv,
                            ),
                        decreases pending.len(),
                    {
                        let ghost pending_before = pending@;
                        let ghost next_before = pview(next@);
                        let p = pending.remove(0);
                        let ghost pv = Self::terms(p@);
                        proof {
                            assert(pview(pending_before)[0] == pv);
                            assert(pview(pending@) =~= pview(pending_before).drop_first());
                        }
                        let mut j: usize = 0;
                        while j < terms.len()
                            invariant
                                pview == (|ps: Seq<Vec<Self>>| ps.map_values(|p: Vec<Self>| Self::terms(p@))),
                                j <= terms.len(),
                                tv == Self::terms(terms@),
                                tv.len() == terms.len(),
                                forall|i: int| 0 <= i < terms.len() ==> #[trigger] tv[i] == Self::term(terms@[i]),
                                pv == Self::terms(p@),
                                pview(next@) == next_before + tv.take(j as int).map_values(
                                    |t: STerm<SR>| pv.push(t),
                                ),
                            decreases terms.len() - j,
                        {
                            let mut q = Self::duplicate_all(&p);
                            let t = terms[j].duplicate();
                            let ghost q_before = q@;
                            q.push(t);
                            proof {
                                Self::lemma_terms_push(q_before, t);
                            }
                            let ghost nb = next@;
                            next.push(q);
                            proof {
                                assert(pview(next@) =~= pview(nb).push(pv.push(tv[j as int])));
                                assert(tv.take(j + 1).map_values(|t: STerm<SR>| pv.push(t)) =~= tv.take(
                                    j as int,
                                ).map_values(|t: STerm<SR>| pv.push(t)).push(pv.push(tv[j as int])));
                            }
                            j = j + 1;
                        }
                        proof {
                            assert(tv.take(terms.len() as int) =~= tv);
                            assert(Self::spread(pview(pending_before), tv) == tv.map_values(
                                |t: STerm<SR>| pview(pending_before)[0].push(t),
                            ) + Self::spread(pview(pending_before).drop_first(), tv));
                            assert(pview(next@) + Self::spread(pview(pending@), tv) =~= next_before
                                + Self::spread(pview(pending_before), tv));
                        }
                    }
                    proof {
                        assert(pview(pending@) =~= Seq::<Seq<STerm<SR>>>::empty());
                        assert(pview(next@) =~= Self::spread(old_products, tv));
                    }
                    products = next;
                },
                other => {
                    let ghost fv = other@;
                    let mut next: Vec<Vec<Self>> = Vec::new();
                    let mut i: usize = 0;
                    while i < products.len()
                        invariant
                            pview == (|ps: Seq<Vec<Self>>| ps.map_values(|p: Vec<Self>| Self::terms(p@))),
                            i <= products.len(),
                            old_products == pview(products@),
                            fv == other@,
                            pview(next@) == old_products.take(i as int).map_values(
                                |p: Seq<STerm<SR>>| p.push(fv),
                            ),
                        decreases products.len() - i,
                    {
                        let mut q = Self::duplicate_all(&products[i]);
                        let f = other.duplicate();
                        let ghost q_before = q@;
                        q.push(f);
                        proof {
                            Self::lemma_terms_push(q_before, f);
                        }
                        let ghost nb = next@;
                        next.push(q);
                        proof {
                            assert(old_products[i as int] == Self::terms(products@[i as int]@));
                            assert(pview(next@) =~= pview(nb).push(old_products[i as int].push(fv)));
                            assert(old_products.take(i + 1).map_values(|p: Seq<STerm<SR>>| p.push(fv))
                                =~= old_products.take(i as int).map_values(
                                |p: Seq<STerm<SR>>| p.push(fv),
                            ).push(old_products[i as int].push(fv)));
                        }
                        i = i + 1;
                    }
                    proof {
                        assert(old_products.take(products.len() as int) =~= old_products);
                    }
                    products = next;
                },
            }
        }
        proof {
            assert(Self::terms(all).take(all.len() as int) =~= Self::terms(all));
        }
        let ghost final_products = pview(products@);
        let mut sum: Vec<Self> = Vec::new();
        let mut i: usize = 0;
        let mut pending = products;
        let ghost all_products = pending@;
        proof {
            assert(pending@ =~= all_products.skip(0));
        }
        while pending.len() > 0
            invariant
                pview == (|ps: Seq<Vec<Self>>| ps.map_values(|p: Vec<Self>| Self::terms(p@))),
                final_products == pview(all_products),
                pending@.len() <= all_products.len(),
                pending@ == all_products.skip(all_products.len() - pending@.len()),
                Self::terms(sum@) == final_products.take(all_products.len() - pending@.len()).map_values(
                    |p: Seq<STerm<SR>>| SRTerm::<SValue<SR>>::Mul(p),
                ),
            decreases pending.len(),
        {
            let ghost k = all_products.len() - pending@.len();
            let p = pending.remove(0);
            proof {
                assert(p == all_products[k]);
                assert(pending@ =~= all_products.skip(k + 1));
            }
            let product = SemiRingExpr::Mul(p);
            let ghost before = sum@;
            proof {
                Self::lemma_terms_push(before, product);
                assert(final_products[k] == Self::terms(p@));
                assert(final_products.take(k + 1).map_values(|p: Seq<STerm<SR>>| SRTerm::<SValue<SR>>::Mul(p))
                    =~= final_products.take(k).map_values(
                    |p: Seq<STerm<SR>>| SRTerm::<SValue<SR>>::Mul(p),
                ).push(SRTerm::<SValue<SR>>::Mul(final_products[k])));
            }
            sum.push(product);
        }
        proof {
            assert(final_products.take(all_products.len() as int) =~= final_products);
        }
        SemiRingExpr::Add(sum)
    }
}

impl<SR: SemiRing> SemiRingExpr<SR> {
    /// A product of the given factors.
    fn build_product_exec(factors: Vec<Self>) -> (r: Self)
        ensures
            r@ == Self::build_product(Self::terms(factors@)),
    {
        proof {
            Self::lemma_terms(factors@);
        }
        if factors.len() == 0 {
            SemiRingExpr::Const(Self::one_value())
        } else if factors.len() == 1 {
            let mut factors = factors;
            factors.pop().unwrap()
        } else {
            SemiRingExpr::Mul(factors)
        }
    }

    /// `c * c * ... * c` with `n` factors.
    fn power_exec(c: &SR::Domain, n: usize) -> (r: SR::Domain)
        ensures
            r@ == Self::power(c@, n as nat),
    {
        let mut acc = c.duplicate();
        let mut k: usize = 1;
        while k < n
            invariant
                1 <= k,
                k <= n || k == 1,
                acc@ == Self::power(c@, k as nat),
            decreases n - k,
        {
            acc = Self::times_values(acc, c.duplicate());
            k = k + 1;
        }
        proof {
            if n == 0 {
                assert(Self::power(c@, 1) == c@);
                assert(Self::power(c@, 0) == c@);
            }
        }
        acc
    }

    /// `base^n` with `base` in normal form.
    fn reduce_pow_exec(base: Self, n: usize) -> (r: Self)
        ensures
            r@ == Self::reduce_pow(base@, n as nat),
    {
        match base {
            SemiRingExpr::Const(c) => SemiRingExpr::Const(Self::power_exec(&c, n)),
            b => if n == 1 {
                b
            } else {
                match b {
                    SemiRingExpr::Pow { base: inner, exponent: m } => match m.checked_mul(n) {
                        Some(mn) => SemiRingExpr::Pow { base: inner, exponent: mn },
                        None => SemiRingExpr::Pow {
                            base: Box::new(SemiRingExpr::Pow { base: inner, exponent: m }),
                            exponent: n,
                        },
                    },
                    other => SemiRingExpr::Pow { base: Box::new(other), exponent: n },
                }
            },
        }
    }

    /// The structural order of two expressions.
    fn structural_order_exec(a: &Self, b: &Self) -> (r: Cmp)
        ensures
            r == Self::structural_order(a@, b@),
        decreases a, 1int,
    {
        match (a, b) {
            (SemiRingExpr::Const(_), SemiRingExpr::Const(_)) => Cmp::Equal,
            (SemiRingExpr::Symbol(s), SemiRingExpr::Symbol(o)) => s.compare(o),
            (
                SemiRingExpr::Pow { base: sb, exponent: se },
                SemiRingExpr::Pow { base: ob, exponent: oe },
            ) => match Self::structural_order_exec(sb, ob) {
                Cmp::Equal => if *se < *oe {
                    Cmp::Less
                } else if *se > *oe {
                    Cmp::Greater
                } else {
                    Cmp::Equal
                },
                c => c,
            },
            (SemiRingExpr::Mul(s), SemiRingExpr::Mul(o)) => Self::structural_order_lists_exec(
                s,
                o,
                Ghost(*a),
            ),
            (SemiRingExpr::Add(s), SemiRingExpr::Add(o)) => Self::structural_order_lists_exec(
                s,
                o,
                Ghost(*a),
            ),
            _ => {
                let x = Self::rank_exec(a);
                let y = Self::rank_exec(b);
                if x < y {
                    Cmp::Less
                } else if x > y {
                    Cmp::Greater
                } else {
                    Cmp::Equal
                }
            },
        }
    }

    fn rank_exec(a: &Self) -> (r: u8)
        ensures
            r == Self::rank(a@),
    {
        match a {
            SemiRingExpr::Const(_) => 0,
            SemiRingExpr::Symbol(_) => 1,
            SemiRingExpr::Pow { .. } => 2,
            SemiRingExpr::Mul(_) => 3,
            SemiRingExpr::Add(_) => 4,
        }
    }

    /// The structural order of the children `s` of `whole` and the list `o`.
    fn structural_order_lists_exec(s: &Vec<Self>, o: &Vec<Self>, Ghost(whole): Ghost<Self>) -> (r: Cmp)
        requires
            whole == SemiRingExpr::<SR>::Add(*s) || whole == SemiRingExpr::<SR>::Mul(*s),
        ensures
            r == Self::structural_order_lists(Self::terms(s@), Self::terms(o@)),
        decreases whole, 0int,
    {
        let ghost ts = Self::terms(s@);
        let ghost to = Self::terms(o@);
        proof {
            Self::lemma_terms(s@);
            Self::lemma_terms(o@);
            assert(ts.skip(0) =~= ts);
            assert(to.skip(0) =~= to);
        }
        let mut i: usize = 0;
        while i < s.len() && i < o.len()
            invariant
                whole == SemiRingExpr::<SR>::Add(*s) || whole == SemiRingExpr::<SR>::Mul(*s),
                ts == Self::terms(s@),
                to == Self::terms(o@),
                ts.len() == s.len(),
                to.len() == o.len(),
                forall|j: int| 0 <= j < s.len() ==> #[trigger] ts[j] == Self::term(s@[j]),
                forall|j: int| 0 <= j < o.len() ==> #[trigger] to[j] == Self::term(o@[j]),
                i <= s.len(),
                i <= o.len(),
                Self::structural_order_lists(ts, to) == Self::structural_order_lists(
                    ts.skip(i as int),
                    to.skip(i as int),
                ),
            decreases s.len() - i,
        {
            proof {
                if whole == SemiRingExpr::<SR>::Add(*s) {
                    assert(decreases_to!(whole => whole->Add_0));
                } else {
                    assert(decreases_to!(whole => whole->Mul_0));
                }
                assert(decreases_to!(s => s@));
                assert(decreases_to!(s@ => s@[i as int]));
                assert(ts.skip(i as int)[0] == ts[i as int]);
                assert(to.skip(i as int)[0] == to[i as int]);
                assert(ts.skip(i as int).drop_first() =~= ts.skip(i + 1));
                assert(to.skip(i as int).drop_first() =~= to.skip(i + 1));
            }
            let c = Self::structural_order_exec(&s[i], &o[i]);
            match c {
                Cmp::Equal => {},
                _ => {
                    return c;
                },
            }
            i = i + 1;
        }
        if s.len() - i < o.len() - i {
            Cmp::Less
        } else if s.len() - i > o.len() - i {
            Cmp::Greater
        } else {
            Cmp::Equal
        }
    }

    proof fn lemma_insert_at<T>(sorted: Seq<(STerm<SR>, T)>, x: (STerm<SR>, T), i: int)
        requires
            0 <= i <= sorted.len(),
            forall|j: int| i <= j < sorted.len() ==> #[trigger] Self::structural_order(sorted[j].0, x.0)
                == Cmp::Greater,
            i == 0 || Self::structural_order(sorted[i - 1].0, x.0) != Cmp::Greater,
        ensures
            Self::insert_by_term(sorted, x) == sorted.take(i).push(x) + sorted.skip(i),
        decreases sorted.len(),
    {
        if sorted.len() == 0 {
            assert(sorted.take(i).push(x) + sorted.skip(i) =~= seq![x]);
        } else if i == sorted.len() {
            assert(sorted.take(i).push(x) + sorted.skip(i) =~= sorted.push(x));
        } else {
            let rest = sorted.drop_last();
            assert forall|j: int| i <= j < rest.len() implies #[trigger] Self::structural_order(
                rest[j].0,
                x.0,
            ) == Cmp::Greater by {
                assert(rest[j] == sorted[j]);
            }
            Self::lemma_insert_at(rest, x, i);
            assert(rest.take(i).push(x) + rest.skip(i) + seq![sorted.last()] =~= sorted.take(i).push(x)
                + sorted.skip(i));
        }
    }

    /// The coefficient table stably sorted by term.
    fn sort_table_exec(coeffs: Vec<(Self, SR::Domain)>) -> (r: Vec<(Self, SR::Domain)>)
        ensures
            table_view::<SR>(r@) == Self::sort_by_term(table_view::<SR>(coeffs@)),
    {
        let ghost all = table_view::<SR>(coeffs@);
        let mut rest = coeffs;
        let mut out: Vec<(Self, SR::Domain)> = Vec::new();
        proof {
            assert(all.take(0) =~= Seq::<(STerm<SR>, SValue<SR>)>::empty());
            assert(table_view::<SR>(rest@) =~= all.skip(0));
        }
        while rest.len() > 0
            invariant
                all.len() == (all.len() - rest@.len()) + rest@.len(),
                rest@.len() <= all.len(),
                table_view::<SR>(rest@) == all.skip(all.len() - rest@.len()),
                table_view::<SR>(out@) == Self::sort_by_term(all.take(all.len() - rest@.len())),
            decreases rest.len(),
        {
            let ghost k = all.len() - rest@.len();
            let ghost sorted = table_view::<SR>(out@);
            let ghost before = rest@;
            let item = rest.remove(0);
            let ghost x = (item.0@, item.1@);
            proof {
                assert(item == before[0]);
                assert(table_view::<SR>(before)[0] == x);
                assert(all.skip(k)[0] == all[k]);
                assert(rest@ =~= before.drop_first());
                assert(table_view::<SR>(rest@) =~= table_view::<SR>(before).drop_first());
                assert(table_view::<SR>(rest@) =~= all.skip(k + 1));
                assert(x == all[k]);
                assert(all.take(k + 1).drop_last() =~= all.take(k));
            }
            let mut i = out.len();
            while i > 0
                invariant
                    i <= out.len(),
                    sorted == table_view::<SR>(out@),
                    x == (item.0@, item.1@),
                    forall|j: int| i <= j < sorted.len() ==> #[trigger] Self::structural_order(
                        sorted[j].0,
                        x.0,
                    ) == Cmp::Greater,
                ensures
                    i <= out.len(),
                    sorted == table_view::<SR>(out@),
                    forall|j: int| i <= j < sorted.len() ==> #[trigger] Self::structural_order(
                        sorted[j].0,
                        x.0,
                    ) == Cmp::Greater,
                    i == 0 || Self::structural_order(sorted[i - 1].0, x.0) != Cmp::Greater,
                decreases i,
            {
                let c = Self::structural_order_exec(&out[i - 1].0, &item.0);
                match c {
                    Cmp::Greater => {},
                    _ => {
                        break;
                    },
                }
                i = i - 1;
            }
            proof {
                Self::lemma_insert_at(sorted, x, i as int);
            }
            out.insert(i, item);
            proof {
                assert(table_view::<SR>(out@) =~= sorted.take(i as int).push(x) + sorted.skip(
                    i as int,
                ));
            }
        }
        proof {
            assert(all.take(all.len() as int) =~= all);
        }
        out
    }

    /// The table of powers, stably sorted by base.
    fn sort_powers_exec(pows: Vec<(Self, usize)>) -> (r: Vec<(Self, usize)>)
        ensures
            powers_view::<SR>(r@) == Self::sort_by_term(powers_view::<SR>(pows@)),
    {
        let ghost all = powers_view::<SR>(pows@);
        let mut rest = pows;
        let mut out: Vec<(Self, usize)> = Vec::new();
        proof {
            assert(all.take(0) =~= Seq::<(STerm<SR>, nat)>::empty());
            assert(powers_view::<SR>(rest@) =~= all.skip(0));
        }
        while rest.len() > 0
            invariant
                rest@.len() <= all.len(),
                powers_view::<SR>(rest@) == all.skip(all.len() - rest@.len()),
                powers_view::<SR>(out@) == Self::sort_by_term(all.take(all.len() - rest@.len())),
            decreases rest.len(),
        {
            let ghost k = all.len() - rest@.len();
            let ghost sorted = powers_view::<SR>(out@);
            let ghost before = rest@;
            let item = rest.remove(0);
            let ghost x = (item.0@, item.1 as nat);
            proof {
                assert(item == before[0]);
                assert(powers_view::<SR>(before)[0] == x);
                assert(all.skip(k)[0] == all[k]);
                assert(rest@ =~= before.drop_first());
                assert(powers_view::<SR>(rest@) =~= powers_view::<SR>(before).drop_first());
                assert(powers_view::<SR>(rest@) =~= all.skip(k + 1));
                assert(x == all[k]);
                assert(all.take(k + 1).drop_last() =~= all.take(k));
            }
            let mut i = out.len();
            while i > 0
                invariant
                    i <= out.len(),
                    sorted == powers_view::<SR>(out@),
                    x == (item.0@, item.1 as nat),
                    forall|j: int| i <= j < sorted.len() ==> #[trigger] Self::structural_order(
                        sorted[j].0,
                        x.0,
                    ) == Cmp::Greater,
                ensures
                    i <= out.len(),
                    sorted == powers_view::<SR>(out@),
                    forall|j: int| i <= j < sorted.len() ==> #[trigger] Self::structural_order(
                        sorted[j].0,
                        x.0,
                    ) == Cmp::Greater,
                    i == 0 || Self::structural_order(sorted[i - 1].0, x.0) != Cmp::Greater,
                decreases i,
            {
                let c = Self::structural_order_exec(&out[i - 1].0, &item.0);
                match c {
                    Cmp::Greater => {},
                    _ => {
                        break;
                    },
                }
                i = i - 1;
            }
            proof {
                Self::lemma_insert_at(sorted, x, i as int);
            }
            out.insert(i, item);
            proof {
                assert(powers_view::<SR>(out@) =~= sorted.take(i as int).push(x) + sorted.skip(
                    i as int,
                ));
            }
        }
        proof {
            assert(all.take(all.len() as int) =~= all);
        }
        out
    }

    proof fn lemma_find_base_at(pows: Seq<(STerm<SR>, nat)>, b: STerm<SR>, i: int)
        requires
            0 <= i <= pows.len(),
            forall|j: int| 0 <= j < i ==> #[trigger] pows[j].0 != b,
        ensures
            i < pows.len() && pows[i].0 == b ==> Self::find_base(pows, b) == Some(i),
            i == pows.len() ==> Self::find_base(pows, b) is None,
        decreases i,
    {
        if i > 0 {
            assert forall|j: int| 0 <= j < i - 1 implies #[trigger] pows.drop_first()[j].0 != b by {
                assert(pows.drop_first()[j] == pows[j + 1]);
            }
            Self::lemma_find_base_at(pows.drop_first(), b, i - 1);
        }
    }

    /// The position of the entry for base `b`.
    fn find_base_exec(pows: &Vec<(Self, usize)>, b: &Self) -> (r: Option<usize>)
        ensures
            r matches Some(i) ==> i < pows.len() && Self::find_base(powers_view::<SR>(pows@), b@)
                == Some(i as int),
            r is None ==> Self::find_base(powers_view::<SR>(pows@), b@) is None,
    {
        let ghost view = powers_view::<SR>(pows@);
        let mut i: usize = 0;
        while i < pows.len()
            invariant
                i <= pows.len(),
                view == powers_view::<SR>(pows@),
                forall|j: int| 0 <= j < i ==> #[trigger] view[j].0 != b@,
            decreases pows.len() - i,
        {
            if pows[i].0.equals(b) {
                proof {
                    Self::lemma_find_base_at(view, b@, i as int);
                }
                return Some(i);
            }
            i = i + 1;
        }
        proof {
            Self::lemma_find_base_at(view, b@, i as int);
        }
        None
    }

    /// A product under commutativity: constants folded into one, repeated
    /// factors collected into sorted powers.
    fn commute_exec(fs: Vec<Self>) -> (r: Self)
        requires
            Self::powers_fit(Self::non_constants(Self::terms(fs@))),
        ensures
            r@ == Self::commute(Self::terms(fs@)),
    {
        let ghost all_exprs = fs@;
        let ghost all = Self::terms(fs@);
        let mut c = Self::one_value();
        let mut others: Vec<Self> = Vec::new();
        let mut rest = fs;
        proof {
            Self::lemma_terms(all_exprs);
            assert(all.take(0) =~= Seq::<STerm<SR>>::empty());
            assert(rest@ =~= all_exprs.skip(0));
            assert(Self::terms(others@) =~= Seq::<STerm<SR>>::empty());
        }
        while rest.len() > 0
            invariant
                all == Self::terms(all_exprs),
                all.len() == all_exprs.len(),
                forall|j: int| 0 <= j < all_exprs.len() ==> #[trigger] all[j] == Self::term(all_exprs[j]),
                rest@.len() <= all_exprs.len(),
                rest@ == all_exprs.skip(all_exprs.len() - rest@.len()),
                c@ == Self::const_product(all.take(all_exprs.len() - rest@.len())),
                Self::terms(others@) == Self::non_constants(all.take(all_exprs.len() - rest@.len())),
            decreases rest.len(),
        {
            let ghost k = all_exprs.len() - rest@.len();
            let item = rest.remove(0);
            proof {
                assert(item == all_exprs[k]);
                assert(rest@ =~= all_exprs.skip(k + 1));
                let prefix = all.take(k + 1);
                assert(prefix.drop_last() =~= all.take(k));
                assert(prefix.last() == item@);
            }
            match item {
                SemiRingExpr::Const(v) => {
                    c = Self::times_values(c, v);
                },
                other => {
                    proof {
                        Self::lemma_terms_push(others@, other);
                    }
                    others.push(other);
                },
            }
        }
        proof {
            assert(all.take(all_exprs.len() as int) =~= all);
        }
        let nothing = Self::zero_value();
        if c.equals(&nothing) {
            return SemiRingExpr::Const(nothing);
        }
        let ghost ot = Self::terms(others@);
        let ghost others_all = others@;
        let mut pows: Vec<(Self, usize)> = Vec::new();
        let mut rest = others;
        proof {
            Self::lemma_terms(others_all);
            assert(ot.take(0) =~= Seq::<STerm<SR>>::empty());
            assert(rest@ =~= others_all.skip(0));
            assert(powers_view::<SR>(pows@) =~= Seq::<(STerm<SR>, nat)>::empty());
        }
        while rest.len() > 0
            invariant
                ot == Self::terms(others_all),
                ot.len() == others_all.len(),
                forall|j: int| 0 <= j < others_all.len() ==> #[trigger] ot[j] == Self::term(others_all[j]),
                Self::powers_fit(ot),
                rest@.len() <= others_all.len(),
                rest@ == others_all.skip(others_all.len() - rest@.len()),
                powers_view::<SR>(pows@) == Self::collect_powers(ot.take(others_all.len() - rest@.len())),
            decreases rest.len(),
        {
            let ghost k = others_all.len() - rest@.len();
            let ghost table = powers_view::<SR>(pows@);
            let item = rest.remove(0);
            proof {
                assert(item == others_all[k]);
                assert(rest@ =~= others_all.skip(k + 1));
                let prefix = ot.take(k + 1);
                assert(prefix.drop_last() =~= ot.take(k));
                assert(prefix.last() == item@);
            }
            let (b, e) = match item {
                SemiRingExpr::Pow { base, exponent } => (*base, exponent),
                other => (other, 1usize),
            };
            proof {
                assert(Self::base_and_exponent(item@) == (b@, e as nat));
            }
            match Self::find_base_exec(&pows, &b) {
                Some(i) => {
                    proof {
                        let next = Self::collect_powers(ot.take(k + 1));
                        assert(next == table.update(i as int, (b@, (table[i as int].1 + e) as nat)));
                        assert(next[i as int].1 <= usize::MAX);
                    }
                    let sum = pows[i].1 + e;
                    let ghost entry = (b@, sum as nat);
                    pows.set(i, (b, sum));
                    proof {
                        assert(powers_view::<SR>(pows@) =~= table.update(i as int, entry));
                    }
                },
                None => {
                    let ghost entry = (b@, e as nat);
                    pows.push((b, e));
                    proof {
                        assert(powers_view::<SR>(pows@) =~= table.push(entry));
                    }
                },
            }
        }
        proof {
            assert(ot.take(others_all.len() as int) =~= ot);
        }
        let sorted = Self::sort_powers_exec(pows);
        let ghost sorted_view = powers_view::<SR>(sorted@);
        let unit = Self::one_value();
        let mut out: Vec<Self> = Vec::new();
        let lead = !c.equals(&unit);
        let ghost c_view = c@;
        if lead {
            out.push(SemiRingExpr::Const(c));
        }
        let ghost start = Self::terms(out@);
        proof {
            Self::lemma_terms(out@);
            if lead {
                assert(start =~= seq![SRTerm::Const(c_view)]);
            } else {
                assert(start =~= Seq::<STerm<SR>>::empty());
            }
        }
        let mut rest = sorted;
        let ghost sorted_all = rest@;
        proof {
            assert(rest@ =~= sorted_all.skip(0));
            assert(start + sorted_view.take(0).map_values(|p: (STerm<SR>, nat)| Self::power_factor(p))
                =~= start);
        }
        while rest.len() > 0
            invariant
                sorted_view == powers_view::<SR>(sorted_all),
                rest@.len() <= sorted_all.len(),
                rest@ == sorted_all.skip(sorted_all.len() - rest@.len()),
                Self::terms(out@) == start + sorted_view.take(sorted_all.len() - rest@.len()).map_values(
                    |p: (STerm<SR>, nat)| Self::power_factor(p),
                ),
            decreases rest.len(),
        {
            let ghost k = sorted_all.len() - rest@.len();
            let (b, e) = rest.remove(0);
            proof {
                assert((b, e) == sorted_all[k]);
                assert(rest@ =~= sorted_all.skip(k + 1));
                assert(sorted_view[k] == (b@, e as nat));
            }
            let f = if e == 1 {
                b
            } else {
                SemiRingExpr::Pow { base: Box::new(b), exponent: e }
            };
            proof {
                assert(f@ == Self::power_factor(sorted_view[k]));
                Self::lemma_terms_push(out@, f);
                assert(sorted_view.take(k + 1).map_values(|p: (STerm<SR>, nat)| Self::power_factor(p))
                    =~= sorted_view.take(k).map_values(|p: (STerm<SR>, nat)| Self::power_factor(p)).push(
                    Self::power_factor(sorted_view[k]),
                ));
            }
            out.push(f);
        }
        proof {
            assert(sorted_view.take(sorted_all.len() as int) =~= sorted_view);
        }
        Self::build_product_exec(out)
    }

    /// Without commutativity no exponents are collected, so every term fits.
    pub proof fn lemma_fits_plain(t: STerm<SR>, budget: nat)
        ensures
            Self::fits(t, budget, false),
        decreases budget, t, 1int,
    {
        match t {
            SRTerm::Add(es) => Self::lemma_all_fit_plain(es, budget),
            SRTerm::Mul(es) => {
                Self::lemma_all_fit_plain(es, budget);
                match Self::fold_factors(Self::flatten_products(Self::norms(es, budget, false))) {
                    None => {},
                    Some(fs) => if Self::has_sum(fs) && budget > 0 {
                        Self::lemma_fits_plain(Self::distribute(fs), (budget - 1) as nat);
                    },
                }
            },
            SRTerm::Pow(b, _) => Self::lemma_fits_plain(*b, budget),
            _ => {},
        }
    }

    pub proof fn lemma_all_fit_plain(s: Seq<STerm<SR>>, budget: nat)
        ensures
            Self::all_fit(s, budget, false),
        decreases budget, s, 0int,
    {
        if s.len() > 0 {
            Self::lemma_fits_plain(s[0], budget);
            Self::lemma_all_fit_plain(s.drop_first(), budget);
        }
    }

    /// The normal form with distribution allowed `budget` times along a
    /// path, under commutativity of multiplication when `comm`.
    fn normalized(self, budget: u8, comm: bool) -> (r: Self)
        requires
            Self::fits(self@, budget as nat, comm),
        ensures
            r@ == Self::norm(self@, budget as nat, comm),
        decreases budget, self,
    {
        let ghost whole = self;
        match self {
            SemiRingExpr::Pow { base, exponent } => {
                let b = Self::normalized(*base, budget, comm);
                Self::reduce_pow_exec(b, exponent)
            },
            SemiRingExpr::Add(exprs) => {
                let done = Self::normalize_each(exprs, budget, comm, Ghost(whole));
                let flat = Self::flatten_sums_exec(done);
                let (acc, coeffs) = Self::collect_terms_exec(flat);
                if comm {
                    let sorted = Self::sort_table_exec(coeffs);
                    Self::build_sum_exec(acc, sorted)
                } else {
                    Self::build_sum_exec(acc, coeffs)
                }
            },
            SemiRingExpr::Mul(exprs) => {
                let done = Self::normalize_each(exprs, budget, comm, Ghost(whole));
                let flat = Self::flatten_products_exec(done);
                match Self::fold_factors_exec(flat) {
                    None => SemiRingExpr::Const(Self::zero_value()),
                    Some(factors) => {
                        if budget > 0 && Self::has_sum_exec(&factors) {
                            let sum = Self::distribute_exec(factors);
                            Self::normalized(sum, budget - 1, comm)
                        } else if comm {
                            Self::commute_exec(factors)
                        } else {
                            Self::build_product_exec(factors)
                        }
                    },
                }
            },
            other => other,
        }
    }

    /// The normal forms of the children `exprs` of `whole`.
    fn normalize_each(exprs: Vec<Self>, budget: u8, comm: bool, Ghost(whole): Ghost<Self>) -> (r: Vec<Self>)
        requires
            whole == SemiRingExpr::<SR>::Add(exprs) || whole == SemiRingExpr::<SR>::Mul(exprs),
            Self::all_fit(Self::terms(exprs@), budget as nat, comm),
        ensures
            Self::terms(r@) == Self::norms(Self::terms(exprs@), budget as nat, comm),
        decreases budget, whole, 0int,
    {
        let ghost orig = exprs;
        let mut rest = exprs;
        let mut done: Vec<Self> = Vec::new();
        proof {
            assert(Self::terms(done@) =~= Seq::<STerm<SR>>::empty());
        }
        while rest.len() > 0
            invariant
                whole == SemiRingExpr::<SR>::Add(orig) || whole == SemiRingExpr::<SR>::Mul(orig),
                rest@.len() <= orig@.len(),
                forall|j: int| 0 <= j < rest@.len() ==> rest@[j] == orig@[orig@.len() - rest@.len() + j],
                Self::all_fit(Self::terms(rest@), budget as nat, comm),
                Self::terms(done@) + Self::norms(Self::terms(rest@), budget as nat, comm)
                    == Self::norms(Self::terms(orig@), budget as nat, comm),
            decreases rest.len(),
        {
            let ghost before = rest@;
            let ghost done_before = done@;
            let item = rest.remove(0);
            proof {
                let k = orig@.len() - before.len();
                assert(item == orig@[k]);
                if whole == SemiRingExpr::<SR>::Add(orig) {
                    assert(decreases_to!(whole => whole->Add_0));
                } else {
                    assert(decreases_to!(whole => whole->Mul_0));
                }
                assert(decreases_to!(orig => orig@));
                assert(decreases_to!(orig@ => orig@[k]));
                assert(decreases_to!(whole => item));
                assert(rest@ =~= before.drop_first());
                let tb = Self::terms(before);
                assert(tb == seq![Self::term(item)] + Self::terms(rest@));
                assert(tb[0] == Self::term(item));
                assert(tb.drop_first() =~= Self::terms(rest@));
            }
            let n = Self::normalized(item, budget, comm);
            proof {
                Self::lemma_terms_push(done_before, n);
                assert(Self::terms(done@.push(n)) + Self::norms(Self::terms(rest@), budget as nat, comm)
                    =~= Self::terms(done_before) + Self::norms(Self::terms(before), budget as nat, comm));
            }
            done.push(n);
        }
        proof {
            assert(Self::terms(done@) + Self::norms(Self::terms(rest@), budget as nat, comm)
                =~= Self::terms(done@));
        }
        done
    }

    /// The normal form under the semi-ring laws.
    pub open spec fn normal_form(t: STerm<SR>) -> STerm<SR> {
        Self::norm(t, 1, false)
    }

    /// The normal form under the semi-ring laws and commutativity of
    /// multiplication.
    pub open spec fn commutative_normal_form(t: STerm<SR>) -> STerm<SR> {
        Self::norm(t, 1, true)
    }

    /// Normalizes in place using the semi-ring laws only: sums collect like
    /// terms in first-appearance order, products keep factor order and
    /// distribute over sums, powers fold.
    pub fn normalize(&mut self)
        ensures
            final(self)@ == Self::normal_form(old(self)@),
    {
        let mut e = SemiRingExpr::Add(Vec::new());
        std::mem::swap(self, &mut e);
        proof {
            Self::lemma_fits_plain(e@, 1);
        }
        *self = e.normalized(1, false);
    }

    /// Normalizes in place assuming also that multiplication commutes: as
    /// [`Self::normalize`], and products fold all their constants into one
    /// leading constant and collect repeated factors into powers, sorted,
    /// as sums sort their terms. Collected exponents must fit a `usize`.
    pub fn normalize_commutative(&mut self)
        requires
            Self::fits(old(self)@, 1, true),
        ensures
            final(self)@ == Self::commutative_normal_form(old(self)@),
    {
        let mut e = SemiRingExpr::Add(Vec::new());
        std::mem::swap(self, &mut e);
        *self = e.normalized(1, true);
    }

    /// Simplifies using the semi-ring laws: `Add` flattens, folds all
    /// constants into one leading constant, drops zeros and collects equal
    /// terms into left coefficients (`x + x -> 2 * x`); `Mul` flattens, folds
    /// adjacent constants, drops ones, annihilates on a zero factor and
    /// distributes over `Add` factors; `Pow` folds constant bases and
    /// collapses exponent 1 and nested powers.
    pub fn simplify(self) -> (r: Self)
        ensures
            r@ == Self::normal_form(self@),
    {
        proof {
            Self::lemma_fits_plain(self@, 1);
        }
        self.normalized(1, false)
    }
}

/// Canonicalizes [`SemiRingExpr`]s using the semi-ring laws.
pub struct SemiRingRewriter<SR> {
    marker: std::marker::PhantomData<SR>,
}

impl<SR: SemiRing> SemiRingRewriter<SR> {
    pub fn new() -> (r: Self) {
        SemiRingRewriter { marker: std::marker::PhantomData }
    }

    /// Rewrites `expr` into its normal form.
    pub fn rewrite_expr(&self, expr: &mut SemiRingExpr<SR>)
        ensures
            final(expr)@ == SemiRingExpr::<SR>::normal_form(old(expr)@),
    {
        expr.normalize();
    }

    /// The normal form of `expr`.
    pub fn rewrited_expr(&self, expr: SemiRingExpr<SR>) -> (r: SemiRingExpr<SR>)
        ensures
            r@ == SemiRingExpr::<SR>::normal_form(expr@),
    {
        expr.simplify()
    }
}

impl<SR: SemiRing> SemiRingExpr<SR> {
    /// The names of the symbols that occur in a term.
    pub open spec fn symbols_in(t: STerm<SR>) -> Set<Seq<char>>
        decreases t,
    {
        match t {
            SRTerm::Const(_) => Set::empty(),
            SRTerm::Symbol(s) => set![s],
            SRTerm::Add(xs) => Self::symbols_in_list(xs),
            SRTerm::Mul(xs) => Self::symbols_in_list(xs),
            SRTerm::Pow(x, _) => Self::symbols_in(*x),
        }
    }

    /// The names of the symbols that occur in a list of terms.
    pub open spec fn symbols_in_list(xs: Seq<STerm<SR>>) -> Set<Seq<char>>
        decreases xs,
    {
        if xs.len() == 0 {
            Set::empty()
        } else {
            Self::symbols_in(xs[0]).union(Self::symbols_in_list(xs.drop_first()))
        }
    }

    /// `t` with every occurrence of the symbol `name` replaced by `e`; the
    /// copies of `e` are not searched again.
    pub open spec fn substitution(t: STerm<SR>, name: Seq<char>, e: STerm<SR>) -> STerm<SR>
        decreases t,
    {
        match t {
            SRTerm::Const(_) => t,
            SRTerm::Symbol(s) => if s == name {
                e
            } else {
                t
            },
            SRTerm::Add(xs) => SRTerm::Add(Self::substitutions(xs, name, e)),
            SRTerm::Mul(xs) => SRTerm::Mul(Self::substitutions(xs, name, e)),
            SRTerm::Pow(x, k) => SRTerm::Pow(Box::new(Self::substitution(*x, name, e)), k),
        }
    }

    /// [`Self::substitution`] in each term of a list.
    pub open spec fn substitutions(xs: Seq<STerm<SR>>, name: Seq<char>, e: STerm<SR>) -> Seq<STerm<SR>>
        decreases xs,
    {
        if xs.len() == 0 {
            Seq::empty()
        } else {
            seq![Self::substitution(xs[0], name, e)] + Self::substitutions(xs.drop_first(), name, e)
        }
    }

    /// Adds the names of the symbols in `self` to `seen`.
    fn collect_names(&self, seen: &mut Vec<Symbol>)
        requires
            names(old(seen)@).no_duplicates(),
        ensures
            names(final(seen)@).no_duplicates(),
            names(final(seen)@).to_set() == names(old(seen)@).to_set().union(
                Self::symbols_in(self@),
            ),
        decreases self, 1int,
    {
        let ghost before = names(seen@).to_set();
        match self {
            SemiRingExpr::Const(_) => {
                proof {
                    assert(before.union(Set::empty()) =~= before);
                }
            },
            SemiRingExpr::Symbol(s) => {
                note_name(seen, s);
                proof {
                    assert(before.insert(s@) =~= before.union(set![s@]));
                }
            },
            SemiRingExpr::Add(v) => Self::collect_list_names(v, seen, Ghost(*self)),
            SemiRingExpr::Mul(v) => Self::collect_list_names(v, seen, Ghost(*self)),
            SemiRingExpr::Pow { base, .. } => base.collect_names(seen),
        }
    }

    /// Adds the names of the symbols in the children `v` of `whole`.
    fn collect_list_names(v: &Vec<Self>, seen: &mut Vec<Symbol>, Ghost(whole): Ghost<Self>)
        requires
            whole == SemiRingExpr::<SR>::Add(*v) || whole == SemiRingExpr::<SR>::Mul(*v),
            names(old(seen)@).no_duplicates(),
        ensures
            names(final(seen)@).no_duplicates(),
            names(final(seen)@).to_set() == names(old(seen)@).to_set().union(
                Self::symbols_in_list(Self::terms(v@)),
            ),
        decreases whole, 0int,
    {
        let ghost start = names(seen@).to_set();
        let mut i: usize = 0;
        proof {
            Self::lemma_terms(v@);
            assert(Self::terms(v@).skip(0) =~= Self::terms(v@));
        }
        while i < v.len()
            invariant
                whole == SemiRingExpr::<SR>::Add(*v) || whole == SemiRingExpr::<SR>::Mul(*v),
                i <= v.len(),
                Self::terms(v@).len() == v.len(),
                forall|j: int| 0 <= j < v.len() ==> #[trigger] Self::terms(v@)[j] == Self::term(v@[j]),
                names(seen@).no_duplicates(),
                names(seen@).to_set().union(Self::symbols_in_list(Self::terms(v@).skip(i as int)))
                    == start.union(Self::symbols_in_list(Self::terms(v@))),
            decreases v.len() - i,
        {
            proof {
                if whole == SemiRingExpr::<SR>::Add(*v) {
                    assert(decreases_to!(whole => whole->Add_0));
                } else {
                    assert(decreases_to!(whole => whole->Mul_0));
                }
                assert(decreases_to!(v => v@));
                assert(decreases_to!(v@ => v@[i as int]));
            }
            let ghost mid = names(seen@).to_set();
            v[i].collect_names(seen);
            proof {
                let rest = Self::terms(v@).skip(i as int);
                assert(rest[0] == Self::term(v@[i as int]));
                assert(rest.drop_first() =~= Self::terms(v@).skip(i + 1));
                let now = names(seen@).to_set();
                let here = Self::symbols_in(v@[i as int]@);
                let later = Self::symbols_in_list(Self::terms(v@).skip(i + 1));
                assert(now.union(later) =~= mid.union(here.union(later)));
            }
            i = i + 1;
        }
        proof {
            assert(Self::terms(v@).skip(v.len() as int) =~= Seq::<STerm<SR>>::empty());
            let now = names(seen@).to_set();
            assert(now.union(Set::empty()) =~= now);
        }
    }

    /// The number of distinct symbols in the expression.
    pub fn degrees_of_freedom(&self) -> (r: usize)
        ensures
            r == Self::symbols_in(self@).len(),
    {
        let mut seen: Vec<Symbol> = Vec::new();
        proof {
            assert(names(seen@) =~= Seq::<Seq<char>>::empty());
        }
        self.collect_names(&mut seen);
        proof {
            let ns = names(seen@);
            assert(Seq::<Seq<char>>::empty().to_set() =~= Set::<Seq<char>>::empty());
            assert(Set::<Seq<char>>::empty().union(Self::symbols_in(self@)) =~= Self::symbols_in(
                self@,
            ));
            ns.unique_seq_to_set();
        }
        seen.len()
    }

    /// The expression with every occurrence of the symbol `name` replaced
    /// by a copy of `expr`.
    fn replaced(self, name: &Symbol, expr: &Self) -> (r: Self)
        ensures
            r@ == Self::substitution(self@, name@, expr@),
        decreases self,
    {
        match self {
            SemiRingExpr::Const(c) => SemiRingExpr::Const(c),
            SemiRingExpr::Symbol(s) => {
                if s.same(name) {
                    expr.duplicate()
                } else {
                    SemiRingExpr::Symbol(s)
                }
            },
            SemiRingExpr::Add(v) => {
                let ghost whole = SemiRingExpr::<SR>::Add(v);
                SemiRingExpr::Add(Self::replaced_list(v, name, expr, Ghost(whole)))
            },
            SemiRingExpr::Mul(v) => {
                let ghost whole = SemiRingExpr::<SR>::Mul(v);
                SemiRingExpr::Mul(Self::replaced_list(v, name, expr, Ghost(whole)))
            },
            SemiRingExpr::Pow { base, exponent } => SemiRingExpr::Pow {
                base: Box::new(base.replaced(name, expr)),
                exponent,
            },
        }
    }

    /// [`Self::replaced`] on each child `v` of `whole`.
    fn replaced_list(v: Vec<Self>, name: &Symbol, expr: &Self, Ghost(whole): Ghost<Self>) -> (r: Vec<Self>)
        requires
            whole == SemiRingExpr::<SR>::Add(v) || whole == SemiRingExpr::<SR>::Mul(v),
        ensures
            Self::terms(r@) == Self::substitutions(Self::terms(v@), name@, expr@),
        decreases whole, 0int,
    {
        let ghost orig = v;
        let mut rest = v;
        let mut done: Vec<Self> = Vec::new();
        proof {
            assert(Self::terms(done@) =~= Seq::<STerm<SR>>::empty());
        }
        while rest.len() > 0
            invariant
                whole == SemiRingExpr::<SR>::Add(orig) || whole == SemiRingExpr::<SR>::Mul(orig),
                rest@.len() <= orig@.len(),
                forall|j: int| 0 <= j < rest@.len() ==> rest@[j] == orig@[orig@.len() - rest@.len() + j],
                Self::terms(done@) + Self::substitutions(Self::terms(rest@), name@, expr@)
                    == Self::substitutions(Self::terms(orig@), name@, expr@),
            decreases rest.len(),
        {
            let ghost before = rest@;
            let ghost done_before = done@;
            let item = rest.remove(0);
            proof {
                let k = orig@.len() - before.len();
                assert(item == orig@[k]);
                if whole == SemiRingExpr::<SR>::Add(orig) {
                    assert(decreases_to!(whole => whole->Add_0));
                } else {
                    assert(decreases_to!(whole => whole->Mul_0));
                }
                assert(decreases_to!(orig => orig@));
                assert(decreases_to!(orig@ => orig@[k]));
                assert(decreases_to!(whole => item));
                assert(rest@ =~= before.drop_first());
                let tb = Self::terms(before);
                assert(tb == seq![Self::term(item)] + Self::terms(rest@));
                assert(tb[0] == Self::term(item));
                assert(tb.drop_first() =~= Self::terms(rest@));
            }
            let n = item.replaced(name, expr);
            proof {
                Self::lemma_terms_push(done_before, n);
                assert(Self::terms(done@.push(n)) + Self::substitutions(Self::terms(rest@), name@, expr@)
                    =~= Self::terms(done_before) + Self::substitutions(Self::terms(before), name@, expr@));
            }
            done.push(n);
        }
        proof {
            assert(Self::terms(done@) + Self::substitutions(Self::terms(rest@), name@, expr@)
                =~= Self::terms(done@));
        }
        done
    }

    /// Replaces every occurrence of the symbol `sym` by a copy of `expr`.
    /// The copies are not searched again.
    pub fn substitute(&mut self, sym: Symbol, expr: &Self)
        ensures
            final(self)@ == Self::substitution(old(self)@, sym@, expr@),
    {
        let mut e = SemiRingExpr::Add(Vec::new());
        std::mem::swap(self, &mut e);
        *self = e.replaced(&sym, expr);
    }

    /// The expression with every occurrence of the symbol `sym` replaced by
    /// a copy of `expr`.
    pub fn substituted(self, sym: Symbol, expr: &Self) -> (r: Self)
        ensures
            r@ == Self::substitution(self@, sym@, expr@),
    {
        self.replaced(&sym, expr)
    }
}

} // verus!
