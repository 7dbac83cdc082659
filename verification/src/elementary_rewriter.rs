//! The canonical form of elementary expressions.
//!
//! An expression is expanded into a list of monomials
//! `coeff * atom_1^e_1 * ... * atom_n^e_n` by linearity, the distributive law,
//! integer powers, folding of the elementary functions at their boundary
//! values, cancellation of `exp` against `log`, and symbolic
//! differentiation. The list is then made canonical: the factors of each
//! monomial are sorted and like factors collected, the monomials are sorted
//! and like monomials collected, and what vanishes is dropped.
use vstd::prelude::*;

use crate::elementary::{ETerm, ETermOf, EValue, Elementary, ElementaryExpr};
use crate::op::AlgebraicSet;
use crate::ring::{one, plus, times, zero, Ring, SemiRing};
use crate::structure::Field;
use crate::symbol::{compare_chars, compare_ints, Cmp, Symbol};

verus! {

/// A factor of a monomial: a symbol, an elementary function of an
/// expression in canonical form, or a canonical sum of several monomials,
/// which only stands to a negative power (a field has no law for
/// `(a + b)^-1`).
pub enum EAtom<V> {
    Symbol(Seq<char>),
    Fn(Elementary, ETerm<V>),
    Sum(ETerm<V>),
}

/// `coeff * atom_1^e_1 * ... * atom_n^e_n`.
pub struct Monomial<V> {
    pub coeff: V,
    pub factors: Seq<(EAtom<V>, int)>,
}

/// A monomial over the field `F`.
pub type EMono<F> = Monomial<EValue<F>>;

/// A factor with its exponent, over the field `F`.
pub type EFactor<F> = (EAtom<EValue<F>>, int);

/// Whether `n` is a value of `isize`.
pub open spec fn fits_isize(n: int) -> bool {
    isize::MIN <= n <= isize::MAX
}

/// The position of an elementary function in the order of their kinds.
pub open spec fn kind_rank(k: Elementary) -> int {
    match k {
        Elementary::Exp => 0,
        Elementary::Log => 1,
        Elementary::Sin => 2,
        Elementary::Cos => 3,
    }
}

/// The position of a node kind in the structural order.
pub open spec fn node_rank<V>(t: ETerm<V>) -> int {
    match t {
        ETerm::Const(_) => 0,
        ETerm::Symbol(_) => 1,
        ETerm::Pow(_, _) => 2,
        ETerm::Fn(_, _) => 3,
        ETerm::Mul(_) => 4,
        ETerm::Add(_) => 5,
        ETerm::Neg(_) => 6,
        ETerm::D(_, _) => 7,
    }
}

/// The structural order of expressions: by node kind, then symbols by name,
/// powers by base then exponent, functions by kind then argument, sums and
/// products entry by entry then by length, derivatives by variable then
/// operand. It never compares field elements: constants tie.
pub open spec fn expr_order<V>(a: ETerm<V>, b: ETerm<V>) -> Cmp
    decreases a,
{
    match (a, b) {
        (ETerm::Const(_), ETerm::Const(_)) => Cmp::Equal,
        (ETerm::Symbol(s), ETerm::Symbol(o)) => compare_chars(s, o),
        (ETerm::Pow(sb, se), ETerm::Pow(ob, oe)) => match expr_order(*sb, *ob) {
            Cmp::Equal => compare_ints(se, oe),
            c => c,
        },
        (ETerm::Fn(sk, sa), ETerm::Fn(ok, oa)) => match compare_ints(kind_rank(sk), kind_rank(ok)) {
            Cmp::Equal => expr_order(*sa, *oa),
            c => c,
        },
        (ETerm::Mul(s), ETerm::Mul(o)) => expr_order_lists(s, o),
        (ETerm::Add(s), ETerm::Add(o)) => expr_order_lists(s, o),
        (ETerm::Neg(s), ETerm::Neg(o)) => expr_order(*s, *o),
        (ETerm::D(sw, si), ETerm::D(ow, oi)) => match compare_chars(sw, ow) {
            Cmp::Equal => expr_order(*si, *oi),
            c => c,
        },
        _ => compare_ints(node_rank(a), node_rank(b)),
    }
}

/// Lists in the structural order: the first entry that differs decides,
/// then the length.
pub open spec fn expr_order_lists<V>(s: Seq<ETerm<V>>, o: Seq<ETerm<V>>) -> Cmp
    decreases s,
{
    if s.len() == 0 || o.len() == 0 {
        compare_ints(s.len() as int, o.len() as int)
    } else {
        match expr_order(s[0], o[0]) {
            Cmp::Equal => expr_order_lists(s.drop_first(), o.drop_first()),
            c => c,
        }
    }
}

/// The position of an atom kind in the order of atoms.
pub open spec fn atom_rank<V>(a: EAtom<V>) -> int {
    match a {
        EAtom::Symbol(_) => 0,
        EAtom::Fn(_, _) => 1,
        EAtom::Sum(_) => 2,
    }
}

/// The order of atoms: symbols by name, functions by kind then argument,
/// sums structurally.
pub open spec fn atom_order<V>(a: EAtom<V>, b: EAtom<V>) -> Cmp {
    match (a, b) {
        (EAtom::Symbol(s), EAtom::Symbol(o)) => compare_chars(s, o),
        (EAtom::Fn(sk, sa), EAtom::Fn(ok, oa)) => match compare_ints(kind_rank(sk), kind_rank(ok)) {
            Cmp::Equal => expr_order(sa, oa),
            c => c,
        },
        (EAtom::Sum(s), EAtom::Sum(o)) => expr_order(s, o),
        _ => compare_ints(atom_rank(a), atom_rank(b)),
    }
}

/// The order of factor lists: the first factor that differs, by atom then
/// exponent, decides; then the length.
pub open spec fn factors_order<V>(s: Seq<(EAtom<V>, int)>, o: Seq<(EAtom<V>, int)>) -> Cmp
    decreases s.len(),
{
    if s.len() == 0 || o.len() == 0 {
        compare_ints(s.len() as int, o.len() as int)
    } else {
        match atom_order(s[0].0, o[0].0) {
            Cmp::Equal => match compare_ints(s[0].1, o[0].1) {
                Cmp::Equal => factors_order(s.drop_first(), o.drop_first()),
                c => c,
            },
            c => c,
        }
    }
}

/// `x` inserted into `sorted` after every entry that `after` does not put
/// after it.
pub open spec fn insert_stable<T>(sorted: Seq<T>, x: T, after: spec_fn(T, T) -> bool) -> Seq<T>
    decreases sorted.len(),
{
    if sorted.len() == 0 {
        seq![x]
    } else if after(sorted.last(), x) {
        insert_stable(sorted.drop_last(), x, after).push(sorted.last())
    } else {
        sorted.push(x)
    }
}

/// `s` stably sorted: an entry moves behind exactly the entries that
/// `after` puts after it, so entries that compare equal keep their order.
pub open spec fn sort_stable<T>(s: Seq<T>, after: spec_fn(T, T) -> bool) -> Seq<T>
    decreases s.len(),
{
    if s.len() == 0 {
        Seq::empty()
    } else {
        insert_stable(sort_stable(s.drop_last(), after), s.last(), after)
    }
}

/// Inserting behind the entries from `i` on, when exactly those are put
/// after `x`.
pub proof fn lemma_insert_at<T>(sorted: Seq<T>, x: T, after: spec_fn(T, T) -> bool, i: int)
    requires
        0 <= i <= sorted.len(),
        forall|j: int| i <= j < sorted.len() ==> #[trigger] after(sorted[j], x),
        i == 0 || !after(sorted[i - 1], x),
    ensures
        insert_stable(sorted, x, after) == sorted.take(i).push(x) + sorted.skip(i),
    decreases sorted.len(),
{
    if sorted.len() == 0 {
        assert(sorted.take(i).push(x) + sorted.skip(i) =~= seq![x]);
    } else if i == sorted.len() {
        assert(sorted.take(i).push(x) + sorted.skip(i) =~= sorted.push(x));
    } else {
        let rest = sorted.drop_last();
        assert forall|j: int| i <= j < rest.len() implies #[trigger] after(rest[j], x) by {
            assert(rest[j] == sorted[j]);
        }
        lemma_insert_at(rest, x, after, i);
        assert(rest.take(i).push(x) + rest.skip(i) + seq![sorted.last()] =~= sorted.take(i).push(x)
            + sorted.skip(i));
    }
}

/// Factors in the order of their atoms.
pub open spec fn factor_after<V>() -> spec_fn((EAtom<V>, int), (EAtom<V>, int)) -> bool {
    |a: (EAtom<V>, int), b: (EAtom<V>, int)| atom_order(a.0, b.0) == Cmp::Greater
}

/// Monomials in the order of their factor lists.
pub open spec fn monomial_after<V>() -> spec_fn(Monomial<V>, Monomial<V>) -> bool {
    |a: Monomial<V>, b: Monomial<V>| factors_order(a.factors, b.factors) == Cmp::Greater
}

/// A factor list with each run of equal adjacent atoms collected into one
/// factor whose exponent is the sum of theirs; `None` where a running sum
/// leaves `isize`.
pub open spec fn merge_factors<V>(fs: Seq<(EAtom<V>, int)>) -> Option<Seq<(EAtom<V>, int)>>
    decreases fs.len(),
{
    if fs.len() == 0 {
        Some(Seq::empty())
    } else {
        match merge_factors(fs.drop_last()) {
            None => None,
            Some(m) => {
                let a = fs.last().0;
                let e = fs.last().1;
                if m.len() > 0 && m.last().0 == a {
                    if fits_isize(m.last().1 + e) {
                        Some(m.drop_last().push((a, m.last().1 + e)))
                    } else {
                        None
                    }
                } else {
                    Some(m.push((a, e)))
                }
            },
        }
    }
}

/// Whether a factor has a non-zero exponent.
pub open spec fn nonzero_exponent<V>() -> spec_fn((EAtom<V>, int)) -> bool {
    |p: (EAtom<V>, int)| p.1 != 0
}

/// A monomial with its factors sorted by atom, equal atoms collected and
/// vanishing exponents dropped; `None` where an exponent leaves `isize`.
pub open spec fn canonical_monomial<V>(m: Monomial<V>) -> Option<Monomial<V>> {
    match merge_factors(sort_stable(m.factors, factor_after())) {
        Some(fs) => Some(Monomial { coeff: m.coeff, factors: fs.filter(nonzero_exponent()) }),
        None => None,
    }
}

/// Each monomial made canonical; `None` where one of them fails.
pub open spec fn canonical_each<V>(ms: Seq<Monomial<V>>) -> Option<Seq<Monomial<V>>>
    decreases ms.len(),
{
    if ms.len() == 0 {
        Some(Seq::empty())
    } else {
        match canonical_each(ms.drop_last()) {
            None => None,
            Some(done) => match canonical_monomial(ms.last()) {
                None => None,
                Some(m) => Some(done.push(m)),
            },
        }
    }
}

/// A monomial list with each run of adjacent monomials over equal factor
/// lists collected into one, whose coefficient is the sum of theirs.
pub open spec fn merge_monomials<F: Field>(ms: Seq<EMono<F>>) -> Seq<EMono<F>>
    decreases ms.len(),
{
    if ms.len() == 0 {
        Seq::empty()
    } else {
        let m = merge_monomials::<F>(ms.drop_last());
        let t = ms.last();
        if m.len() > 0 && m.last().factors == t.factors {
            m.drop_last().push(Monomial { coeff: plus::<F>(m.last().coeff, t.coeff), ..m.last() })
        } else {
            m.push(t)
        }
    }
}

/// Whether a monomial has a non-zero coefficient.
pub open spec fn nonzero_coeff<F: Field>() -> spec_fn(EMono<F>) -> bool {
    |t: EMono<F>| t.coeff != zero::<F>()
}

/// The canonical form of a monomial list: each monomial canonical, the
/// list sorted by factor lists, like monomials collected and vanishing ones
/// dropped; `None` where an exponent leaves `isize`.
pub open spec fn canonical<F: Field>(ms: Seq<EMono<F>>) -> Option<Seq<EMono<F>>> {
    match canonical_each(ms) {
        None => None,
        Some(cs) => Some(
            merge_monomials::<F>(sort_stable(cs, monomial_after())).filter(nonzero_coeff::<F>()),
        ),
    }
}

/// An atom as an expression.
pub open spec fn atom_expr<V>(a: EAtom<V>) -> ETerm<V> {
    match a {
        EAtom::Symbol(s) => ETerm::Symbol(s),
        EAtom::Fn(k, x) => ETerm::Fn(k, Box::new(x)),
        EAtom::Sum(e) => e,
    }
}

/// A factor as an expression: the atom itself to the first power, else a
/// power of it.
pub open spec fn factor_expr<V>(p: (EAtom<V>, int)) -> ETerm<V> {
    if p.1 == 1 {
        atom_expr(p.0)
    } else {
        ETerm::Pow(Box::new(atom_expr(p.0)), p.1)
    }
}

/// A monomial as an expression: the product of its factors, led by the
/// coefficient unless that is one and there are factors; a single entry
/// stands alone.
pub open spec fn monomial_expr<F: Field>(m: EMono<F>) -> ETermOf<F> {
    let fs = m.factors.map_values(|p: EFactor<F>| factor_expr(p));
    let all = if m.factors.len() == 0 || m.coeff != one::<F>() {
        seq![ETerm::Const(m.coeff)] + fs
    } else {
        fs
    };
    if all.len() == 1 {
        all[0]
    } else {
        ETerm::Mul(all)
    }
}

/// A monomial list as an expression: zero, the single monomial, or their
/// sum. It never has a negation or a derivative: a negated monomial has a
/// negative coefficient.
pub open spec fn monomials_expr<F: Field>(ms: Seq<EMono<F>>) -> ETermOf<F> {
    if ms.len() == 0 {
        ETerm::Const(zero::<F>())
    } else if ms.len() == 1 {
        monomial_expr::<F>(ms[0])
    } else {
        ETerm::Add(ms.map_values(|m: EMono<F>| monomial_expr::<F>(m)))
    }
}

/// The monomial `c`.
pub open spec fn constant<F: Field>(c: EValue<F>) -> EMono<F> {
    Monomial { coeff: c, factors: Seq::empty() }
}

/// The monomial `1`.
pub open spec fn unit<F: Field>() -> EMono<F> {
    constant::<F>(one::<F>())
}

/// `-m`.
pub open spec fn negated<F: Field>(m: EMono<F>) -> EMono<F> {
    Monomial { coeff: F::spec_negate(m.coeff), factors: m.factors }
}

/// `a * b`: coefficients multiplied, factor lists concatenated.
pub open spec fn product<F: Field>(a: EMono<F>, b: EMono<F>) -> EMono<F> {
    Monomial { coeff: times::<F>(a.coeff, b.coeff), factors: a.factors + b.factors }
}

/// Every product of a monomial of `acc` with a monomial of `rhs`: for each
/// monomial of `acc` in order, its products with those of `rhs` in order.
pub open spec fn cross<F: Field>(acc: Seq<EMono<F>>, rhs: Seq<EMono<F>>) -> Seq<EMono<F>>
    decreases acc.len(),
{
    if acc.len() == 0 {
        Seq::empty()
    } else {
        cross::<F>(acc.drop_last(), rhs) + rhs.map_values(|b: EMono<F>| product::<F>(acc.last(), b))
    }
}

/// The `n`-th power of a monomial list, multiplied out: `n` times
/// [`cross`] starting from `1`.
pub open spec fn cross_power<F: Field>(b: Seq<EMono<F>>, n: nat) -> Seq<EMono<F>>
    decreases n,
{
    if n == 0 {
        seq![unit::<F>()]
    } else {
        cross::<F>(cross_power::<F>(b, (n - 1) as nat), b)
    }
}

/// `1 * x * ... * x` with `n` factors `x`.
pub open spec fn repeat_times<F: Field>(x: EValue<F>, n: nat) -> EValue<F>
    decreases n,
{
    if n == 0 {
        one::<F>()
    } else {
        times::<F>(repeat_times::<F>(x, (n - 1) as nat), x)
    }
}

/// `kind(x)` as a single monomial factor.
pub open spec fn function_monomial<F: Field>(kind: Elementary, x: ETermOf<F>) -> EMono<F> {
    Monomial { coeff: one::<F>(), factors: seq![(EAtom::Fn(kind, x), 1int)] }
}

/// Whether a factor list has a sum to a positive power.
pub open spec fn has_positive_sum<V>(fs: Seq<(EAtom<V>, int)>) -> bool {
    exists|i: int| 0 <= i < fs.len() && (#[trigger] fs[i]).0 is Sum && fs[i].1 > 0
}

/// The monomials of `t`, before they are made canonical, where the
/// rewrites that do not shrink the tree (evaluating a derivative,
/// cancelling `exp` against `log`, expanding a sum raised back to a
/// positive power) nest at most `fuel` deep. `None` where that does not
/// suffice, where a zero is inverted, or where an exponent leaves `isize`.
pub open spec fn expand<F: Field>(t: ETermOf<F>, fuel: nat) -> Option<Seq<EMono<F>>>
    decreases fuel, t, 2int,
{
    match t {
        ETerm::Const(c) => Some(seq![constant::<F>(c)]),
        ETerm::Symbol(s) => Some(
            seq![Monomial { coeff: one::<F>(), factors: seq![(EAtom::Symbol(s), 1int)] }],
        ),
        ETerm::Neg(x) => match expand::<F>(*x, fuel) {
            Some(ms) => Some(ms.map_values(|m: EMono<F>| negated::<F>(m))),
            None => None,
        },
        ETerm::Add(xs) => expand_sum::<F>(xs, fuel),
        ETerm::Mul(xs) => expand_product::<F>(xs, fuel),
        ETerm::Pow(b, n) => expand_power::<F>(*b, n, fuel),
        ETerm::Fn(k, a) => expand_function::<F>(k, *a, fuel),
        ETerm::D(w, inner) => if fuel > 0 && ElementaryExpr::<F>::derivable(
            *inner,
            w,
            ElementaryExpr::<F>::d_depth(*inner),
        ) {
            expand::<F>(ElementaryExpr::<F>::derivative_of(*inner, w), (fuel - 1) as nat)
        } else {
            None
        },
    }
}

/// The monomials of a sum: those of each summand, in order.
pub open spec fn expand_sum<F: Field>(xs: Seq<ETermOf<F>>, fuel: nat) -> Option<Seq<EMono<F>>>
    decreases fuel, xs, 1int,
{
    if xs.len() == 0 {
        Some(Seq::empty())
    } else {
        match expand_sum::<F>(xs.drop_last(), fuel) {
            None => None,
            Some(done) => match expand::<F>(xs[xs.len() - 1], fuel) {
                None => None,
                Some(last) => Some(done + last),
            },
        }
    }
}

/// The monomials of a product: [`cross`] of the monomials of its factors,
/// from the left, starting from `1`.
pub open spec fn expand_product<F: Field>(xs: Seq<ETermOf<F>>, fuel: nat) -> Option<
    Seq<EMono<F>>,
>
    decreases fuel, xs, 1int,
{
    if xs.len() == 0 {
        Some(seq![unit::<F>()])
    } else {
        match expand_product::<F>(xs.drop_last(), fuel) {
            None => None,
            Some(acc) => match expand::<F>(xs[xs.len() - 1], fuel) {
                None => None,
                Some(rhs) => Some(cross::<F>(acc, rhs)),
            },
        }
    }
}

/// The monomials of `b^n`, from the canonical monomials of `b`: `1` when
/// `n` is zero; multiplied out when `n` is positive; when `n` is negative,
/// the single monomial inverted (its coefficient inverted and raised, its
/// exponents multiplied by `n`, and expanded again if that raises a sum to
/// a positive power), or a sum of several kept as one factor to the power
/// `n`. Inverting zero gives `None`.
pub open spec fn expand_power<F: Field>(b: ETermOf<F>, n: int, fuel: nat) -> Option<
    Seq<EMono<F>>,
>
    decreases fuel, b, 3int,
{
    match expand::<F>(b, fuel) {
        None => None,
        Some(bs) => match canonical::<F>(bs) {
            None => None,
            Some(cb) => if n == 0 {
                Some(seq![unit::<F>()])
            } else if n > 0 {
                Some(cross_power::<F>(cb, n as nat))
            } else if cb.len() == 0 {
                None
            } else if cb.len() == 1 {
                let t = cb[0];
                if forall|i: int| 0 <= i < t.factors.len() ==> fits_isize(
                    #[trigger] t.factors[i].1 * n,
                ) {
                    let inverted = Monomial {
                        coeff: repeat_times::<F>(F::spec_invert(t.coeff), (-n) as nat),
                        factors: t.factors.map_values(|p: EFactor<F>| (p.0, p.1 * n)),
                    };
                    if has_positive_sum(inverted.factors) {
                        if fuel > 0 {
                            expand::<F>(monomial_expr::<F>(inverted), (fuel - 1) as nat)
                        } else {
                            None
                        }
                    } else {
                        Some(seq![inverted])
                    }
                } else {
                    None
                }
            } else {
                Some(
                    seq![
                        Monomial {
                            coeff: one::<F>(),
                            factors: seq![(EAtom::Sum(monomials_expr::<F>(cb)), n)],
                        },
                    ],
                )
            },
        },
    }
}

/// The monomials of `kind(a)`, from the canonical form `x` of `a`: the
/// boundary values `exp 0 = 1`, `log 1 = 0`, `sin 0 = 0` and `cos 0 = 1`
/// fold, `exp(log u)` and `log(exp u)` are `u`, and anything else is the
/// single factor `kind(x)`.
pub open spec fn expand_function<F: Field>(kind: Elementary, a: ETermOf<F>, fuel: nat) -> Option<
    Seq<EMono<F>>,
>
    decreases fuel, a, 3int,
{
    match expand::<F>(a, fuel) {
        None => None,
        Some(ts) => match canonical::<F>(ts) {
            None => None,
            Some(cs) => {
                let x = monomials_expr::<F>(cs);
                match x {
                    ETerm::Const(c) => if kind == Elementary::Exp && c == zero::<F>() {
                        Some(seq![unit::<F>()])
                    } else if kind == Elementary::Log && c == one::<F>() {
                        Some(seq![constant::<F>(zero::<F>())])
                    } else if kind == Elementary::Sin && c == zero::<F>() {
                        Some(seq![constant::<F>(zero::<F>())])
                    } else if kind == Elementary::Cos && c == zero::<F>() {
                        Some(seq![unit::<F>()])
                    } else {
                        Some(seq![function_monomial::<F>(kind, x)])
                    },
                    ETerm::Fn(inner, u) => if (kind == Elementary::Exp && inner == Elementary::Log)
                        || (kind == Elementary::Log && inner == Elementary::Exp) {
                        if fuel > 0 {
                            expand::<F>(*u, (fuel - 1) as nat)
                        } else {
                            None
                        }
                    } else {
                        Some(seq![function_monomial::<F>(kind, x)])
                    },
                    _ => Some(seq![function_monomial::<F>(kind, x)]),
                }
            },
        },
    }
}

/// Whether `t` is rewritten, with at most `fuel` nested rewrites that do
/// not shrink the tree, without inverting zero or leaving `isize`.
pub open spec fn normalizes<F: Field>(t: ETermOf<F>, fuel: nat) -> bool {
    &&& expand::<F>(t, fuel) is Some
    &&& canonical::<F>(expand::<F>(t, fuel)->Some_0) is Some
}

/// Whether `t` has a canonical form: the rewrite finishes, without
/// inverting zero and with every exponent within `isize`.
pub open spec fn normalizable<F: Field>(t: ETermOf<F>) -> bool {
    exists|fuel: nat| normalizes::<F>(t, fuel)
}

/// The canonical form of `t` reached within `fuel`.
pub open spec fn normal_form_within<F: Field>(t: ETermOf<F>, fuel: nat) -> ETermOf<F> {
    monomials_expr::<F>(canonical::<F>(expand::<F>(t, fuel)->Some_0)->Some_0)
}

/// The canonical form of an elementary expression: a sum of monomials
/// `coeff * atom_1^e_1 * ... * atom_n^e_n`, factors and monomials sorted
/// structurally, like ones collected, vanishing ones dropped; `D` never
/// survives.
pub open spec fn elementary_normal_form<F: Field>(t: ETermOf<F>) -> ETermOf<F> {
    normal_form_within::<F>(t, choose|fuel: nat| normalizes::<F>(t, fuel))
}

// ------------------------------------------------------------------------
// Executable representation
// ------------------------------------------------------------------------

/// A factor of a term: a symbol, an elementary function of a canonical
/// argument, or a canonical sum.
enum Atom<F: Field> {
    Symbol(Symbol),
    Fn(Elementary, ElementaryExpr<F>),
    Sum(ElementaryExpr<F>),
}

impl<F: Field> View for Atom<F> {
    type V = EAtom<EValue<F>>;

    closed spec fn view(&self) -> EAtom<EValue<F>> {
        match self {
            Atom::Symbol(s) => EAtom::Symbol(s@),
            Atom::Fn(k, a) => EAtom::Fn(*k, a@),
            Atom::Sum(e) => EAtom::Sum(e@),
        }
    }
}

/// `coeff * atom_1^e_1 * ... * atom_n^e_n`.
struct Term<F: Field> {
    coeff: F::Domain,
    factors: Vec<(Atom<F>, isize)>,
}

/// The factors of a term, by value.
spec fn factors_view<F: Field>(s: Seq<(Atom<F>, isize)>) -> Seq<EFactor<F>> {
    s.map_values(|p: (Atom<F>, isize)| (p.0@, p.1 as int))
}

impl<F: Field> View for Term<F> {
    type V = EMono<F>;

    closed spec fn view(&self) -> EMono<F> {
        Monomial { coeff: self.coeff@, factors: factors_view::<F>(self.factors@) }
    }
}

proof fn lemma_factors_view_drop_first<F: Field>(s: Seq<(Atom<F>, isize)>)
    requires
        s.len() > 0,
    ensures
        factors_view::<F>(s.drop_first()) == factors_view::<F>(s).drop_first(),
{
    assert(factors_view::<F>(s.drop_first()) =~= factors_view::<F>(s).drop_first());
}

proof fn lemma_factors_view_push<F: Field>(s: Seq<(Atom<F>, isize)>, x: (Atom<F>, isize))
    ensures
        factors_view::<F>(s.push(x)) == factors_view::<F>(s).push((x.0@, x.1 as int)),
{
    assert(factors_view::<F>(s.push(x)) =~= factors_view::<F>(s).push((x.0@, x.1 as int)));
}

/// A list of terms, by value.
spec fn terms_view<F: Field>(s: Seq<Term<F>>) -> Seq<EMono<F>> {
    s.map_values(|t: Term<F>| t@)
}

fn kind_rank_exec(k: Elementary) -> (r: u8)
    ensures
        r == kind_rank(k),
{
    match k {
        Elementary::Exp => 0,
        Elementary::Log => 1,
        Elementary::Sin => 2,
        Elementary::Cos => 3,
    }
}

fn compare_u8(a: u8, b: u8) -> (r: Cmp)
    ensures
        r == compare_ints(a as int, b as int),
{
    if a < b {
        Cmp::Less
    } else if a > b {
        Cmp::Greater
    } else {
        Cmp::Equal
    }
}

fn compare_isize(a: isize, b: isize) -> (r: Cmp)
    ensures
        r == compare_ints(a as int, b as int),
{
    if a < b {
        Cmp::Less
    } else if a > b {
        Cmp::Greater
    } else {
        Cmp::Equal
    }
}

fn node_rank_exec<F: Field>(e: &ElementaryExpr<F>) -> (r: u8)
    ensures
        r == node_rank(e@),
{
    match e {
        ElementaryExpr::Const(_) => 0,
        ElementaryExpr::Symbol(_) => 1,
        ElementaryExpr::Pow { .. } => 2,
        ElementaryExpr::Fn(_, _) => 3,
        ElementaryExpr::Mul(_) => 4,
        ElementaryExpr::Add(_) => 5,
        ElementaryExpr::Neg(_) => 6,
        ElementaryExpr::D { .. } => 7,
    }
}

/// The structural order of two expressions.
fn expr_order_exec<F: Field>(a: &ElementaryExpr<F>, b: &ElementaryExpr<F>) -> (r: Cmp)
    ensures
        r == expr_order(a@, b@),
    decreases a, 1int,
{
    match (a, b) {
        (ElementaryExpr::Const(_), ElementaryExpr::Const(_)) => Cmp::Equal,
        (ElementaryExpr::Symbol(s), ElementaryExpr::Symbol(o)) => s.compare(o),
        (
            ElementaryExpr::Pow { base: sb, exponent: se },
            ElementaryExpr::Pow { base: ob, exponent: oe },
        ) => match expr_order_exec(sb, ob) {
            Cmp::Equal => compare_isize(*se, *oe),
            c => c,
        },
        (ElementaryExpr::Fn(sk, sa), ElementaryExpr::Fn(ok, oa)) => match compare_u8(
            kind_rank_exec(*sk),
            kind_rank_exec(*ok),
        ) {
            Cmp::Equal => expr_order_exec(sa, oa),
            c => c,
        },
        (ElementaryExpr::Mul(s), ElementaryExpr::Mul(o)) => expr_order_lists_exec(s, o, Ghost(*a)),
        (ElementaryExpr::Add(s), ElementaryExpr::Add(o)) => expr_order_lists_exec(s, o, Ghost(*a)),
        (ElementaryExpr::Neg(s), ElementaryExpr::Neg(o)) => expr_order_exec(s, o),
        (
            ElementaryExpr::D { wrt: sw, inner: si },
            ElementaryExpr::D { wrt: ow, inner: oi },
        ) => match sw.compare(ow) {
            Cmp::Equal => expr_order_exec(si, oi),
            c => c,
        },
        _ => compare_u8(node_rank_exec(a), node_rank_exec(b)),
    }
}

/// The structural order of the children `s` of `whole` and the list `o`.
fn expr_order_lists_exec<F: Field>(
    s: &Vec<ElementaryExpr<F>>,
    o: &Vec<ElementaryExpr<F>>,
    Ghost(whole): Ghost<ElementaryExpr<F>>,
) -> (r: Cmp)
    requires
        whole == ElementaryExpr::<F>::Add(*s) || whole == ElementaryExpr::<F>::Mul(*s),
    ensures
        r == expr_order_lists(ElementaryExpr::<F>::terms(s@), ElementaryExpr::<F>::terms(o@)),
    decreases whole, 0int,
{
    let ghost ts = ElementaryExpr::<F>::terms(s@);
    let ghost to = ElementaryExpr::<F>::terms(o@);
    proof {
        ElementaryExpr::<F>::lemma_terms(s@);
        ElementaryExpr::<F>::lemma_terms(o@);
        assert(ts.skip(0) =~= ts);
        assert(to.skip(0) =~= to);
    }
    let mut i: usize = 0;
    while i < s.len() && i < o.len()
        invariant
            whole == ElementaryExpr::<F>::Add(*s) || whole == ElementaryExpr::<F>::Mul(*s),
            ts == ElementaryExpr::<F>::terms(s@),
            to == ElementaryExpr::<F>::terms(o@),
            ts.len() == s.len(),
            to.len() == o.len(),
            forall|j: int| 0 <= j < s.len() ==> #[trigger] ts[j] == s@[j]@,
            forall|j: int| 0 <= j < o.len() ==> #[trigger] to[j] == o@[j]@,
            i <= s.len(),
            i <= o.len(),
            expr_order_lists(ts, to) == expr_order_lists(ts.skip(i as int), to.skip(i as int)),
        decreases s.len() - i,
    {
        proof {
            if whole == ElementaryExpr::<F>::Add(*s) {
                assert(decreases_to!(whole => whole->Add_0));
            } else {
                assert(decreases_to!(whole => whole->Mul_0));
            }
            assert(decreases_to!(s => s@));
            assert(decreases_to!(s@ => s@[i as int]));
            assert(ts.skip(i as int)[0] == ts[i as int]);
            assert(to.skip(i as int)[0] == to[i as int]);
            assert(ts.skip(i as int).drop_first() =~= ts.skip(i + 1));
            assert(to.skip(i as int).drop_first() =~= to.skip(i + 1));
        }
        let c = expr_order_exec(&s[i], &o[i]);
        match c {
            Cmp::Equal => {},
            _ => {
                return c;
            },
        }
        i = i + 1;
    }
    if s.len() - i < o.len() - i {
        Cmp::Less
    } else if s.len() - i > o.len() - i {
        Cmp::Greater
    } else {
        Cmp::Equal
    }
}

fn atom_rank_exec<F: Field>(a: &Atom<F>) -> (r: u8)
    ensures
        r == atom_rank(a@),
{
    match a {
        Atom::Symbol(_) => 0,
        Atom::Fn(_, _) => 1,
        Atom::Sum(_) => 2,
    }
}

/// The order of two atoms.
fn atom_order_exec<F: Field>(a: &Atom<F>, b: &Atom<F>) -> (r: Cmp)
    ensures
        r == atom_order(a@, b@),
{
    match (a, b) {
        (Atom::Symbol(s), Atom::Symbol(o)) => s.compare(o),
        (Atom::Fn(sk, sa), Atom::Fn(ok, oa)) => match compare_u8(
            kind_rank_exec(*sk),
            kind_rank_exec(*ok),
        ) {
            Cmp::Equal => expr_order_exec(sa, oa),
            c => c,
        },
        (Atom::Sum(s), Atom::Sum(o)) => expr_order_exec(s, o),
        _ => compare_u8(atom_rank_exec(a), atom_rank_exec(b)),
    }
}

/// Whether two atoms are equal.
fn atom_equals<F: Field>(a: &Atom<F>, b: &Atom<F>) -> (r: bool)
    ensures
        r == (a@ == b@),
{
    match (a, b) {
        (Atom::Symbol(s), Atom::Symbol(o)) => s.same(o),
        (Atom::Fn(sk, sa), Atom::Fn(ok, oa)) => *sk == *ok && sa.equals(oa),
        (Atom::Sum(s), Atom::Sum(o)) => s.equals(o),
        _ => false,
    }
}

/// A copy of an atom.
fn atom_duplicate<F: Field>(a: &Atom<F>) -> (r: Atom<F>)
    ensures
        r@ == a@,
{
    match a {
        Atom::Symbol(s) => Atom::Symbol(s.clone()),
        Atom::Fn(k, e) => Atom::Fn(*k, e.duplicate()),
        Atom::Sum(e) => Atom::Sum(e.duplicate()),
    }
}


/// The order of two factor lists.
fn factors_order_exec<F: Field>(a: &Vec<(Atom<F>, isize)>, b: &Vec<(Atom<F>, isize)>) -> (r: Cmp)
    ensures
        r == factors_order(factors_view::<F>(a@), factors_view::<F>(b@)),
{
    let ghost ta = factors_view::<F>(a@);
    let ghost tb = factors_view::<F>(b@);
    proof {
        assert(ta.skip(0) =~= ta);
        assert(tb.skip(0) =~= tb);
    }
    let mut i: usize = 0;
    while i < a.len() && i < b.len()
        invariant
            ta == factors_view::<F>(a@),
            tb == factors_view::<F>(b@),
            i <= a.len(),
            i <= b.len(),
            factors_order(ta, tb) == factors_order(ta.skip(i as int), tb.skip(i as int)),
        decreases a.len() - i,
    {
        proof {
            assert(ta.skip(i as int)[0] == ta[i as int]);
            assert(tb.skip(i as int)[0] == tb[i as int]);
            assert(ta.skip(i as int).drop_first() =~= ta.skip(i + 1));
            assert(tb.skip(i as int).drop_first() =~= tb.skip(i + 1));
        }
        let c = atom_order_exec(&a[i].0, &b[i].0);
        match c {
            Cmp::Equal => {},
            _ => {
                return c;
            },
        }
        let d = compare_isize(a[i].1, b[i].1);
        match d {
            Cmp::Equal => {},
            _ => {
                return d;
            },
        }
        i = i + 1;
    }
    if a.len() - i < b.len() - i {
        Cmp::Less
    } else if a.len() - i > b.len() - i {
        Cmp::Greater
    } else {
        Cmp::Equal
    }
}

/// Whether two factor lists are equal.
fn factors_equal<F: Field>(a: &Vec<(Atom<F>, isize)>, b: &Vec<(Atom<F>, isize)>) -> (r: bool)
    ensures
        r == (factors_view::<F>(a@) == factors_view::<F>(b@)),
{
    let ghost ta = factors_view::<F>(a@);
    let ghost tb = factors_view::<F>(b@);
    if a.len() != b.len() {
        proof {
            assert(ta.len() != tb.len());
        }
        return false;
    }
    let mut i: usize = 0;
    while i < a.len()
        invariant
            ta == factors_view::<F>(a@),
            tb == factors_view::<F>(b@),
            a.len() == b.len(),
            i <= a.len(),
            forall|j: int| 0 <= j < i ==> #[trigger] ta[j] == tb[j],
        decreases a.len() - i,
    {
        if !atom_equals(&a[i].0, &b[i].0) || a[i].1 != b[i].1 {
            proof {
                assert(ta[i as int] != tb[i as int]);
            }
            return false;
        }
        i = i + 1;
    }
    proof {
        assert(ta =~= tb);
    }
    true
}

impl<F: Field> Term<F> {
    /// A copy of the term.
    fn duplicate(&self) -> (r: Self)
        ensures
            r@ == self@,
    {
        let mut factors: Vec<(Atom<F>, isize)> = Vec::new();
        let mut i: usize = 0;
        while i < self.factors.len()
            invariant
                i <= self.factors.len(),
                factors_view::<F>(factors@) == factors_view::<F>(self.factors@).take(i as int),
            decreases self.factors.len() - i,
        {
            let a = atom_duplicate(&self.factors[i].0);
            let ghost old_factors = factors@;
            factors.push((a, self.factors[i].1));
            proof {
                lemma_factors_view_push::<F>(old_factors, (a, self.factors@[i as int].1));
                assert(factors_view::<F>(self.factors@).take(i + 1) =~= factors_view::<F>(
                    self.factors@,
                ).take(i as int).push(factors_view::<F>(self.factors@)[i as int]));
            }
            i = i + 1;
        }
        proof {
            assert(factors_view::<F>(self.factors@).take(self.factors.len() as int)
                =~= factors_view::<F>(self.factors@));
        }
        Term { coeff: self.coeff.duplicate(), factors }
    }
}

/// The factors stably sorted by atom.
fn sort_factors<F: Field>(fs: Vec<(Atom<F>, isize)>) -> (r: Vec<(Atom<F>, isize)>)
    ensures
        factors_view::<F>(r@) == sort_stable(factors_view::<F>(fs@), factor_after()),
{
    let ghost all = factors_view::<F>(fs@);
    let ghost after = factor_after::<EValue<F>>();
    let mut rest = fs;
    let mut out: Vec<(Atom<F>, isize)> = Vec::new();
    proof {
        assert(all.take(0) =~= Seq::<EFactor<F>>::empty());
        assert(factors_view::<F>(rest@) =~= all.skip(0));
    }
    while rest.len() > 0
        invariant
            rest@.len() <= all.len(),
            after == factor_after::<EValue<F>>(),
            factors_view::<F>(rest@) == all.skip(all.len() - rest@.len()),
            factors_view::<F>(out@) == sort_stable(all.take(all.len() - rest@.len()), after),
        decreases rest.len(),
    {
        let ghost k = all.len() - rest@.len();
        let ghost sorted = factors_view::<F>(out@);
        let ghost before = rest@;
        let item = rest.remove(0);
        let ghost x = (item.0@, item.1 as int);
        proof {
            assert(item == before[0]);
            assert(factors_view::<F>(before)[0] == x);
            assert(all.skip(k)[0] == all[k]);
            assert(rest@ =~= before.drop_first());
            lemma_factors_view_drop_first::<F>(before);
            assert(all.skip(k).drop_first() =~= all.skip(k + 1));
            assert(all.take(k + 1).drop_last() =~= all.take(k));
        }
        let mut i = out.len();
        while i > 0
            invariant
                i <= out.len(),
                sorted == factors_view::<F>(out@),
                x == (item.0@, item.1 as int),
                after == factor_after::<EValue<F>>(),
                forall|j: int| i <= j < sorted.len() ==> #[trigger] after(sorted[j], x),
            ensures
                i <= out.len(),
                sorted == factors_view::<F>(out@),
                forall|j: int| i <= j < sorted.len() ==> #[trigger] after(sorted[j], x),
                i == 0 || !after(sorted[i - 1], x),
            decreases i,
        {
            let c = atom_order_exec(&out[i - 1].0, &item.0);
            match c {
                Cmp::Greater => {},
                _ => {
                    break;
                },
            }
            i = i - 1;
        }
        proof {
            lemma_insert_at(sorted, x, after, i as int);
        }
        out.insert(i, item);
        proof {
            assert(factors_view::<F>(out@) =~= sorted.take(i as int).push(x) + sorted.skip(
                i as int,
            ));
        }
    }
    proof {
        assert(all.take(all.len() as int) =~= all);
    }
    out
}

/// Merging a prefix succeeds where merging the whole list does.
proof fn lemma_merge_factors_prefix<V>(s: Seq<(EAtom<V>, int)>, k: int)
    requires
        0 <= k <= s.len(),
        merge_factors(s) is Some,
    ensures
        merge_factors(s.take(k)) is Some,
    decreases s.len(),
{
    if k == s.len() {
        assert(s.take(k) =~= s);
    } else {
        assert(s.drop_last().take(k) =~= s.take(k));
        lemma_merge_factors_prefix(s.drop_last(), k);
    }
}

/// Runs of equal adjacent atoms collected, exponents added.
fn merge_factors_exec<F: Field>(fs: Vec<(Atom<F>, isize)>) -> (r: Vec<(Atom<F>, isize)>)
    requires
        merge_factors(factors_view::<F>(fs@)) is Some,
    ensures
        merge_factors(factors_view::<F>(fs@)) == Some(factors_view::<F>(r@)),
{
    let ghost all = factors_view::<F>(fs@);
    let mut rest = fs;
    let mut out: Vec<(Atom<F>, isize)> = Vec::new();
    proof {
        assert(all.take(0) =~= Seq::<EFactor<F>>::empty());
        assert(factors_view::<F>(rest@) =~= all.skip(0));
    }
    while rest.len() > 0
        invariant
            rest@.len() <= all.len(),
            merge_factors(all) is Some,
            factors_view::<F>(rest@) == all.skip(all.len() - rest@.len()),
            merge_factors(all.take(all.len() - rest@.len())) == Some(factors_view::<F>(out@)),
        decreases rest.len(),
    {
        let ghost k = all.len() - rest@.len();
        let ghost before = rest@;
        let ghost m = factors_view::<F>(out@);
        let item = rest.remove(0);
        proof {
            assert(item == before[0]);
            assert(factors_view::<F>(before)[0] == (item.0@, item.1 as int));
            assert(all.skip(k)[0] == all[k]);
            assert(rest@ =~= before.drop_first());
            lemma_factors_view_drop_first::<F>(before);
            assert(all.skip(k).drop_first() =~= all.skip(k + 1));
            assert(all.take(k + 1).drop_last() =~= all.take(k));
            assert(all.take(k + 1).last() == all[k]);
            lemma_merge_factors_prefix(all, k + 1);
        }
        let n = out.len();
        let same = n > 0 && atom_equals(&out[n - 1].0, &item.0);
        if same {
            let last = out.pop();
            match last {
                Some(p) => {
                    proof {
                        assert((p.0@, p.1 as int) == m.last());
                        assert(factors_view::<F>(out@) =~= m.drop_last());
                    }
                    let e = p.1 + item.1;
                    out.push((p.0, e));
                    proof {
                        assert(factors_view::<F>(out@) =~= m.drop_last().push((item.0@, e as int)));
                    }
                },
                None => {},
            }
        } else {
            out.push(item);
            proof {
                assert(factors_view::<F>(out@) =~= m.push((item.0@, item.1 as int)));
            }
        }
    }
    proof {
        assert(all.take(all.len() as int) =~= all);
    }
    out
}

/// The factors with non-zero exponents.
fn drop_zero_exponents<F: Field>(fs: Vec<(Atom<F>, isize)>) -> (r: Vec<(Atom<F>, isize)>)
    ensures
        factors_view::<F>(r@) == factors_view::<F>(fs@).filter(nonzero_exponent()),
{
    let ghost all = factors_view::<F>(fs@);
    let mut rest = fs;
    let mut out: Vec<(Atom<F>, isize)> = Vec::new();
    proof {
        reveal(Seq::filter);
        assert(all.take(0) =~= Seq::<EFactor<F>>::empty());
        assert(factors_view::<F>(rest@) =~= all.skip(0));
    }
    while rest.len() > 0
        invariant
            rest@.len() <= all.len(),
            factors_view::<F>(rest@) == all.skip(all.len() - rest@.len()),
            factors_view::<F>(out@) == all.take(all.len() - rest@.len()).filter(
                nonzero_exponent(),
            ),
        decreases rest.len(),
    {
        let ghost k = all.len() - rest@.len();
        let ghost before = rest@;
        let ghost m = factors_view::<F>(out@);
        let item = rest.remove(0);
        proof {
            reveal(Seq::filter);
            assert(item == before[0]);
            assert(factors_view::<F>(before)[0] == (item.0@, item.1 as int));
            assert(all.skip(k)[0] == all[k]);
            assert(rest@ =~= before.drop_first());
            lemma_factors_view_drop_first::<F>(before);
            assert(all.skip(k).drop_first() =~= all.skip(k + 1));
            assert(all.take(k + 1).drop_last() =~= all.take(k));
            assert(all.take(k + 1).last() == all[k]);
        }
        if item.1 != 0 {
            out.push(item);
            proof {
                assert(factors_view::<F>(out@) =~= m.push(all[k]));
            }
        }
    }
    proof {
        assert(all.take(all.len() as int) =~= all);
    }
    out
}

impl<F: Field> Term<F> {
    /// The term with its factors sorted, equal atoms collected and
    /// vanishing exponents dropped.
    fn canonical_term(self) -> (r: Self)
        requires
            canonical_monomial(self@) is Some,
        ensures
            canonical_monomial(self@) == Some(r@),
    {
        let Term { coeff, factors } = self;
        let sorted = sort_factors(factors);
        let merged = merge_factors_exec(sorted);
        let kept = drop_zero_exponents(merged);
        Term { coeff, factors: kept }
    }
}

proof fn lemma_terms_view_drop_first<F: Field>(s: Seq<Term<F>>)
    requires
        s.len() > 0,
    ensures
        terms_view::<F>(s.drop_first()) == terms_view::<F>(s).drop_first(),
{
    assert(terms_view::<F>(s.drop_first()) =~= terms_view::<F>(s).drop_first());
}

proof fn lemma_terms_view_push<F: Field>(s: Seq<Term<F>>, x: Term<F>)
    ensures
        terms_view::<F>(s.push(x)) == terms_view::<F>(s).push(x@),
{
    assert(terms_view::<F>(s.push(x)) =~= terms_view::<F>(s).push(x@));
}

/// The terms stably sorted by factor list.
fn sort_terms<F: Field>(ts: Vec<Term<F>>) -> (r: Vec<Term<F>>)
    ensures
        terms_view::<F>(r@) == sort_stable(terms_view::<F>(ts@), monomial_after()),
{
    let ghost all = terms_view::<F>(ts@);
    let ghost after = monomial_after::<EValue<F>>();
    let mut rest = ts;
    let mut out: Vec<Term<F>> = Vec::new();
    proof {
        assert(all.take(0) =~= Seq::<EMono<F>>::empty());
        assert(terms_view::<F>(rest@) =~= all.skip(0));
    }
    while rest.len() > 0
        invariant
            rest@.len() <= all.len(),
            after == monomial_after::<EValue<F>>(),
            terms_view::<F>(rest@) == all.skip(all.len() - rest@.len()),
            terms_view::<F>(out@) == sort_stable(all.take(all.len() - rest@.len()), after),
        decreases rest.len(),
    {
        let ghost k = all.len() - rest@.len();
        let ghost sorted = terms_view::<F>(out@);
        let ghost before = rest@;
        let item = rest.remove(0);
        let ghost x = item@;
        proof {
            assert(item == before[0]);
            assert(terms_view::<F>(before)[0] == x);
            assert(all.skip(k)[0] == all[k]);
            assert(rest@ =~= before.drop_first());
            lemma_terms_view_drop_first::<F>(before);
            assert(all.skip(k).drop_first() =~= all.skip(k + 1));
            assert(all.take(k + 1).drop_last() =~= all.take(k));
        }
        let mut i = out.len();
        while i > 0
            invariant
                i <= out.len(),
                sorted == terms_view::<F>(out@),
                x == item@,
                after == monomial_after::<EValue<F>>(),
                forall|j: int| i <= j < sorted.len() ==> #[trigger] after(sorted[j], x),
            ensures
                i <= out.len(),
                sorted == terms_view::<F>(out@),
                forall|j: int| i <= j < sorted.len() ==> #[trigger] after(sorted[j], x),
                i == 0 || !after(sorted[i - 1], x),
            decreases i,
        {
            let c = factors_order_exec(&out[i - 1].factors, &item.factors);
            match c {
                Cmp::Greater => {},
                _ => {
                    break;
                },
            }
            i = i - 1;
        }
        proof {
            lemma_insert_at(sorted, x, after, i as int);
        }
        out.insert(i, item);
        proof {
            assert(terms_view::<F>(out@) =~= sorted.take(i as int).push(x) + sorted.skip(i as int));
        }
    }
    proof {
        assert(all.take(all.len() as int) =~= all);
    }
    out
}

/// Runs of adjacent terms over equal factor lists collected,
/// coefficients added.
fn merge_terms<F: Field>(ts: Vec<Term<F>>) -> (r: Vec<Term<F>>)
    ensures
        terms_view::<F>(r@) == merge_monomials::<F>(terms_view::<F>(ts@)),
{
    let ghost all = terms_view::<F>(ts@);
    let mut rest = ts;
    let mut out: Vec<Term<F>> = Vec::new();
    proof {
        assert(all.take(0) =~= Seq::<EMono<F>>::empty());
        assert(terms_view::<F>(rest@) =~= all.skip(0));
    }
    while rest.len() > 0
        invariant
            rest@.len() <= all.len(),
            terms_view::<F>(rest@) == all.skip(all.len() - rest@.len()),
            merge_monomials::<F>(all.take(all.len() - rest@.len())) == terms_view::<F>(out@),
        decreases rest.len(),
    {
        let ghost k = all.len() - rest@.len();
        let ghost before = rest@;
        let ghost m = terms_view::<F>(out@);
        let item = rest.remove(0);
        proof {
            assert(item == before[0]);
            assert(terms_view::<F>(before)[0] == item@);
            assert(all.skip(k)[0] == all[k]);
            assert(rest@ =~= before.drop_first());
            lemma_terms_view_drop_first::<F>(before);
            assert(all.skip(k).drop_first() =~= all.skip(k + 1));
            assert(all.take(k + 1).drop_last() =~= all.take(k));
            assert(all.take(k + 1).last() == all[k]);
        }
        let n = out.len();
        let same = n > 0 && factors_equal(&out[n - 1].factors, &item.factors);
        if same {
            let last = out.pop();
            match last {
                Some(t) => {
                    proof {
                        assert(t@ == m.last());
                        assert(terms_view::<F>(out@) =~= m.drop_last());
                    }
                    let coeff = <F as SemiRing>::add(t.coeff, item.coeff);
                    let merged = Term { coeff, factors: t.factors };
                    let ghost shorter = out@;
                    out.push(merged);
                    proof {
                        lemma_terms_view_push::<F>(shorter, merged);
                    }
                },
                None => {},
            }
        } else {
            let ghost shorter = out@;
            out.push(item);
            proof {
                lemma_terms_view_push::<F>(shorter, item);
            }
        }
    }
    proof {
        assert(all.take(all.len() as int) =~= all);
    }
    out
}

/// The terms with non-zero coefficients.
fn drop_zero_terms<F: Field>(ts: Vec<Term<F>>) -> (r: Vec<Term<F>>)
    ensures
        terms_view::<F>(r@) == terms_view::<F>(ts@).filter(nonzero_coeff::<F>()),
{
    let ghost all = terms_view::<F>(ts@);
    let zero_value = <F as SemiRing>::zero();
    let mut rest = ts;
    let mut out: Vec<Term<F>> = Vec::new();
    proof {
        reveal(Seq::filter);
        assert(all.take(0) =~= Seq::<EMono<F>>::empty());
        assert(terms_view::<F>(rest@) =~= all.skip(0));
    }
    while rest.len() > 0
        invariant
            rest@.len() <= all.len(),
            zero_value@ == zero::<F>(),
            terms_view::<F>(rest@) == all.skip(all.len() - rest@.len()),
            terms_view::<F>(out@) == all.take(all.len() - rest@.len()).filter(nonzero_coeff::<F>()),
        decreases rest.len(),
    {
        let ghost k = all.len() - rest@.len();
        let ghost before = rest@;
        let ghost m = terms_view::<F>(out@);
        let item = rest.remove(0);
        proof {
            reveal(Seq::filter);
            assert(item == before[0]);
            assert(terms_view::<F>(before)[0] == item@);
            assert(all.skip(k)[0] == all[k]);
            assert(rest@ =~= before.drop_first());
            lemma_terms_view_drop_first::<F>(before);
            assert(all.skip(k).drop_first() =~= all.skip(k + 1));
            assert(all.take(k + 1).drop_last() =~= all.take(k));
            assert(all.take(k + 1).last() == all[k]);
        }
        if !item.coeff.equals(&zero_value) {
            let ghost shorter = out@;
            out.push(item);
            proof {
                lemma_terms_view_push::<F>(shorter, item);
            }
        }
    }
    proof {
        assert(all.take(all.len() as int) =~= all);
    }
    out
}

/// Making a prefix canonical succeeds where the whole list does.
proof fn lemma_canonical_each_prefix<V>(s: Seq<Monomial<V>>, k: int)
    requires
        0 <= k <= s.len(),
        canonical_each(s) is Some,
    ensures
        canonical_each(s.take(k)) is Some,
    decreases s.len(),
{
    if k == s.len() {
        assert(s.take(k) =~= s);
    } else {
        assert(s.drop_last().take(k) =~= s.take(k));
        lemma_canonical_each_prefix(s.drop_last(), k);
    }
}

/// Each term made canonical.
fn canonical_each_exec<F: Field>(ts: Vec<Term<F>>) -> (r: Vec<Term<F>>)
    requires
        canonical_each(terms_view::<F>(ts@)) is Some,
    ensures
        canonical_each(terms_view::<F>(ts@)) == Some(terms_view::<F>(r@)),
{
    let ghost all = terms_view::<F>(ts@);
    let mut rest = ts;
    let mut out: Vec<Term<F>> = Vec::new();
    proof {
        assert(all.take(0) =~= Seq::<EMono<F>>::empty());
        assert(terms_view::<F>(rest@) =~= all.skip(0));
    }
    while rest.len() > 0
        invariant
            rest@.len() <= all.len(),
            canonical_each(all) is Some,
            terms_view::<F>(rest@) == all.skip(all.len() - rest@.len()),
            canonical_each(all.take(all.len() - rest@.len())) == Some(terms_view::<F>(out@)),
        decreases rest.len(),
    {
        let ghost k = all.len() - rest@.len();
        let ghost before = rest@;
        let item = rest.remove(0);
        proof {
            assert(item == before[0]);
            assert(terms_view::<F>(before)[0] == item@);
            assert(all.skip(k)[0] == all[k]);
            assert(rest@ =~= before.drop_first());
            lemma_terms_view_drop_first::<F>(before);
            assert(all.skip(k).drop_first() =~= all.skip(k + 1));
            assert(all.take(k + 1).drop_last() =~= all.take(k));
            assert(all.take(k + 1).last() == all[k]);
            lemma_canonical_each_prefix(all, k + 1);
        }
        let c = item.canonical_term();
        let ghost shorter = out@;
        out.push(c);
        proof {
            lemma_terms_view_push::<F>(shorter, c);
        }
    }
    proof {
        assert(all.take(all.len() as int) =~= all);
    }
    out
}

/// The canonical form of a term list.
fn canonical_exec<F: Field>(ts: Vec<Term<F>>) -> (r: Vec<Term<F>>)
    requires
        canonical::<F>(terms_view::<F>(ts@)) is Some,
    ensures
        canonical::<F>(terms_view::<F>(ts@)) == Some(terms_view::<F>(r@)),
{
    let each = canonical_each_exec(ts);
    let sorted = sort_terms(each);
    let merged = merge_terms(sorted);
    drop_zero_terms(merged)
}

/// An atom as an expression.
fn atom_into_expr<F: Field>(a: Atom<F>) -> (r: ElementaryExpr<F>)
    ensures
        r@ == atom_expr(a@),
{
    match a {
        Atom::Symbol(s) => ElementaryExpr::Symbol(s),
        Atom::Fn(k, x) => ElementaryExpr::Fn(k, Box::new(x)),
        Atom::Sum(e) => e,
    }
}

/// `x` in front of a list of expressions.
proof fn lemma_terms_prepend<F: Field>(s: Seq<ElementaryExpr<F>>, x: ElementaryExpr<F>)
    ensures
        ElementaryExpr::<F>::terms(s.insert(0, x)) == seq![x@] + ElementaryExpr::<F>::terms(s),
{
    ElementaryExpr::<F>::lemma_terms(s);
    ElementaryExpr::<F>::lemma_terms(s.insert(0, x));
    assert(ElementaryExpr::<F>::terms(s.insert(0, x)) =~= seq![x@] + ElementaryExpr::<F>::terms(s));
}

impl<F: Field> Term<F> {
    /// The term as an expression.
    fn into_expr(self) -> (r: ElementaryExpr<F>)
        ensures
            r@ == monomial_expr::<F>(self@),
    {
        let ghost m = self@;
        let ghost fs = m.factors.map_values(|p: EFactor<F>| factor_expr(p));
        let Term { coeff, factors } = self;
        let empty = factors.len() == 0;
        let mut rest = factors;
        let mut out: Vec<ElementaryExpr<F>> = Vec::new();
        proof {
            assert(fs.take(0) =~= Seq::<ETermOf<F>>::empty());
            assert(factors_view::<F>(rest@) =~= m.factors.skip(0));
        }
        while rest.len() > 0
            invariant
                rest@.len() <= m.factors.len(),
                fs == m.factors.map_values(|p: EFactor<F>| factor_expr(p)),
                factors_view::<F>(rest@) == m.factors.skip(m.factors.len() - rest@.len()),
                ElementaryExpr::<F>::terms(out@) == fs.take(m.factors.len() - rest@.len()),
            decreases rest.len(),
        {
            let ghost k = m.factors.len() - rest@.len();
            let ghost before = rest@;
            let item = rest.remove(0);
            proof {
                assert(item == before[0]);
                assert(factors_view::<F>(before)[0] == (item.0@, item.1 as int));
                assert(m.factors.skip(k)[0] == m.factors[k]);
                assert(rest@ =~= before.drop_first());
                lemma_factors_view_drop_first::<F>(before);
                assert(m.factors.skip(k).drop_first() =~= m.factors.skip(k + 1));
            }
            let (atom, e) = item;
            let base = atom_into_expr(atom);
            let f = if e == 1 {
                base
            } else {
                ElementaryExpr::Pow { base: Box::new(base), exponent: e }
            };
            let ghost shorter = out@;
            out.push(f);
            proof {
                ElementaryExpr::<F>::lemma_terms_push(shorter, f);
                assert(f@ == fs[k]);
                assert(fs.take(k + 1) =~= fs.take(k).push(fs[k]));
            }
        }
        proof {
            assert(fs.take(m.factors.len() as int) =~= fs);
        }
        let one_value = <F as SemiRing>::one();
        if empty || !coeff.equals(&one_value) {
            let ghost before = out@;
            out.insert(0, ElementaryExpr::Const(coeff));
            proof {
                lemma_terms_prepend::<F>(before, ElementaryExpr::Const(coeff));
            }
        }
        proof {
            ElementaryExpr::<F>::lemma_terms(out@);
        }
        if out.len() == 1 {
            match out.pop() {
                Some(e) => e,
                None => ElementaryExpr::Mul(Vec::new()),
            }
        } else {
            ElementaryExpr::Mul(out)
        }
    }
}

/// A term list as an expression.
fn from_terms<F: Field>(ts: Vec<Term<F>>) -> (r: ElementaryExpr<F>)
    ensures
        r@ == monomials_expr::<F>(terms_view::<F>(ts@)),
{
    let ghost all = terms_view::<F>(ts@);
    let mut rest = ts;
    if rest.len() == 0 {
        return ElementaryExpr::Const(<F as SemiRing>::zero());
    }
    if rest.len() == 1 {
        let ghost before = rest@;
        return match rest.pop() {
            Some(t) => {
                proof {
                    assert(t == before[0]);
                }
                t.into_expr()
            },
            None => ElementaryExpr::Const(<F as SemiRing>::zero()),
        };
    }
    let ghost es = all.map_values(|m: EMono<F>| monomial_expr::<F>(m));
    let mut out: Vec<ElementaryExpr<F>> = Vec::new();
    proof {
        assert(es.take(0) =~= Seq::<ETermOf<F>>::empty());
        assert(terms_view::<F>(rest@) =~= all.skip(0));
    }
    while rest.len() > 0
        invariant
            rest@.len() <= all.len(),
            es == all.map_values(|m: EMono<F>| monomial_expr::<F>(m)),
            terms_view::<F>(rest@) == all.skip(all.len() - rest@.len()),
            ElementaryExpr::<F>::terms(out@) == es.take(all.len() - rest@.len()),
        decreases rest.len(),
    {
        let ghost k = all.len() - rest@.len();
        let ghost before = rest@;
        let item = rest.remove(0);
        proof {
            assert(item == before[0]);
            assert(terms_view::<F>(before)[0] == item@);
            assert(all.skip(k)[0] == all[k]);
            assert(rest@ =~= before.drop_first());
            lemma_terms_view_drop_first::<F>(before);
            assert(all.skip(k).drop_first() =~= all.skip(k + 1));
        }
        let e = item.into_expr();
        let ghost shorter = out@;
        out.push(e);
        proof {
            ElementaryExpr::<F>::lemma_terms_push(shorter, e);
            assert(es.take(k + 1) =~= es.take(k).push(es[k]));
        }
    }
    proof {
        assert(es.take(all.len() as int) =~= es);
    }
    ElementaryExpr::Add(out)
}

/// The single term `t`.
fn single<F: Field>(t: Term<F>) -> (r: Vec<Term<F>>)
    ensures
        terms_view::<F>(r@) == seq![t@],
{
    let mut out: Vec<Term<F>> = Vec::new();
    out.push(t);
    proof {
        assert(terms_view::<F>(out@) =~= seq![t@]);
    }
    out
}

/// The term `c`.
fn constant_term<F: Field>(c: F::Domain) -> (r: Term<F>)
    ensures
        r@ == constant::<F>(c@),
{
    let r = Term { coeff: c, factors: Vec::new() };
    proof {
        assert(factors_view::<F>(r.factors@) =~= Seq::<EFactor<F>>::empty());
    }
    r
}

/// The term `kind(x)`.
fn function_term<F: Field>(kind: Elementary, x: ElementaryExpr<F>) -> (r: Term<F>)
    ensures
        r@ == function_monomial::<F>(kind, x@),
{
    let mut factors: Vec<(Atom<F>, isize)> = Vec::new();
    factors.push((Atom::Fn(kind, x), 1));
    let r = Term { coeff: <F as SemiRing>::one(), factors };
    proof {
        assert(factors_view::<F>(r.factors@) =~= seq![(EAtom::Fn(kind, x@), 1int)]);
    }
    r
}

/// `a * b`.
fn times_term<F: Field>(a: &Term<F>, b: &Term<F>) -> (r: Term<F>)
    ensures
        r@ == product::<F>(a@, b@),
{
    let x = a.duplicate();
    let y = b.duplicate();
    let Term { coeff: ca, factors: fa } = x;
    let Term { coeff: cb, factors: fb } = y;
    let mut fa = fa;
    let mut fb = fb;
    let ghost fa0 = fa@;
    let ghost fb0 = fb@;
    fa.append(&mut fb);
    proof {
        assert(factors_view::<F>(fa@) =~= factors_view::<F>(fa0) + factors_view::<F>(fb0));
    }
    Term { coeff: <F as SemiRing>::multiply(ca, cb), factors: fa }
}

/// Every product of a term of `acc` with a term of `rhs`.
fn cross_exec<F: Field>(acc: &Vec<Term<F>>, rhs: &Vec<Term<F>>) -> (r: Vec<Term<F>>)
    ensures
        terms_view::<F>(r@) == cross::<F>(terms_view::<F>(acc@), terms_view::<F>(rhs@)),
{
    let ghost ta = terms_view::<F>(acc@);
    let ghost tr = terms_view::<F>(rhs@);
    let mut out: Vec<Term<F>> = Vec::new();
    let mut i: usize = 0;
    proof {
        assert(ta.take(0) =~= Seq::<EMono<F>>::empty());
    }
    while i < acc.len()
        invariant
            i <= acc.len(),
            ta == terms_view::<F>(acc@),
            tr == terms_view::<F>(rhs@),
            terms_view::<F>(out@) == cross::<F>(ta.take(i as int), tr),
        decreases acc.len() - i,
    {
        let ghost base = terms_view::<F>(out@);
        let ghost lead = ta[i as int];
        let mut j: usize = 0;
        proof {
            assert(tr.take(0).map_values(|b: EMono<F>| product::<F>(lead, b)) =~= Seq::<
                EMono<F>,
            >::empty());
            assert(base + Seq::<EMono<F>>::empty() =~= base);
        }
        while j < rhs.len()
            invariant
                i < acc.len(),
                j <= rhs.len(),
                ta == terms_view::<F>(acc@),
                tr == terms_view::<F>(rhs@),
                lead == ta[i as int],
                terms_view::<F>(out@) == base + tr.take(j as int).map_values(
                    |b: EMono<F>| product::<F>(lead, b),
                ),
            decreases rhs.len() - j,
        {
            let t = times_term(&acc[i], &rhs[j]);
            let ghost shorter = out@;
            out.push(t);
            proof {
                lemma_terms_view_push::<F>(shorter, t);
                assert(tr.take(j + 1).map_values(|b: EMono<F>| product::<F>(lead, b))
                    =~= tr.take(j as int).map_values(|b: EMono<F>| product::<F>(lead, b)).push(
                    product::<F>(lead, tr[j as int]),
                ));
            }
            j = j + 1;
        }
        proof {
            assert(ta.take(i + 1).drop_last() =~= ta.take(i as int));
            assert(ta.take(i + 1).last() == lead);
            assert(tr.take(rhs.len() as int) =~= tr);
        }
        i = i + 1;
    }
    proof {
        assert(ta.take(acc.len() as int) =~= ta);
    }
    out
}

/// Each term negated.
fn negate_terms<F: Field>(ts: Vec<Term<F>>) -> (r: Vec<Term<F>>)
    ensures
        terms_view::<F>(r@) == terms_view::<F>(ts@).map_values(|m: EMono<F>| negated::<F>(m)),
{
    let ghost all = terms_view::<F>(ts@);
    let ghost goal = all.map_values(|m: EMono<F>| negated::<F>(m));
    let mut rest = ts;
    let mut out: Vec<Term<F>> = Vec::new();
    proof {
        assert(goal.take(0) =~= Seq::<EMono<F>>::empty());
        assert(terms_view::<F>(rest@) =~= all.skip(0));
    }
    while rest.len() > 0
        invariant
            rest@.len() <= all.len(),
            goal == all.map_values(|m: EMono<F>| negated::<F>(m)),
            terms_view::<F>(rest@) == all.skip(all.len() - rest@.len()),
            terms_view::<F>(out@) == goal.take(all.len() - rest@.len()),
        decreases rest.len(),
    {
        let ghost k = all.len() - rest@.len();
        let ghost before = rest@;
        let item = rest.remove(0);
        proof {
            assert(item == before[0]);
            assert(terms_view::<F>(before)[0] == item@);
            assert(all.skip(k)[0] == all[k]);
            assert(rest@ =~= before.drop_first());
            lemma_terms_view_drop_first::<F>(before);
            assert(all.skip(k).drop_first() =~= all.skip(k + 1));
        }
        let Term { coeff, factors } = item;
        let t = Term { coeff: <F as Ring>::negate(coeff), factors };
        let ghost shorter = out@;
        out.push(t);
        proof {
            lemma_terms_view_push::<F>(shorter, t);
            assert(goal.take(k + 1) =~= goal.take(k).push(goal[k]));
        }
    }
    proof {
        assert(goal.take(all.len() as int) =~= goal);
    }
    out
}

/// The monomials of a sum, prefix by prefix.
proof fn lemma_expand_sum_prefix<F: Field>(xs: Seq<ETermOf<F>>, fuel: nat, k: int)
    requires
        0 <= k < xs.len(),
        expand_sum::<F>(xs, fuel) is Some,
    ensures
        expand_sum::<F>(xs.take(k), fuel) is Some,
        expand::<F>(xs[k], fuel) is Some,
        expand_sum::<F>(xs.take(k + 1), fuel) == Some(
            expand_sum::<F>(xs.take(k), fuel)->Some_0 + expand::<F>(xs[k], fuel)->Some_0,
        ),
    decreases xs.len(),
{
    if k == xs.len() - 1 {
        assert(xs.take(k + 1) =~= xs);
        assert(xs.drop_last() =~= xs.take(k));
    } else {
        assert(xs.drop_last().take(k) =~= xs.take(k));
        assert(xs.drop_last().take(k + 1) =~= xs.take(k + 1));
        assert(xs.drop_last()[k] == xs[k]);
        lemma_expand_sum_prefix::<F>(xs.drop_last(), fuel, k);
    }
}

/// The monomials of a product, prefix by prefix.
proof fn lemma_expand_product_prefix<F: Field>(xs: Seq<ETermOf<F>>, fuel: nat, k: int)
    requires
        0 <= k < xs.len(),
        expand_product::<F>(xs, fuel) is Some,
    ensures
        expand_product::<F>(xs.take(k), fuel) is Some,
        expand::<F>(xs[k], fuel) is Some,
        expand_product::<F>(xs.take(k + 1), fuel) == Some(
            cross::<F>(
                expand_product::<F>(xs.take(k), fuel)->Some_0,
                expand::<F>(xs[k], fuel)->Some_0,
            ),
        ),
    decreases xs.len(),
{
    if k == xs.len() - 1 {
        assert(xs.take(k + 1) =~= xs);
        assert(xs.drop_last() =~= xs.take(k));
    } else {
        assert(xs.drop_last().take(k) =~= xs.take(k));
        assert(xs.drop_last().take(k + 1) =~= xs.take(k + 1));
        assert(xs.drop_last()[k] == xs[k]);
        lemma_expand_product_prefix::<F>(xs.drop_last(), fuel, k);
    }
}

/// Whether a factor list has a sum to a positive power, one factor more.
proof fn lemma_positive_sum_push<V>(fs: Seq<(EAtom<V>, int)>, x: (EAtom<V>, int))
    ensures
        has_positive_sum(fs.push(x)) == (has_positive_sum(fs) || (x.0 is Sum && x.1 > 0)),
{
    let longer = fs.push(x);
    if has_positive_sum(fs) {
        let i = choose|i: int| 0 <= i < fs.len() && (#[trigger] fs[i]).0 is Sum && fs[i].1 > 0;
        assert(longer[i] == fs[i]);
    }
    if x.0 is Sum && x.1 > 0 {
        assert(longer[fs.len() as int] == x);
    }
    if has_positive_sum(longer) {
        let i = choose|i: int| 0 <= i < longer.len() && (#[trigger] longer[i]).0 is Sum && longer[i].1
            > 0;
        if i < fs.len() {
            assert(longer[i] == fs[i]);
        }
    }
}

/// The monomials of a canonical list have non-zero coefficients.
proof fn lemma_canonical_nonzero<F: Field>(ms: Seq<EMono<F>>, i: int)
    requires
        canonical::<F>(ms) is Some,
        0 <= i < canonical::<F>(ms)->Some_0.len(),
    ensures
        canonical::<F>(ms)->Some_0[i].coeff != zero::<F>(),
{
    let cs = canonical_each(ms)->Some_0;
    let merged = merge_monomials::<F>(sort_stable(cs, monomial_after()));
    merged.lemma_filter_pred(nonzero_coeff::<F>(), i);
}

impl<F: Field> ElementaryExpr<F> {
    /// The monomials of the expression, before they are made canonical.
    fn expand_exec(&self, Ghost(fuel): Ghost<nat>) -> (r: Vec<Term<F>>)
        requires
            expand::<F>(self@, fuel) is Some,
        ensures
            expand::<F>(self@, fuel) == Some(terms_view::<F>(r@)),
        decreases fuel, self, 2int,
    {
        match self {
            ElementaryExpr::Const(c) => single(constant_term(c.duplicate())),
            ElementaryExpr::Symbol(s) => {
                let mut factors: Vec<(Atom<F>, isize)> = Vec::new();
                factors.push((Atom::Symbol(s.clone()), 1));
                let t = Term { coeff: <F as SemiRing>::one(), factors };
                proof {
                    assert(factors_view::<F>(t.factors@) =~= seq![(EAtom::Symbol(s@), 1int)]);
                }
                single(t)
            },
            ElementaryExpr::Neg(x) => {
                let ts = x.expand_exec(Ghost(fuel));
                negate_terms(ts)
            },
            ElementaryExpr::Add(xs) => Self::expand_sum_exec(xs, Ghost(fuel), Ghost(*self)),
            ElementaryExpr::Mul(xs) => Self::expand_product_exec(xs, Ghost(fuel), Ghost(*self)),
            ElementaryExpr::Pow { base, exponent } => base.expand_power_exec(*exponent, Ghost(fuel)),
            ElementaryExpr::Fn(kind, a) => a.expand_function_exec(*kind, Ghost(fuel)),
            ElementaryExpr::D { wrt, inner } => {
                let derived = inner.derivative_within(
                    wrt,
                    Ghost(ElementaryExpr::<F>::d_depth(inner@)),
                );
                derived.expand_exec(Ghost((fuel - 1) as nat))
            },
        }
    }

    /// The monomials of the sum of the children `xs` of `whole`.
    fn expand_sum_exec(xs: &Vec<Self>, Ghost(fuel): Ghost<nat>, Ghost(whole): Ghost<Self>) -> (r: Vec<Term<F>>)
        requires
            whole == ElementaryExpr::<F>::Add(*xs),
            expand_sum::<F>(Self::terms(xs@), fuel) is Some,
        ensures
            expand_sum::<F>(Self::terms(xs@), fuel) == Some(terms_view::<F>(r@)),
        decreases fuel, whole, 1int,
    {
        let ghost tx = Self::terms(xs@);
        proof {
            Self::lemma_terms(xs@);
            assert(tx.take(0) =~= Seq::<ETermOf<F>>::empty());
        }
        let mut out: Vec<Term<F>> = Vec::new();
        let mut i: usize = 0;
        while i < xs.len()
            invariant
                whole == ElementaryExpr::<F>::Add(*xs),
                tx == Self::terms(xs@),
                tx.len() == xs.len(),
                forall|j: int| 0 <= j < xs.len() ==> #[trigger] tx[j] == xs@[j]@,
                expand_sum::<F>(tx, fuel) is Some,
                i <= xs.len(),
                expand_sum::<F>(tx.take(i as int), fuel) == Some(terms_view::<F>(out@)),
            decreases xs.len() - i,
        {
            proof {
                assert(decreases_to!(whole => whole->Add_0));
                assert(decreases_to!(xs => xs@));
                assert(decreases_to!(xs@ => xs@[i as int]));
                lemma_expand_sum_prefix::<F>(tx, fuel, i as int);
            }
            let mut part = xs[i].expand_exec(Ghost(fuel));
            let ghost before = out@;
            let ghost added = part@;
            out.append(&mut part);
            proof {
                assert(terms_view::<F>(out@) =~= terms_view::<F>(before) + terms_view::<F>(added));
            }
            i = i + 1;
        }
        proof {
            assert(tx.take(xs.len() as int) =~= tx);
        }
        out
    }

    /// The monomials of the product of the children `xs` of `whole`.
    fn expand_product_exec(xs: &Vec<Self>, Ghost(fuel): Ghost<nat>, Ghost(whole): Ghost<Self>) -> (r: Vec<Term<F>>)
        requires
            whole == ElementaryExpr::<F>::Mul(*xs),
            expand_product::<F>(Self::terms(xs@), fuel) is Some,
        ensures
            expand_product::<F>(Self::terms(xs@), fuel) == Some(terms_view::<F>(r@)),
        decreases fuel, whole, 1int,
    {
        let ghost tx = Self::terms(xs@);
        proof {
            Self::lemma_terms(xs@);
            assert(tx.take(0) =~= Seq::<ETermOf<F>>::empty());
        }
        let mut acc = single(constant_term(<F as SemiRing>::one()));
        let mut i: usize = 0;
        while i < xs.len()
            invariant
                whole == ElementaryExpr::<F>::Mul(*xs),
                tx == Self::terms(xs@),
                tx.len() == xs.len(),
                forall|j: int| 0 <= j < xs.len() ==> #[trigger] tx[j] == xs@[j]@,
                expand_product::<F>(tx, fuel) is Some,
                i <= xs.len(),
                expand_product::<F>(tx.take(i as int), fuel) == Some(terms_view::<F>(acc@)),
            decreases xs.len() - i,
        {
            proof {
                assert(decreases_to!(whole => whole->Mul_0));
                assert(decreases_to!(xs => xs@));
                assert(decreases_to!(xs@ => xs@[i as int]));
                lemma_expand_product_prefix::<F>(tx, fuel, i as int);
            }
            let rhs = xs[i].expand_exec(Ghost(fuel));
            acc = cross_exec(&acc, &rhs);
            i = i + 1;
        }
        proof {
            assert(tx.take(xs.len() as int) =~= tx);
        }
        acc
    }

    /// The monomials of `self^n`.
    fn expand_power_exec(&self, n: isize, Ghost(fuel): Ghost<nat>) -> (r: Vec<Term<F>>)
        requires
            expand_power::<F>(self@, n as int, fuel) is Some,
        ensures
            expand_power::<F>(self@, n as int, fuel) == Some(terms_view::<F>(r@)),
        decreases fuel, self, 3int,
    {
        let ts = self.expand_exec(Ghost(fuel));
        let cb = canonical_exec(ts);
        let ghost cbv = terms_view::<F>(cb@);
        if n == 0 {
            return single(constant_term(<F as SemiRing>::one()));
        }
        if n > 0 {
            let mut acc = single(constant_term(<F as SemiRing>::one()));
            let mut k: isize = 0;
            while k < n
                invariant
                    0 <= k <= n,
                    cbv == terms_view::<F>(cb@),
                    terms_view::<F>(acc@) == cross_power::<F>(cbv, k as nat),
                decreases n - k,
            {
                acc = cross_exec(&acc, &cb);
                k = k + 1;
            }
            return acc;
        }
        if cb.len() != 1 {
            let sum = from_terms(cb);
            let mut factors: Vec<(Atom<F>, isize)> = Vec::new();
            factors.push((Atom::Sum(sum), n));
            let t = Term { coeff: <F as SemiRing>::one(), factors };
            proof {
                assert(factors_view::<F>(t.factors@) =~= seq![
                    (EAtom::Sum(monomials_expr::<F>(cbv)), n as int),
                ]);
            }
            return single(t);
        }
        let mut cb = cb;
        let popped = cb.pop();
        let t = match popped {
            Some(t) => t,
            None => {
                return Vec::new();
            },
        };
        let ghost tv = cbv[0];
        proof {
            assert(t@ == tv);
            lemma_canonical_nonzero::<F>(terms_view::<F>(ts@), 0);
        }
        let Term { coeff, factors } = t;
        let inverse = <F as Field>::invert(coeff);
        let magnitude: usize = ((-(n + 1)) as usize) + 1;
        let mut c = <F as SemiRing>::one();
        let mut j: usize = 0;
        while j < magnitude
            invariant
                j <= magnitude,
                c@ == repeat_times::<F>(inverse@, j as nat),
            decreases magnitude - j,
        {
            c = <F as SemiRing>::multiply(c, inverse.duplicate());
            j = j + 1;
        }
        let ghost fv = tv.factors;
        let ghost scaled_goal = fv.map_values(|p: EFactor<F>| (p.0, p.1 * n));
        let mut rest = factors;
        let mut scaled: Vec<(Atom<F>, isize)> = Vec::new();
        let mut positive_sum = false;
        proof {
            assert(scaled_goal.take(0) =~= Seq::<EFactor<F>>::empty());
            assert(factors_view::<F>(rest@) =~= fv.skip(0));
            assert(!has_positive_sum(Seq::<EFactor<F>>::empty()));
        }
        while rest.len() > 0
            invariant
                rest@.len() <= fv.len(),
                n < 0,
                forall|i: int| 0 <= i < fv.len() ==> fits_isize(#[trigger] fv[i].1 * n),
                scaled_goal == fv.map_values(|p: EFactor<F>| (p.0, p.1 * n)),
                factors_view::<F>(rest@) == fv.skip(fv.len() - rest@.len()),
                factors_view::<F>(scaled@) == scaled_goal.take(fv.len() - rest@.len()),
                positive_sum == has_positive_sum(factors_view::<F>(scaled@)),
            decreases rest.len(),
        {
            let ghost k = fv.len() - rest@.len();
            let ghost before = rest@;
            let item = rest.remove(0);
            proof {
                assert(item == before[0]);
                assert(factors_view::<F>(before)[0] == (item.0@, item.1 as int));
                assert(fv.skip(k)[0] == fv[k]);
                assert(rest@ =~= before.drop_first());
                lemma_factors_view_drop_first::<F>(before);
                assert(fv.skip(k).drop_first() =~= fv.skip(k + 1));
                assert(fits_isize(fv[k].1 * n));
            }
            let (atom, e) = item;
            let power = e * n;
            let is_sum = match &atom {
                Atom::Sum(_) => true,
                _ => false,
            };
            if is_sum && power > 0 {
                positive_sum = true;
            }
            let ghost shorter = scaled@;
            scaled.push((atom, power));
            proof {
                lemma_factors_view_push::<F>(shorter, (atom, power));
                lemma_positive_sum_push(factors_view::<F>(shorter), (atom@, power as int));
                assert(scaled_goal.take(k + 1) =~= scaled_goal.take(k).push(scaled_goal[k]));
            }
        }
        proof {
            assert(scaled_goal.take(fv.len() as int) =~= scaled_goal);
            assert(magnitude == -n);
        }
        let inverted = Term { coeff: c, factors: scaled };
        if positive_sum {
            let again = inverted.into_expr();
            again.expand_exec(Ghost((fuel - 1) as nat))
        } else {
            single(inverted)
        }
    }

    /// The monomials of `kind(self)`.
    fn expand_function_exec(&self, kind: Elementary, Ghost(fuel): Ghost<nat>) -> (r: Vec<Term<F>>)
        requires
            expand_function::<F>(kind, self@, fuel) is Some,
        ensures
            expand_function::<F>(kind, self@, fuel) == Some(terms_view::<F>(r@)),
        decreases fuel, self, 3int,
    {
        let ts = self.expand_exec(Ghost(fuel));
        let cs = canonical_exec(ts);
        let x = from_terms(cs);
        let zero_value = <F as SemiRing>::zero();
        let one_value = <F as SemiRing>::one();
        match x {
            ElementaryExpr::Const(c) => {
                let is_zero = c.equals(&zero_value);
                let is_one = c.equals(&one_value);
                if kind == Elementary::Exp && is_zero {
                    single(constant_term(one_value))
                } else if kind == Elementary::Log && is_one {
                    single(constant_term(zero_value))
                } else if kind == Elementary::Sin && is_zero {
                    single(constant_term(zero_value))
                } else if kind == Elementary::Cos && is_zero {
                    single(constant_term(one_value))
                } else {
                    single(function_term(kind, ElementaryExpr::Const(c)))
                }
            },
            ElementaryExpr::Fn(inner, u) => {
                if (kind == Elementary::Exp && inner == Elementary::Log) || (kind
                    == Elementary::Log && inner == Elementary::Exp) {
                    u.expand_exec(Ghost((fuel - 1) as nat))
                } else {
                    single(function_term(kind, ElementaryExpr::Fn(inner, u)))
                }
            },
            other => single(function_term(kind, other)),
        }
    }
}

/// Canonicalizes elementary expressions: linearity, integer powers
/// (negative ones are division), folding of the elementary functions and
/// symbolic differentiation (`D` never survives). The canonical form is a
/// sum of monomials `coeff * atom_1^e_1 * ... * atom_n^e_n`, factors and
/// monomials sorted structurally with like ones collected.
pub struct ElementaryRewriter<F> {
    marker: std::marker::PhantomData<F>,
}

impl<F: Field> ElementaryRewriter<F> {
    pub fn new() -> (r: Self) {
        ElementaryRewriter { marker: std::marker::PhantomData }
    }

    /// Rewrites `expr` into its canonical form, where the rewrite finishes
    /// without inverting zero and with every exponent within `isize`.
    pub fn rewrite_expr(&self, expr: &mut ElementaryExpr<F>)
        requires
            normalizable::<F>(old(expr)@),
        ensures
            final(expr)@ == elementary_normal_form::<F>(old(expr)@),
    {
        let mut e = ElementaryExpr::Add(Vec::new());
        std::mem::swap(expr, &mut e);
        *expr = self.rewrited_expr(e);
    }

    /// The canonical form of `expr`, where the rewrite finishes without
    /// inverting zero and with every exponent within `isize`.
    pub fn rewrited_expr(&self, expr: ElementaryExpr<F>) -> (r: ElementaryExpr<F>)
        requires
            normalizable::<F>(expr@),
        ensures
            r@ == elementary_normal_form::<F>(expr@),
    {
        let ghost fuel = choose|fuel: nat| normalizes::<F>(expr@, fuel);
        let ts = expr.expand_exec(Ghost(fuel));
        let cs = canonical_exec(ts);
        from_terms(cs)
    }
}

/// More budget changes nothing once the expansion finishes.
proof fn lemma_expand_monotone<F: Field>(t: ETermOf<F>, f: nat, g: nat)
    requires
        f <= g,
        expand::<F>(t, f) is Some,
    ensures
        expand::<F>(t, g) == expand::<F>(t, f),
    decreases f, t, 2int,
{
    match t {
        ETerm::Const(_) => {},
        ETerm::Symbol(_) => {},
        ETerm::Neg(x) => {
            lemma_expand_monotone::<F>(*x, f, g);
        },
        ETerm::Add(xs) => {
            lemma_expand_sum_monotone::<F>(xs, f, g);
        },
        ETerm::Mul(xs) => {
            lemma_expand_product_monotone::<F>(xs, f, g);
        },
        ETerm::Pow(b, n) => {
            lemma_expand_power_monotone::<F>(*b, n, f, g);
        },
        ETerm::Fn(k, a) => {
            lemma_expand_function_monotone::<F>(k, *a, f, g);
        },
        ETerm::D(w, inner) => {
            lemma_expand_monotone::<F>(
                ElementaryExpr::<F>::derivative_of(*inner, w),
                (f - 1) as nat,
                (g - 1) as nat,
            );
        },
    }
}

proof fn lemma_expand_sum_monotone<F: Field>(xs: Seq<ETermOf<F>>, f: nat, g: nat)
    requires
        f <= g,
        expand_sum::<F>(xs, f) is Some,
    ensures
        expand_sum::<F>(xs, g) == expand_sum::<F>(xs, f),
    decreases f, xs, 1int,
{
    if xs.len() > 0 {
        lemma_expand_sum_monotone::<F>(xs.drop_last(), f, g);
        lemma_expand_monotone::<F>(xs[xs.len() - 1], f, g);
    }
}

proof fn lemma_expand_product_monotone<F: Field>(xs: Seq<ETermOf<F>>, f: nat, g: nat)
    requires
        f <= g,
        expand_product::<F>(xs, f) is Some,
    ensures
        expand_product::<F>(xs, g) == expand_product::<F>(xs, f),
    decreases f, xs, 1int,
{
    if xs.len() > 0 {
        lemma_expand_product_monotone::<F>(xs.drop_last(), f, g);
        lemma_expand_monotone::<F>(xs[xs.len() - 1], f, g);
    }
}

proof fn lemma_expand_power_monotone<F: Field>(b: ETermOf<F>, n: int, f: nat, g: nat)
    requires
        f <= g,
        expand_power::<F>(b, n, f) is Some,
    ensures
        expand_power::<F>(b, n, g) == expand_power::<F>(b, n, f),
    decreases f, b, 3int,
{
    lemma_expand_monotone::<F>(b, f, g);
    let cb = canonical::<F>(expand::<F>(b, f)->Some_0)->Some_0;
    if n < 0 && cb.len() == 1 {
        let t = cb[0];
        let inverted = Monomial {
            coeff: repeat_times::<F>(F::spec_invert(t.coeff), (-n) as nat),
            factors: t.factors.map_values(|p: EFactor<F>| (p.0, p.1 * n)),
        };
        if has_positive_sum(inverted.factors) {
            lemma_expand_monotone::<F>(monomial_expr::<F>(inverted), (f - 1) as nat, (g - 1) as nat);
        }
    }
}

proof fn lemma_expand_function_monotone<F: Field>(kind: Elementary, a: ETermOf<F>, f: nat, g: nat)
    requires
        f <= g,
        expand_function::<F>(kind, a, f) is Some,
    ensures
        expand_function::<F>(kind, a, g) == expand_function::<F>(kind, a, f),
    decreases f, a, 3int,
{
    lemma_expand_monotone::<F>(a, f, g);
    let x = monomials_expr::<F>(canonical::<F>(expand::<F>(a, f)->Some_0)->Some_0);
    match x {
        ETerm::Fn(inner, u) => {
            if (kind == Elementary::Exp && inner == Elementary::Log) || (kind == Elementary::Log
                && inner == Elementary::Exp) {
                lemma_expand_monotone::<F>(*u, (f - 1) as nat, (g - 1) as nat);
            }
        },
        _ => {},
    }
}

/// The canonical form does not depend on how many nested rewrites are
/// allowed: every budget within which the rewrite finishes gives it.
pub proof fn lemma_normal_form_within<F: Field>(t: ETermOf<F>, fuel: nat)
    requires
        normalizes::<F>(t, fuel),
    ensures
        elementary_normal_form::<F>(t) == normal_form_within::<F>(t, fuel),
{
    let chosen = choose|fuel: nat| normalizes::<F>(t, fuel);
    assert(normalizes::<F>(t, chosen));
    if chosen <= fuel {
        lemma_expand_monotone::<F>(t, chosen, fuel);
    } else {
        lemma_expand_monotone::<F>(t, fuel, chosen);
    }
}

/// Whether `t` has no negation and no unevaluated derivative anywhere.
pub open spec fn evaluated<V>(t: ETerm<V>) -> bool
    decreases t,
{
    match t {
        ETerm::Const(_) => true,
        ETerm::Symbol(_) => true,
        ETerm::Neg(_) => false,
        ETerm::Add(v) => all_evaluated(v),
        ETerm::Mul(v) => all_evaluated(v),
        ETerm::Pow(b, _) => evaluated(*b),
        ETerm::Fn(_, a) => evaluated(*a),
        ETerm::D(_, _) => false,
    }
}

/// Whether every expression of a list is [`evaluated`].
pub open spec fn all_evaluated<V>(v: Seq<ETerm<V>>) -> bool
    decreases v,
{
    if v.len() == 0 {
        true
    } else {
        evaluated(v[0]) && all_evaluated(v.drop_first())
    }
}

proof fn lemma_all_evaluated<V>(v: Seq<ETerm<V>>)
    requires
        forall|i: int| 0 <= i < v.len() ==> evaluated(#[trigger] v[i]),
    ensures
        all_evaluated(v),
    decreases v.len(),
{
    if v.len() > 0 {
        assert(evaluated(v[0]));
        assert forall|i: int| 0 <= i < v.drop_first().len() implies evaluated(
            #[trigger] v.drop_first()[i],
        ) by {
            assert(v.drop_first()[i] == v[i + 1]);
        }
        lemma_all_evaluated(v.drop_first());
    }
}

/// Whether an atom holds only evaluated expressions.
pub open spec fn atom_evaluated<V>(a: EAtom<V>) -> bool {
    match a {
        EAtom::Symbol(_) => true,
        EAtom::Fn(_, x) => evaluated(x),
        EAtom::Sum(e) => evaluated(e),
    }
}

/// Whether every factor of a monomial has an evaluated atom.
pub open spec fn monomial_evaluated<V>(m: Monomial<V>) -> bool {
    forall|p: (EAtom<V>, int)| m.factors.contains(p) ==> atom_evaluated(p.0)
}

/// Whether every monomial of a list is [`monomial_evaluated`].
pub open spec fn monomials_evaluated<V>(ms: Seq<Monomial<V>>) -> bool {
    forall|m: Monomial<V>| ms.contains(m) ==> monomial_evaluated(m)
}

proof fn lemma_monomial_expr_evaluated<F: Field>(m: EMono<F>)
    requires
        monomial_evaluated(m),
    ensures
        evaluated(monomial_expr::<F>(m)),
{
    let fs = m.factors.map_values(|p: EFactor<F>| factor_expr(p));
    assert forall|i: int| 0 <= i < fs.len() implies evaluated(#[trigger] fs[i]) by {
        let p = m.factors[i];
        assert(m.factors.contains(p));
        assert(atom_evaluated(p.0));
        match p.0 {
            EAtom::Symbol(_) => {},
            EAtom::Fn(k, x) => {
                assert(evaluated(ETerm::Fn(k, Box::new(x))));
            },
            EAtom::Sum(_) => {},
        }
        assert(evaluated(atom_expr(p.0)));
        assert(fs[i] == factor_expr(p));
    }
    let all = if m.factors.len() == 0 || m.coeff != one::<F>() {
        seq![ETerm::Const(m.coeff)] + fs
    } else {
        fs
    };
    assert forall|i: int| 0 <= i < all.len() implies evaluated(#[trigger] all[i]) by {
        if m.factors.len() == 0 || m.coeff != one::<F>() {
            if i > 0 {
                assert(all[i] == fs[i - 1]);
            }
        }
    }
    lemma_all_evaluated(all);
}

proof fn lemma_monomials_expr_evaluated<F: Field>(ms: Seq<EMono<F>>)
    requires
        monomials_evaluated(ms),
    ensures
        evaluated(monomials_expr::<F>(ms)),
{
    let es = ms.map_values(|m: EMono<F>| monomial_expr::<F>(m));
    assert forall|i: int| 0 <= i < es.len() implies evaluated(#[trigger] es[i]) by {
        assert(ms.contains(ms[i]));
        lemma_monomial_expr_evaluated::<F>(ms[i]);
    }
    if ms.len() == 1 {
        assert(ms.contains(ms[0]));
        lemma_monomial_expr_evaluated::<F>(ms[0]);
    }
    lemma_all_evaluated(es);
}

/// Every entry of an insertion is the new entry or an old one.
proof fn lemma_insert_stable_elements<T>(sorted: Seq<T>, x: T, after: spec_fn(T, T) -> bool)
    ensures
        forall|y: T| #[trigger] insert_stable(sorted, x, after).contains(y) ==> y == x
            || sorted.contains(y),
    decreases sorted.len(),
{
    if sorted.len() > 0 && after(sorted.last(), x) {
        lemma_insert_stable_elements(sorted.drop_last(), x, after);
        let r = insert_stable(sorted, x, after);
        assert forall|y: T| #[trigger] r.contains(y) implies y == x || sorted.contains(y) by {
            let i = choose|i: int| 0 <= i < r.len() && r[i] == y;
            let inner = insert_stable(sorted.drop_last(), x, after);
            if i < inner.len() {
                assert(inner.contains(y));
                if y != x {
                    let j = choose|j: int| 0 <= j < sorted.drop_last().len() && sorted.drop_last()[j]
                        == y;
                    assert(sorted[j] == y);
                }
            } else {
                assert(sorted[sorted.len() - 1] == y);
            }
        }
    } else if sorted.len() > 0 {
        let r = sorted.push(x);
        assert forall|y: T| #[trigger] r.contains(y) implies y == x || sorted.contains(y) by {
            let i = choose|i: int| 0 <= i < r.len() && r[i] == y;
            if i < sorted.len() {
                assert(sorted[i] == y);
            }
        }
    } else {
        assert forall|y: T| #[trigger] seq![x].contains(y) implies y == x by {
            let i = choose|i: int| 0 <= i < 1 && seq![x][i] == y;
        }
    }
}

/// Every entry of a sorted list is an entry of the list.
proof fn lemma_sort_stable_elements<T>(s: Seq<T>, after: spec_fn(T, T) -> bool)
    ensures
        forall|y: T| #[trigger] sort_stable(s, after).contains(y) ==> s.contains(y),
    decreases s.len(),
{
    if s.len() > 0 {
        lemma_sort_stable_elements(s.drop_last(), after);
        lemma_insert_stable_elements(sort_stable(s.drop_last(), after), s.last(), after);
        assert forall|y: T| #[trigger] sort_stable(s, after).contains(y) implies s.contains(y) by {
            if y == s.last() {
                assert(s[s.len() - 1] == y);
            } else {
                assert(sort_stable(s.drop_last(), after).contains(y));
                let j = choose|j: int| 0 <= j < s.drop_last().len() && s.drop_last()[j] == y;
                assert(s[j] == y);
            }
        }
    }
}

/// Every atom of a merged factor list is an atom of the list.
proof fn lemma_merge_factors_atoms<V>(fs: Seq<(EAtom<V>, int)>)
    requires
        merge_factors(fs) is Some,
    ensures
        forall|p: (EAtom<V>, int)| #[trigger] merge_factors(fs)->Some_0.contains(p) ==> exists|q: (
            EAtom<V>,
            int,
        )| #[trigger] fs.contains(q) && q.0 == p.0,
    decreases fs.len(),
{
    if fs.len() > 0 {
        lemma_merge_factors_atoms(fs.drop_last());
        let m = merge_factors(fs.drop_last())->Some_0;
        let r = merge_factors(fs)->Some_0;
        let a = fs.last().0;
        assert(fs.contains(fs.last()));
        assert forall|p: (EAtom<V>, int)| #[trigger] r.contains(p) implies exists|q: (EAtom<V>, int)|
            #[trigger] fs.contains(q) && q.0 == p.0 by {
            let i = choose|i: int| 0 <= i < r.len() && r[i] == p;
            if p.0 == a {
                assert(fs.contains(fs.last()));
            } else {
                if m.len() > 0 && m.last().0 == a {
                    assert(r == m.drop_last().push((a, m.last().1 + fs.last().1)));
                    assert(i < m.len() - 1);
                    assert(m[i] == p);
                } else {
                    assert(r == m.push(fs.last()));
                    assert(i < m.len());
                    assert(m[i] == p);
                }
                assert(m.contains(p));
                let q = choose|q: (EAtom<V>, int)| #[trigger] fs.drop_last().contains(q) && q.0 == p.0;
                let j = choose|j: int| 0 <= j < fs.drop_last().len() && fs.drop_last()[j] == q;
                assert(fs[j] == q);
                assert(fs.contains(q));
            }
        }
    }
}

proof fn lemma_canonical_monomial_evaluated<V>(m: Monomial<V>)
    requires
        monomial_evaluated(m),
        canonical_monomial(m) is Some,
    ensures
        monomial_evaluated(canonical_monomial(m)->Some_0),
{
    let sorted = sort_stable(m.factors, factor_after());
    lemma_sort_stable_elements(m.factors, factor_after());
    lemma_merge_factors_atoms(sorted);
    let merged = merge_factors(sorted)->Some_0;
    let kept = merged.filter(nonzero_exponent());
    assert forall|p: (EAtom<V>, int)| kept.contains(p) implies atom_evaluated(p.0) by {
        merged.lemma_filter_contains_rev(nonzero_exponent(), p);
        let q = choose|q: (EAtom<V>, int)| #[trigger] sorted.contains(q) && q.0 == p.0;
        assert(m.factors.contains(q));
    }
}

proof fn lemma_canonical_each_evaluated<V>(ms: Seq<Monomial<V>>)
    requires
        monomials_evaluated(ms),
        canonical_each(ms) is Some,
    ensures
        monomials_evaluated(canonical_each(ms)->Some_0),
    decreases ms.len(),
{
    if ms.len() > 0 {
        assert forall|m: Monomial<V>| ms.drop_last().contains(m) implies monomial_evaluated(m) by {
            let j = choose|j: int| 0 <= j < ms.drop_last().len() && ms.drop_last()[j] == m;
            assert(ms[j] == m);
        }
        lemma_canonical_each_evaluated(ms.drop_last());
        assert(ms.contains(ms.last()));
        lemma_canonical_monomial_evaluated(ms.last());
        let done = canonical_each(ms.drop_last())->Some_0;
        let r = canonical_each(ms)->Some_0;
        assert forall|m: Monomial<V>| r.contains(m) implies monomial_evaluated(m) by {
            let i = choose|i: int| 0 <= i < r.len() && r[i] == m;
            if i < done.len() {
                assert(done[i] == m);
                assert(done.contains(m));
            }
        }
    }
}

/// Every monomial of a merged list has the factors of one of the list.
proof fn lemma_merge_monomials_factors<F: Field>(ms: Seq<EMono<F>>)
    ensures
        forall|m: EMono<F>| #[trigger] merge_monomials::<F>(ms).contains(m) ==> exists|n: EMono<F>|
            #[trigger] ms.contains(n) && n.factors == m.factors,
    decreases ms.len(),
{
    if ms.len() > 0 {
        lemma_merge_monomials_factors::<F>(ms.drop_last());
        let done = merge_monomials::<F>(ms.drop_last());
        let r = merge_monomials::<F>(ms);
        let t = ms.last();
        assert(ms.contains(t));
        assert forall|m: EMono<F>| #[trigger] r.contains(m) implies exists|n: EMono<F>|
            #[trigger] ms.contains(n) && n.factors == m.factors by {
            let i = choose|i: int| 0 <= i < r.len() && r[i] == m;
            if m.factors == t.factors {
                assert(ms.contains(t));
            } else {
                if done.len() > 0 && done.last().factors == t.factors {
                    assert(i < done.len() - 1);
                    assert(done[i] == m);
                } else {
                    assert(i < done.len());
                    assert(done[i] == m);
                }
                assert(done.contains(m));
                let n = choose|n: EMono<F>| #[trigger] ms.drop_last().contains(n) && n.factors
                    == m.factors;
                let j = choose|j: int| 0 <= j < ms.drop_last().len() && ms.drop_last()[j] == n;
                assert(ms[j] == n);
                assert(ms.contains(n));
            }
        }
    }
}

proof fn lemma_canonical_evaluated<F: Field>(ms: Seq<EMono<F>>)
    requires
        monomials_evaluated(ms),
        canonical::<F>(ms) is Some,
    ensures
        monomials_evaluated(canonical::<F>(ms)->Some_0),
{
    lemma_canonical_each_evaluated(ms);
    let cs = canonical_each(ms)->Some_0;
    let sorted = sort_stable(cs, monomial_after());
    lemma_sort_stable_elements(cs, monomial_after());
    lemma_merge_monomials_factors::<F>(sorted);
    let merged = merge_monomials::<F>(sorted);
    let kept = merged.filter(nonzero_coeff::<F>());
    assert forall|m: EMono<F>| kept.contains(m) implies monomial_evaluated(m) by {
        merged.lemma_filter_contains_rev(nonzero_coeff::<F>(), m);
        assert(merged.contains(m));
        let n = choose|n: EMono<F>| #[trigger] sorted.contains(n) && n.factors == m.factors;
        assert(cs.contains(n));
        assert(monomial_evaluated(n));
        assert forall|p: EFactor<F>| m.factors.contains(p) implies atom_evaluated(p.0) by {
            assert(n.factors.contains(p));
        }
    }
}

proof fn lemma_cross_evaluated<F: Field>(acc: Seq<EMono<F>>, rhs: Seq<EMono<F>>)
    requires
        monomials_evaluated(acc),
        monomials_evaluated(rhs),
    ensures
        monomials_evaluated(cross::<F>(acc, rhs)),
    decreases acc.len(),
{
    if acc.len() > 0 {
        assert forall|m: EMono<F>| acc.drop_last().contains(m) implies monomial_evaluated(m) by {
            let j = choose|j: int| 0 <= j < acc.drop_last().len() && acc.drop_last()[j] == m;
            assert(acc[j] == m);
        }
        lemma_cross_evaluated::<F>(acc.drop_last(), rhs);
        let left = cross::<F>(acc.drop_last(), rhs);
        let a = acc.last();
        assert(acc.contains(a));
        let right = rhs.map_values(|b: EMono<F>| product::<F>(a, b));
        assert(cross::<F>(acc, rhs) == left + right);
        assert forall|m: EMono<F>| (left + right).contains(m) implies monomial_evaluated(m) by {
            let i = choose|i: int| 0 <= i < (left + right).len() && (left + right)[i] == m;
            if i < left.len() {
                assert(left[i] == m);
                assert(left.contains(m));
            } else {
                let b = rhs[i - left.len()];
                assert(rhs.contains(b));
                assert(monomial_evaluated(a));
                assert(monomial_evaluated(b));
                assert(m == product::<F>(a, b));
                assert forall|p: EFactor<F>| m.factors.contains(p) implies atom_evaluated(p.0) by {
                    let k = choose|k: int| 0 <= k < m.factors.len() && m.factors[k] == p;
                    if k < a.factors.len() {
                        assert(a.factors[k] == p);
                        assert(a.factors.contains(p));
                    } else {
                        assert(b.factors[k - a.factors.len()] == p);
                        assert(b.factors.contains(p));
                    }
                }
            }
        }
    }
}

proof fn lemma_cross_power_evaluated<F: Field>(b: Seq<EMono<F>>, n: nat)
    requires
        monomials_evaluated(b),
    ensures
        monomials_evaluated(cross_power::<F>(b, n)),
    decreases n,
{
    if n == 0 {
        assert forall|m: EMono<F>| seq![unit::<F>()].contains(m) implies monomial_evaluated(m) by {
            let i = choose|i: int| 0 <= i < 1 && seq![unit::<F>()][i] == m;
        }
    } else {
        lemma_cross_power_evaluated::<F>(b, (n - 1) as nat);
        lemma_cross_evaluated::<F>(cross_power::<F>(b, (n - 1) as nat), b);
    }
}

/// A one-monomial list is evaluated where its monomial is.
proof fn lemma_single_evaluated<V>(m: Monomial<V>)
    requires
        monomial_evaluated(m),
    ensures
        monomials_evaluated(seq![m]),
{
    assert forall|n: Monomial<V>| seq![m].contains(n) implies monomial_evaluated(n) by {
        let i = choose|i: int| 0 <= i < 1 && seq![m][i] == n;
    }
}

/// Expansion only ever leaves evaluated expressions inside atoms.
proof fn lemma_expand_evaluated<F: Field>(t: ETermOf<F>, fuel: nat)
    requires
        expand::<F>(t, fuel) is Some,
    ensures
        monomials_evaluated(expand::<F>(t, fuel)->Some_0),
    decreases fuel, t, 2int,
{
    match t {
        ETerm::Const(c) => {
            lemma_single_evaluated(constant::<F>(c));
        },
        ETerm::Symbol(s) => {
            let m = Monomial { coeff: one::<F>(), factors: seq![(EAtom::<EValue<F>>::Symbol(s), 1int)] };
            assert forall|p: EFactor<F>| m.factors.contains(p) implies atom_evaluated(p.0) by {
                let i = choose|i: int| 0 <= i < 1 && m.factors[i] == p;
            }
            lemma_single_evaluated(m);
        },
        ETerm::Neg(x) => {
            lemma_expand_evaluated::<F>(*x, fuel);
            let ms = expand::<F>(*x, fuel)->Some_0;
            let r = ms.map_values(|m: EMono<F>| negated::<F>(m));
            assert forall|m: EMono<F>| r.contains(m) implies monomial_evaluated(m) by {
                let i = choose|i: int| 0 <= i < r.len() && r[i] == m;
                assert(ms.contains(ms[i]));
                assert(monomial_evaluated(ms[i]));
                assert(m.factors == ms[i].factors);
                assert forall|p: EFactor<F>| m.factors.contains(p) implies atom_evaluated(p.0) by {
                    assert(ms[i].factors.contains(p));
                }
            }
        },
        ETerm::Add(xs) => {
            lemma_expand_sum_evaluated::<F>(xs, fuel);
        },
        ETerm::Mul(xs) => {
            lemma_expand_product_evaluated::<F>(xs, fuel);
        },
        ETerm::Pow(b, n) => {
            lemma_expand_power_evaluated::<F>(*b, n, fuel);
        },
        ETerm::Fn(k, a) => {
            lemma_expand_function_evaluated::<F>(k, *a, fuel);
        },
        ETerm::D(w, inner) => {
            lemma_expand_evaluated::<F>(
                ElementaryExpr::<F>::derivative_of(*inner, w),
                (fuel - 1) as nat,
            );
        },
    }
}

proof fn lemma_expand_sum_evaluated<F: Field>(xs: Seq<ETermOf<F>>, fuel: nat)
    requires
        expand_sum::<F>(xs, fuel) is Some,
    ensures
        monomials_evaluated(expand_sum::<F>(xs, fuel)->Some_0),
    decreases fuel, xs, 1int,
{
    if xs.len() > 0 {
        lemma_expand_sum_evaluated::<F>(xs.drop_last(), fuel);
        lemma_expand_evaluated::<F>(xs[xs.len() - 1], fuel);
        let left = expand_sum::<F>(xs.drop_last(), fuel)->Some_0;
        let right = expand::<F>(xs[xs.len() - 1], fuel)->Some_0;
        assert forall|m: EMono<F>| (left + right).contains(m) implies monomial_evaluated(m) by {
            let i = choose|i: int| 0 <= i < (left + right).len() && (left + right)[i] == m;
            if i < left.len() {
                assert(left[i] == m);
                assert(left.contains(m));
            } else {
                assert(right[i - left.len()] == m);
                assert(right.contains(m));
            }
        }
    } else {
        assert forall|m: EMono<F>| Seq::<EMono<F>>::empty().contains(m) implies monomial_evaluated(
            m,
        ) by {}
    }
}

proof fn lemma_expand_product_evaluated<F: Field>(xs: Seq<ETermOf<F>>, fuel: nat)
    requires
        expand_product::<F>(xs, fuel) is Some,
    ensures
        monomials_evaluated(expand_product::<F>(xs, fuel)->Some_0),
    decreases fuel, xs, 1int,
{
    if xs.len() > 0 {
        lemma_expand_product_evaluated::<F>(xs.drop_last(), fuel);
        lemma_expand_evaluated::<F>(xs[xs.len() - 1], fuel);
        lemma_cross_evaluated::<F>(
            expand_product::<F>(xs.drop_last(), fuel)->Some_0,
            expand::<F>(xs[xs.len() - 1], fuel)->Some_0,
        );
    } else {
        lemma_single_evaluated(unit::<F>());
    }
}

proof fn lemma_expand_power_evaluated<F: Field>(b: ETermOf<F>, n: int, fuel: nat)
    requires
        expand_power::<F>(b, n, fuel) is Some,
    ensures
        monomials_evaluated(expand_power::<F>(b, n, fuel)->Some_0),
    decreases fuel, b, 3int,
{
    lemma_expand_evaluated::<F>(b, fuel);
    let bs = expand::<F>(b, fuel)->Some_0;
    lemma_canonical_evaluated::<F>(bs);
    let cb = canonical::<F>(bs)->Some_0;
    if n == 0 {
        lemma_single_evaluated(unit::<F>());
    } else if n > 0 {
        lemma_cross_power_evaluated::<F>(cb, n as nat);
    } else if cb.len() == 1 {
        let t = cb[0];
        assert(cb.contains(t));
        let inverted = Monomial {
            coeff: repeat_times::<F>(F::spec_invert(t.coeff), (-n) as nat),
            factors: t.factors.map_values(|p: EFactor<F>| (p.0, p.1 * n)),
        };
        assert forall|p: EFactor<F>| inverted.factors.contains(p) implies atom_evaluated(p.0) by {
            let i = choose|i: int| 0 <= i < inverted.factors.len() && inverted.factors[i] == p;
            assert(monomial_evaluated(t));
            assert(t.factors.contains(t.factors[i]));
            assert(p.0 == t.factors[i].0);
        }
        if has_positive_sum(inverted.factors) {
            lemma_expand_evaluated::<F>(monomial_expr::<F>(inverted), (fuel - 1) as nat);
        } else {
            lemma_single_evaluated(inverted);
        }
    } else {
        lemma_monomials_expr_evaluated::<F>(cb);
        let m = Monomial {
            coeff: one::<F>(),
            factors: seq![(EAtom::Sum(monomials_expr::<F>(cb)), n)],
        };
        assert forall|p: EFactor<F>| m.factors.contains(p) implies atom_evaluated(p.0) by {
            let i = choose|i: int| 0 <= i < 1 && m.factors[i] == p;
        }
        lemma_single_evaluated(m);
    }
}

proof fn lemma_expand_function_evaluated<F: Field>(kind: Elementary, a: ETermOf<F>, fuel: nat)
    requires
        expand_function::<F>(kind, a, fuel) is Some,
    ensures
        monomials_evaluated(expand_function::<F>(kind, a, fuel)->Some_0),
    decreases fuel, a, 3int,
{
    lemma_expand_evaluated::<F>(a, fuel);
    let ts = expand::<F>(a, fuel)->Some_0;
    lemma_canonical_evaluated::<F>(ts);
    let cs = canonical::<F>(ts)->Some_0;
    lemma_monomials_expr_evaluated::<F>(cs);
    let x = monomials_expr::<F>(cs);
    let fm = function_monomial::<F>(kind, x);
    assert forall|p: EFactor<F>| fm.factors.contains(p) implies atom_evaluated(p.0) by {
        let i = choose|i: int| 0 <= i < 1 && fm.factors[i] == p;
    }
    lemma_single_evaluated(fm);
    lemma_single_evaluated(unit::<F>());
    lemma_single_evaluated(constant::<F>(zero::<F>()));
    match x {
        ETerm::Fn(inner, u) => {
            if (kind == Elementary::Exp && inner == Elementary::Log) || (kind == Elementary::Log
                && inner == Elementary::Exp) {
                lemma_expand_evaluated::<F>(*u, (fuel - 1) as nat);
            }
        },
        _ => {},
    }
}

/// The canonical form holds no negation and no unevaluated derivative:
/// `D` never survives, and a negated monomial carries a negative
/// coefficient instead.
pub proof fn lemma_normal_form_evaluated<F: Field>(t: ETermOf<F>)
    requires
        normalizable::<F>(t),
    ensures
        evaluated(elementary_normal_form::<F>(t)),
{
    let fuel = choose|fuel: nat| normalizes::<F>(t, fuel);
    lemma_expand_evaluated::<F>(t, fuel);
    let ms = expand::<F>(t, fuel)->Some_0;
    lemma_canonical_evaluated::<F>(ms);
    lemma_monomials_expr_evaluated::<F>(canonical::<F>(ms)->Some_0);
}

} // verus!
