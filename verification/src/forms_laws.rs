//! The sign of each summand of Leibniz's rule for the exterior derivative.
use vstd::prelude::*;

use crate::forms::{degree, Atom, DifferentialForm, Manifold, Mono};

verus! {

/// The positions of the functions among `atoms`, from position `i` on, in
/// order.
pub open spec fn function_positions_from(atoms: Seq<Atom>, i: nat) -> Seq<int>
    decreases atoms.len() - i,
{
    if i >= atoms.len() {
        Seq::empty()
    } else {
        (if atoms[i as int] is F {
            seq![i as int]
        } else {
            Seq::empty()
        }) + function_positions_from(atoms, i + 1)
    }
}

/// The positions of the functions among `atoms`, in order.
pub open spec fn function_positions(atoms: Seq<Atom>) -> Seq<int> {
    function_positions_from(atoms, 0)
}

/// The degree of a prefix grows by one exactly at a differential.
pub proof fn lemma_degree_take_step(atoms: Seq<Atom>, i: int)
    requires
        0 <= i < atoms.len(),
    ensures
        degree(atoms.take(i + 1)) == degree(atoms.take(i)) + if atoms[i] is D {
            1nat
        } else {
            0nat
        },
{
    assert(atoms.take(i + 1).drop_last() =~= atoms.take(i));
    assert(atoms.take(i + 1).last() == atoms[i]);
}

impl<M: Manifold> DifferentialForm<M> {
    /// `m` with its `p`-th atom, a function `f`, replaced by `df`, negated
    /// when the atoms before it have odd degree.
    pub open spec fn leibniz_summand(m: Mono<M>, p: int) -> Mono<M> {
        let t = (m.0, m.1.update(p, Atom::D(m.1[p]->F_0)));
        if degree(m.1.take(p)) % 2 == 1 {
            Self::negated(t)
        } else {
            t
        }
    }

    proof fn lemma_leibniz_from_signs(m: Mono<M>, i: nat, odd: bool)
        requires
            i <= m.1.len(),
            odd == (degree(m.1.take(i as int)) % 2 == 1),
        ensures
            Self::leibniz_from(m, i, odd).len() == function_positions_from(m.1, i).len(),
            forall|k: int|
                0 <= k < function_positions_from(m.1, i).len() ==> {
                    let p = #[trigger] function_positions_from(m.1, i)[k];
                    &&& i <= p < m.1.len()
                    &&& m.1[p] is F
                    &&& Self::leibniz_from(m, i, odd)[k] == Self::leibniz_summand(m, p)
                },
        decreases m.1.len() - i,
    {
        if i < m.1.len() {
            let a = m.1[i as int];
            let next = odd != (a is D);
            lemma_degree_take_step(m.1, i as int);
            Self::lemma_leibniz_from_signs(m, i + 1, next);
            let rest = Self::leibniz_from(m, i + 1, next);
            let ps = function_positions_from(m.1, i + 1);
            if a is F {
                let head = Self::leibniz_from(m, i, odd)[0];
                assert(head == Self::leibniz_summand(m, i as int));
                assert forall|k: int|
                    0 <= k < function_positions_from(m.1, i).len() implies {
                    let p = #[trigger] function_positions_from(m.1, i)[k];
                    &&& i <= p < m.1.len()
                    &&& m.1[p] is F
                    &&& Self::leibniz_from(m, i, odd)[k] == Self::leibniz_summand(m, p)
                } by {
                    if k > 0 {
                        assert(function_positions_from(m.1, i)[k] == ps[k - 1]);
                        assert(Self::leibniz_from(m, i, odd)[k] == rest[k - 1]);
                    }
                }
            } else {
                assert(function_positions_from(m.1, i) =~= ps);
                assert(Self::leibniz_from(m, i, odd) =~= rest);
            }
        }
    }

    /// Leibniz's rule, `d(a_1 ∧ … ∧ a_n) = Σ_i (-1)^{deg(a_1 … a_{i-1})}
    /// a_1 ∧ … ∧ da_i ∧ … ∧ a_n`: the summands correspond, in order, to the
    /// functions among the atoms, and the summand for the function at
    /// position `p` is the monomial with that function differentiated,
    /// negated exactly when the atoms before `p` hold an odd number of
    /// differentials.
    pub proof fn lemma_leibniz_signs(m: Mono<M>)
        ensures
            Self::leibniz(m).len() == function_positions(m.1).len(),
            forall|k: int|
                0 <= k < function_positions(m.1).len() ==> {
                    let p = #[trigger] function_positions(m.1)[k];
                    &&& 0 <= p < m.1.len()
                    &&& m.1[p] is F
                    &&& Self::leibniz(m)[k] == Self::leibniz_summand(m, p)
                },
    {
        assert(m.1.take(0) =~= Seq::<Atom>::empty());
        Self::lemma_leibniz_from_signs(m, 0, false);
    }
}

} // verus!
