//! Named unknowns, and the order in which canonical forms list them.
use vstd::prelude::*;
use vstd::std_specs::cmp::PartialEqSpecImpl;
use vstd::std_specs::iter::IteratorSpec;

verus! {

/// The result of comparing two values in a total order.
#[derive(Clone, Copy, Debug, PartialEq, Eq, Structural)]
pub enum Cmp {
    Less,
    Equal,
    Greater,
}

/// Lexicographic comparison of two character sequences by code point; this
/// is the order of `str` (UTF-8 preserves code point order bytewise).
pub open spec fn compare_chars(a: Seq<char>, b: Seq<char>) -> Cmp
    decreases a.len(),
{
    if a.len() == 0 && b.len() == 0 {
        Cmp::Equal
    } else if a.len() == 0 {
        Cmp::Less
    } else if b.len() == 0 {
        Cmp::Greater
    } else if (a[0] as u32) < (b[0] as u32) {
        Cmp::Less
    } else if (a[0] as u32) > (b[0] as u32) {
        Cmp::Greater
    } else {
        compare_chars(a.drop_first(), b.drop_first())
    }
}

/// `a` comes strictly before `b`.
/// Integers in their usual order.
pub open spec fn compare_ints(a: int, b: int) -> Cmp {
    if a < b {
        Cmp::Less
    } else if a > b {
        Cmp::Greater
    } else {
        Cmp::Equal
    }
}

pub open spec fn chars_lt(a: Seq<char>, b: Seq<char>) -> bool {
    compare_chars(a, b) == Cmp::Less
}

/// `compare_chars` is `Equal` exactly on equal sequences.
pub proof fn lemma_compare_chars_equal(a: Seq<char>, b: Seq<char>)
    ensures
        (compare_chars(a, b) == Cmp::Equal) <==> (a == b),
    decreases a.len(),
{
    if a.len() == 0 || b.len() == 0 {
        if a.len() != b.len() {
            assert(a != b);
        } else {
            assert(a =~= b);
        }
    } else {
        vstd::utf8::char_u32_cast(a[0], a[0] as u32);
        vstd::utf8::char_u32_cast(b[0], b[0] as u32);
        if a[0] == b[0] {
            lemma_compare_chars_equal(a.drop_first(), b.drop_first());
            assert(a == seq![a[0]] + a.drop_first());
            assert(b == seq![b[0]] + b.drop_first());
        } else {
            assert((a[0] as u32) != (b[0] as u32));
            assert(a[0] != b[0]);
            assert(a != b);
        }
    }
}

/// `compare_chars` is antisymmetric.
pub proof fn lemma_compare_chars_flip(a: Seq<char>, b: Seq<char>)
    ensures
        compare_chars(a, b) == Cmp::Less <==> compare_chars(b, a) == Cmp::Greater,
    decreases a.len(),
{
    if a.len() > 0 && b.len() > 0 {
        lemma_compare_chars_flip(a.drop_first(), b.drop_first());
    }
}

/// `compare_chars` orders transitively.
pub proof fn lemma_compare_chars_transitive(a: Seq<char>, b: Seq<char>, c: Seq<char>)
    requires
        compare_chars(a, b) == Cmp::Less,
        compare_chars(b, c) == Cmp::Less,
    ensures
        compare_chars(a, c) == Cmp::Less,
    decreases a.len(),
{
    if a.len() > 0 && b.len() > 0 && c.len() > 0 {
        if a[0] as u32 == b[0] as u32 && b[0] as u32 == c[0] as u32 {
            lemma_compare_chars_transitive(a.drop_first(), b.drop_first(), c.drop_first());
        }
    }
}

/// The characters of a text.
pub fn chars_of(text: &str) -> (r: Vec<char>)
    ensures
        r@ == text@,
{
    let mut out: Vec<char> = Vec::new();
    broadcast use {vstd::string::axiom_spec_iter, vstd::string::next_postcondition};
    let mut iter = text.chars();
    loop
        invariant
            out@ + iter.remaining() == text@,
            iter.obeys_prophetic_iter_laws(),
            iter.decrease() is Some,
        ensures
            out@ == text@,
        decreases iter.decrease()->0,
    {
        let ghost before = iter.remaining();
        match iter.next() {
            Some(c) => {
                proof {
                    assert(out@.push(c) + iter.remaining() == out@ + before);
                }
                out.push(c);
            },
            None => {
                proof {
                    assert(before.len() == 0);
                    assert(out@ + before == out@);
                }
                break;
            },
        }
    }
    out
}

/// Compares two character sequences lexicographically by code point.
pub fn compare_char_vecs(a: &Vec<char>, b: &Vec<char>) -> (r: Cmp)
    ensures
        r == compare_chars(a@, b@),
{
    let mut i: usize = 0;
    proof {
        assert(a@.skip(0) == a@);
        assert(b@.skip(0) == b@);
    }
    while i < a.len() && i < b.len()
        invariant
            i <= a.len(),
            i <= b.len(),
            compare_chars(a@, b@) == compare_chars(a@.skip(i as int), b@.skip(i as int)),
        decreases a.len() - i,
    {
        let x = a[i] as u32;
        let y = b[i] as u32;
        if x < y {
            return Cmp::Less;
        }
        if x > y {
            return Cmp::Greater;
        }
        proof {
            assert(a@.skip(i as int).drop_first() == a@.skip(i + 1));
            assert(b@.skip(i as int).drop_first() == b@.skip(i + 1));
        }
        i = i + 1;
    }
    if i == a.len() && i == b.len() {
        Cmp::Equal
    } else if i == a.len() {
        Cmp::Less
    } else {
        Cmp::Greater
    }
}

/// A named unknown. Two symbols are equal when their names are.
#[derive(Debug)]
pub struct Symbol {
    pub name: String,
}

impl View for Symbol {
    type V = Seq<char>;

    open spec fn view(&self) -> Seq<char> {
        self.name@
    }
}

impl Symbol {
    /// The symbol named `name`.
    pub fn new(name: &str) -> (r: Symbol)
        ensures
            r@ == name@,
    {
        Symbol { name: name.to_owned() }
    }

    /// The symbol whose name is the given characters.
    pub fn from_chars(name: &Vec<char>) -> (r: Symbol)
        ensures
            r@ == name@,
    {
        Symbol { name: crate::text::string_from_chars(name) }
    }

    /// The name.
    pub fn as_str(&self) -> (r: &str)
        ensures
            r@ == self@,
    {
        self.name.as_str()
    }

    /// Whether two symbols have the same name.
    pub fn same(&self, other: &Symbol) -> (r: bool)
        ensures
            r == (self@ == other@),
    {
        self.name == other.name
    }

    /// Orders symbols by name.
    pub fn compare(&self, other: &Symbol) -> (r: Cmp)
        ensures
            r == compare_chars(self@, other@),
    {
        let a = chars_of(self.name.as_str());
        let b = chars_of(other.name.as_str());
        compare_char_vecs(&a, &b)
    }
}

impl Clone for Symbol {
    fn clone(&self) -> (r: Self)
        ensures
            r@ == self@,
    {
        Symbol { name: self.name.clone() }
    }
}

impl PartialEq for Symbol {
    fn eq(&self, other: &Self) -> (r: bool) {
        self.name == other.name
    }
}

impl PartialEqSpecImpl for Symbol {
    open spec fn obeys_eq_spec() -> bool {
        true
    }

    open spec fn eq_spec(&self, other: &Symbol) -> bool {
        self@ == other@
    }
}

impl Eq for Symbol {

}

/// Names in their canonical order: `a` comes no later than `b`.
pub open spec fn name_leq() -> spec_fn(Seq<char>, Seq<char>) -> bool {
    |a: Seq<char>, b: Seq<char>| compare_chars(a, b) != Cmp::Greater
}

/// The canonical order of names is a total order.
pub proof fn lemma_name_leq_total()
    ensures
        vstd::relations::total_ordering(name_leq()),
{
    let leq = name_leq();
    assert forall|a: Seq<char>| #[trigger] leq(a, a) by {
        lemma_compare_chars_equal(a, a);
    }
    assert forall|a: Seq<char>, b: Seq<char>| #[trigger] leq(a, b) && #[trigger] leq(b, a) implies a == b by {
        lemma_compare_chars_flip(a, b);
        lemma_compare_chars_equal(a, b);
    }
    assert forall|a: Seq<char>, b: Seq<char>, c: Seq<char>| #[trigger] leq(a, b) && #[trigger] leq(b, c) implies leq(a, c) by {
        lemma_compare_chars_equal(a, b);
        lemma_compare_chars_equal(b, c);
        if compare_chars(a, b) == Cmp::Less && compare_chars(b, c) == Cmp::Less {
            lemma_compare_chars_transitive(a, b, c);
        }
    }
    assert forall|a: Seq<char>, b: Seq<char>| #[trigger] leq(a, b) || #[trigger] leq(b, a) by {
        lemma_compare_chars_flip(b, a);
    }
}

/// The names of symbols.
pub open spec fn names(symbols: Seq<Symbol>) -> Seq<Seq<char>> {
    symbols.map_values(|s: Symbol| s@)
}

/// Adds `name` to `seen` unless it is there already.
pub fn note_name(seen: &mut Vec<Symbol>, name: &Symbol)
    requires
        crate::symbol::names(old(seen)@).no_duplicates(),
    ensures
        crate::symbol::names(final(seen)@).no_duplicates(),
        crate::symbol::names(final(seen)@).to_set() == crate::symbol::names(
            old(seen)@,
        ).to_set().insert(name@),
{
    let ghost before = crate::symbol::names(seen@);
    let mut i: usize = 0;
    while i < seen.len()
        invariant
            i <= seen.len(),
            before == crate::symbol::names(seen@),
            before.no_duplicates(),
            forall|j: int| 0 <= j < i ==> #[trigger] before[j] != name@,
        decreases seen.len() - i,
    {
        if seen[i].same(name) {
            proof {
                assert(before[i as int] == seen@[i as int]@);
                assert(before.contains(name@));
                assert(before.to_set().insert(name@) =~= before.to_set());
            }
            return;
        }
        i = i + 1;
    }
    seen.push(name.clone());
    proof {
        let after = crate::symbol::names(seen@);
        assert(after =~= before.push(name@));
        assert(!before.contains(name@));
        before.lemma_push_to_set_commute(name@);
        assert forall|a: int, b: int| 0 <= a < after.len() && 0 <= b < after.len() && a != b implies after[a] != after[b] by {
            if a < before.len() && b < before.len() {
            } else if a < before.len() {
                assert(after[a] == before[a]);
            } else {
                assert(after[b] == before[b]);
            }
        }
    }
}

/// Sorts symbols by name; equal names keep their multiplicity.
pub fn sort_symbols(symbols: Vec<Symbol>) -> (r: Vec<Symbol>)
    ensures
        names(r@) == names(symbols@).sort_by(name_leq()),
{
    let ghost leq = name_leq();
    proof {
        lemma_name_leq_total();
    }
    let mut out: Vec<Symbol> = Vec::new();
    let mut rest = symbols;
    let ghost all = names(rest@);
    proof {
        broadcast use vstd::seq_lib::group_to_multiset_ensures;
        broadcast use vstd::multiset::group_multiset_axioms;
        assert(names(out@) =~= Seq::<Seq<char>>::empty());
        assert(names(out@).to_multiset().add(names(rest@).to_multiset()) =~= all.to_multiset());
    }
    while rest.len() > 0
        invariant
            vstd::relations::total_ordering(leq),
            leq == name_leq(),
            vstd::relations::sorted_by(names(out@), leq),
            names(out@).to_multiset().add(names(rest@).to_multiset()) == all.to_multiset(),
        decreases rest.len(),
    {
        let ghost before = rest@;
        let item = rest.remove(0);
        let ghost sorted = names(out@);
        let mut i: usize = 0;
        while i < out.len()
            invariant
                i <= out.len(),
                sorted == names(out@),
                forall|j: int| 0 <= j < i ==> #[trigger] compare_chars(sorted[j], item@) != Cmp::Greater,
            ensures
                i <= out.len(),
                sorted == names(out@),
                forall|j: int| 0 <= j < i ==> #[trigger] compare_chars(sorted[j], item@) != Cmp::Greater,
                i < out.len() ==> compare_chars(sorted[i as int], item@) == Cmp::Greater,
            decreases out.len() - i,
        {
            if out[i].compare(&item) == Cmp::Greater {
                break;
            }
            i = i + 1;
        }
        proof {
            broadcast use vstd::seq_lib::group_to_multiset_ensures;
            let inserted = sorted.insert(i as int, item@);
            assert(names(out@.insert(i as int, item)) =~= inserted);
            assert(inserted =~= sorted.subrange(0, i as int) + seq![item@] + sorted.subrange(i as int, sorted.len() as int));
            vstd::seq_lib::lemma_multiset_commutative(sorted.subrange(0, i as int), seq![item@]);
            vstd::seq_lib::lemma_multiset_commutative(sorted.subrange(0, i as int) + seq![item@], sorted.subrange(i as int, sorted.len() as int));
            vstd::seq_lib::lemma_multiset_commutative(sorted.subrange(0, i as int), sorted.subrange(i as int, sorted.len() as int));
            assert(sorted =~= sorted.subrange(0, i as int) + sorted.subrange(i as int, sorted.len() as int));
            assert(names(before) =~= seq![item@] + names(before.drop_first()));
            vstd::seq_lib::lemma_multiset_commutative(seq![item@], names(before.drop_first()));
            assert(rest@ =~= before.drop_first());
            assert forall|a: int, b: int| 0 <= a < b < inserted.len() implies #[trigger] leq(inserted[a], inserted[b]) by {
                if b < i {
                } else if a < i && b == i {
                } else if a < i {
                    assert(leq(sorted[a], sorted[b - 1]));
                } else if a == i {
                    assert(compare_chars(sorted[b - 1], item@) == Cmp::Greater || i < sorted.len());
                    assert(leq(sorted[i as int], sorted[b - 1]));
                    lemma_compare_chars_flip(item@, sorted[i as int]);
                    assert(compare_chars(sorted[i as int], item@) == Cmp::Greater);
                    assert(compare_chars(item@, sorted[i as int]) == Cmp::Less);
                    lemma_compare_chars_equal(sorted[i as int], sorted[b - 1]);
                    if compare_chars(sorted[i as int], sorted[b - 1]) == Cmp::Less {
                        lemma_compare_chars_transitive(item@, sorted[i as int], sorted[b - 1]);
                    }
                } else {
                    assert(leq(sorted[a - 1], sorted[b - 1]));
                }
            }
        }
        out.insert(i, item);
    }
    proof {
        broadcast use vstd::seq_lib::group_to_multiset_ensures;
        assert(names(rest@) =~= Seq::<Seq<char>>::empty());
        assert(names(out@).to_multiset() =~= all.to_multiset());
        all.lemma_sort_by_ensures(leq);
        vstd::seq_lib::lemma_sorted_unique(names(out@), all.sort_by(leq), leq);
    }
    out
}

} // verus!
