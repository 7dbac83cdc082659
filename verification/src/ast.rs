//! Untyped syntax trees: what the parser reads, before an expression type
//! decides what the operators mean.
use vstd::prelude::*;
use vstd::std_specs::cmp::PartialEqSpecImpl;
use crate::symbol::chars_of;
use crate::text::{push_chars, string_from_chars, text_is};

verus! {

/// An untyped syntax tree. Operators are carried by their spelling: the
/// grammar decided how they parse, and the lowering decides what they mean.
#[derive(Debug)]
pub enum Ast {
    /// A numeric literal, kept as written so the lowering decides how to
    /// read it.
    Number(String),
    Ident(String),
    /// `f(a, b, ...)`
    Call(String, Vec<Ast>),
    /// A parenthesized expression.
    Group(Box<Ast>),
    /// `op a`
    Prefix(String, Box<Ast>),
    /// `a op b`. Juxtaposition appears as whichever operator the grammar
    /// assigned it.
    Infix(String, Box<Ast>, Box<Ast>),
    /// `a op`
    Postfix(String, Box<Ast>),
}

/// The value of an [`Ast`]: names and literals by their characters.
pub enum AstView {
    Number(Seq<char>),
    Ident(Seq<char>),
    Call(Seq<char>, Seq<AstView>),
    Group(Box<AstView>),
    Prefix(Seq<char>, Box<AstView>),
    Infix(Seq<char>, Box<AstView>, Box<AstView>),
    Postfix(Seq<char>, Box<AstView>),
}

impl View for Ast {
    type V = AstView;

    open spec fn view(&self) -> AstView {
        Ast::node(*self)
    }
}

impl Ast {
    /// The value of a tree.
    pub open spec fn node(a: Ast) -> AstView
        decreases a,
    {
        match a {
            Ast::Number(t) => AstView::Number(t@),
            Ast::Ident(t) => AstView::Ident(t@),
            Ast::Call(name, args) => AstView::Call(name@, Ast::nodes(args@)),
            Ast::Group(inner) => AstView::Group(Box::new(Ast::node(*inner))),
            Ast::Prefix(op, inner) => AstView::Prefix(op@, Box::new(Ast::node(*inner))),
            Ast::Infix(op, lhs, rhs) => AstView::Infix(
                op@,
                Box::new(Ast::node(*lhs)),
                Box::new(Ast::node(*rhs)),
            ),
            Ast::Postfix(op, inner) => AstView::Postfix(op@, Box::new(Ast::node(*inner))),
        }
    }

    /// The values of a sequence of trees.
    pub open spec fn nodes(s: Seq<Ast>) -> Seq<AstView>
        decreases s,
    {
        if s.len() == 0 {
            Seq::empty()
        } else {
            seq![Ast::node(s[0])] + Ast::nodes(s.drop_first())
        }
    }

    /// `nodes` maps `node` over the sequence.
    pub proof fn lemma_nodes(s: Seq<Ast>)
        ensures
            Ast::nodes(s).len() == s.len(),
            forall|i: int| 0 <= i < s.len() ==> #[trigger] Ast::nodes(s)[i] == Ast::node(s[i]),
        decreases s.len(),
    {
        if s.len() > 0 {
            Ast::lemma_nodes(s.drop_first());
            assert forall|i: int| 0 <= i < s.len() implies #[trigger] Ast::nodes(s)[i] == Ast::node(
                s[i],
            ) by {
                if i > 0 {
                    assert(s.drop_first()[i - 1] == s[i]);
                }
            }
        }
    }

    /// `nodes` of a sequence with one more tree at the end.
    pub proof fn lemma_nodes_push(s: Seq<Ast>, a: Ast)
        ensures
            Ast::nodes(s.push(a)) == Ast::nodes(s).push(Ast::node(a)),
    {
        Ast::lemma_nodes(s);
        Ast::lemma_nodes(s.push(a));
        assert(Ast::nodes(s.push(a)) =~= Ast::nodes(s).push(Ast::node(a)));
    }
}

/// The text of a numeric literal, or of one under the prefix operator
/// `negation`: `3` or `-3`.
pub open spec fn literal_text(a: AstView, negation: Seq<char>) -> Option<Seq<char>> {
    match a {
        AstView::Number(text) => Some(text),
        AstView::Prefix(op, inner) => if op == negation {
            match *inner {
                AstView::Number(text) => Some(seq!['-'] + text),
                _ => None,
            }
        } else {
            None
        },
        _ => None,
    }
}

/// An ASCII digit.
pub open spec fn is_digit(c: char) -> bool {
    48 <= (c as u32) <= 57
}

/// The value of a digit.
pub open spec fn digit_value(c: char) -> int {
    (c as u32) - 48
}

/// The value of a sequence of decimal digits.
pub open spec fn decimal(digits: Seq<char>) -> int
    decreases digits.len(),
{
    if digits.len() == 0 {
        0
    } else {
        decimal(digits.drop_last()) * 10 + digit_value(digits.last())
    }
}

/// Decimal digits only.
pub open spec fn all_digits(digits: Seq<char>) -> bool {
    forall|i: int| 0 <= i < digits.len() ==> is_digit(#[trigger] digits[i])
}

/// The integer that `str::parse::<isize>` reads from `text`: an optional
/// `+` or `-` and at least one decimal digit, within the range of `isize`.
pub open spec fn isize_from_text(text: Seq<char>) -> Option<isize> {
    let negative = text.len() > 0 && text[0] == '-';
    let signed = text.len() > 0 && (text[0] == '-' || text[0] == '+');
    let digits = if signed {
        text.drop_first()
    } else {
        text
    };
    let value = if negative {
        -decimal(digits)
    } else {
        decimal(digits)
    };
    if digits.len() > 0 && all_digits(digits) && isize::MIN <= value <= isize::MAX {
        Some(value as isize)
    } else {
        None
    }
}

/// The value of an integer literal, possibly under `negation`.
pub open spec fn integer_value(a: AstView, negation: Seq<char>) -> Option<isize> {
    match literal_text(a, negation) {
        Some(text) => isize_from_text(text),
        None => None,
    }
}

/// The role an operator has in a chain: the first entry for it decides.
pub open spec fn role_of(roles: Seq<(Seq<char>, bool)>, op: Seq<char>) -> Option<bool>
    decreases roles.len(),
{
    if roles.len() == 0 {
        None
    } else if roles[0].0 == op {
        Some(roles[0].1)
    } else {
        role_of(roles.drop_first(), op)
    }
}

/// The operands of a left-to-right chain of the operators in `roles`, each
/// marked whether an odd number of inverting operators stand before it.
/// Parentheses end a chain.
pub open spec fn chain(a: AstView, roles: Seq<(Seq<char>, bool)>, inverted: bool) -> Seq<
    (bool, AstView),
>
    decreases a,
{
    match a {
        AstView::Infix(op, lhs, rhs) => match role_of(roles, op) {
            Some(inverse) => chain(*lhs, roles, inverted) + chain(*rhs, roles, inverted != inverse),
            None => seq![(inverted, a)],
        },
        _ => seq![(inverted, a)],
    }
}

/// Roles written as text, as values.
pub open spec fn role_table(roles: Seq<(&str, bool)>) -> Seq<(Seq<char>, bool)> {
    roles.map_values(|r: (&str, bool)| (r.0@, r.1))
}

/// Marked operands, as values.
pub open spec fn marked(operands: Seq<(bool, Ast)>) -> Seq<(bool, AstView)> {
    operands.map_values(|p: (bool, Ast)| (p.0, p.1@))
}

/// The source form of a tree: parentheses where it has groups, one space
/// around infix operators, and `, ` between arguments.
pub open spec fn render(a: AstView) -> Seq<char>
    decreases a,
{
    match a {
        AstView::Number(text) => text,
        AstView::Ident(text) => text,
        AstView::Call(name, args) => name + seq!['('] + render_args(args) + seq![')'],
        AstView::Group(inner) => seq!['('] + render(*inner) + seq![')'],
        AstView::Prefix(op, inner) => op + render(*inner),
        AstView::Infix(op, lhs, rhs) => render(*lhs) + seq![' '] + op + seq![' '] + render(*rhs),
        AstView::Postfix(op, inner) => render(*inner) + op,
    }
}

/// Arguments in source form, separated by `, `.
pub open spec fn render_args(args: Seq<AstView>) -> Seq<char>
    decreases args,
{
    if args.len() == 0 {
        Seq::empty()
    } else if args.len() == 1 {
        render(args[0])
    } else {
        render_args(args.drop_last()) + seq![',', ' '] + render(args.last())
    }
}

fn digit_of(c: char) -> (r: isize)
    requires
        is_digit(c),
    ensures
        r == digit_value(c),
        0 <= r <= 9,
{
    let v = c as u32;
    (v - 48) as isize
}

proof fn lemma_decimal_nonnegative(digits: Seq<char>)
    requires
        all_digits(digits),
    ensures
        decimal(digits) >= 0,
    decreases digits.len(),
{
    if digits.len() > 0 {
        assert(all_digits(digits.drop_last())) by {
            assert forall|i: int| 0 <= i < digits.drop_last().len() implies is_digit(
                #[trigger] digits.drop_last()[i],
            ) by {
                assert(digits.drop_last()[i] == digits[i]);
            }
        }
        lemma_decimal_nonnegative(digits.drop_last());
        assert(is_digit(digits[digits.len() - 1]));
    }
}

/// Longer runs of digits are no smaller.
proof fn lemma_decimal_prefix(digits: Seq<char>, k: int)
    requires
        all_digits(digits),
        0 <= k <= digits.len(),
    ensures
        decimal(digits.take(k)) <= decimal(digits),
    decreases digits.len() - k,
{
    if k < digits.len() {
        let longer = digits.take(k + 1);
        assert(longer.drop_last() == digits.take(k));
        assert(all_digits(digits.take(k))) by {
            assert forall|i: int| 0 <= i < digits.take(k).len() implies is_digit(
                #[trigger] digits.take(k)[i],
            ) by {
                assert(digits.take(k)[i] == digits[i]);
            }
        }
        lemma_decimal_nonnegative(digits.take(k));
        assert(longer.last() == digits[k]);
        assert(is_digit(digits[k]));
        assert(decimal(longer) == decimal(digits.take(k)) * 10 + digit_value(digits[k]));
        lemma_decimal_prefix(digits, k + 1);
    } else {
        assert(digits.take(k) == digits);
    }
}

/// Reads an integer as `str::parse::<isize>` does.
pub fn parse_isize(text: &Vec<char>) -> (r: Option<isize>)
    ensures
        r == isize_from_text(text@),
{
    let n = text.len();
    let negative = n > 0 && text[0] == '-';
    let signed = n > 0 && (text[0] == '-' || text[0] == '+');
    let start: usize = if signed {
        1
    } else {
        0
    };
    let ghost digits = if signed {
        text@.drop_first()
    } else {
        text@
    };
    proof {
        assert(digits == text@.skip(start as int));
    }
    if start >= n {
        return None;
    }
    let mut value: isize = 0;
    let mut i: usize = start;
    while i < n
        invariant
            start <= i <= n == text.len(),
            start < n,
            negative == (text@.len() > 0 && text@[0] == '-'),
            digits == (if text@.len() > 0 && (text@[0] == '-' || text@[0] == '+') {
                text@.drop_first()
            } else {
                text@
            }),
            digits == text@.skip(start as int),
            all_digits(digits.take(i - start)),
            value == (if negative {
                -decimal(digits.take(i - start))
            } else {
                decimal(digits.take(i - start))
            }),
        decreases n - i,
    {
        let c = text[i];
        let ghost k: int = i - start;
        proof {
            assert(digits[k] == c);
        }
        let code = c as u32;
        if !(48 <= code && code <= 57) {
            proof {
                assert(!all_digits(digits));
            }
            return None;
        }
        let d = digit_of(c);
        proof {
            let longer = digits.take(k + 1);
            assert(longer.drop_last() == digits.take(k));
            assert(longer.last() == c);
            assert(all_digits(longer)) by {
                assert forall|j: int| 0 <= j < longer.len() implies is_digit(#[trigger] longer[j]) by {
                    if j < k {
                        assert(longer[j] == digits.take(k)[j]);
                    }
                }
            }
        }
        let step = if negative {
            match value.checked_mul(10) {
                Some(v) => v.checked_sub(d),
                None => None,
            }
        } else {
            match value.checked_mul(10) {
                Some(v) => v.checked_add(d),
                None => None,
            }
        };
        match step {
            Some(v) => {
                value = v;
            },
            None => {
                proof {
                    let longer = digits.take(k + 1);
                    lemma_decimal_nonnegative(digits.take(k));
                    if all_digits(digits) {
                        lemma_decimal_prefix(digits, k + 1);
                    }
                }
                return None;
            },
        }
        i = i + 1;
    }
    proof {
        assert(digits.take(n - start) == digits);
    }
    Some(value)
}

fn role_lookup(roles: &[(&str, bool)], op: &Vec<char>) -> (r: Option<bool>)
    ensures
        r == role_of(role_table(roles@), op@),
{
    let mut i: usize = 0;
    proof {
        assert(role_table(roles@).skip(0) == role_table(roles@));
    }
    while i < roles.len()
        invariant
            i <= roles.len(),
            role_of(role_table(roles@), op@) == role_of(role_table(roles@).skip(i as int), op@),
        decreases roles.len() - i,
    {
        let (name, inverse) = roles[i];
        proof {
            assert(role_table(roles@).skip(i as int)[0] == (name@, inverse));
            assert(role_table(roles@).skip(i as int).drop_first() == role_table(roles@).skip(i + 1));
        }
        if text_is(name, op) {
            return Some(inverse);
        }
        i = i + 1;
    }
    proof {
        assert(role_table(roles@).skip(i as int).len() == 0);
    }
    None
}

fn collect(ast: Ast, roles: &[(&str, bool)], inverted: bool, out: &mut Vec<(bool, Ast)>)
    ensures
        marked(final(out)@) == marked(old(out)@) + chain(ast@, role_table(roles@), inverted),
    decreases ast,
{
    let ghost view = ast@;
    match ast {
        Ast::Infix(op, lhs, rhs) => {
            let spelled = chars_of(op.as_str());
            match role_lookup(roles, &spelled) {
                Some(inverse) => {
                    let ghost start = marked(out@);
                    collect(*lhs, roles, inverted, out);
                    collect(*rhs, roles, inverted != inverse, out);
                    proof {
                        assert(marked(out@) == start + chain(view, role_table(roles@), inverted));
                    }
                },
                None => {
                    let ghost before = out@;
                    out.push((inverted, Ast::Infix(op, lhs, rhs)));
                    proof {
                        assert(marked(out@) == marked(before).push((inverted, view)));
                    }
                },
            }
        },
        other => {
            let ghost before = out@;
            out.push((inverted, other));
            proof {
                assert(marked(out@) == marked(before).push((inverted, view)));
            }
        },
    }
}

impl Ast {
    /// The text of a numeric literal, or of one under the prefix operator
    /// `negation`: `3` or `-3`.
    pub fn literal(&self, negation: &str) -> (r: Option<String>)
        ensures
            r is Some == literal_text(self@, negation@) is Some,
            r is Some ==> r->0@ == literal_text(self@, negation@)->0,
    {
        match self {
            Ast::Number(text) => {
                let copy = text.clone();
                proof {
                    assert(copy@ == text@);
                    assert(self@ == AstView::Number(text@));
                    assert(literal_text(self@, negation@) == Some(text@));
                }
                Some(copy)
            },
            Ast::Prefix(op, inner) => {
                let op_chars = chars_of(op.as_str());
                let ghost iv = Ast::node(**inner);
                proof {
                    assert(self@ == AstView::Prefix(op@, Box::new(iv)));
                }
                if text_is(negation, &op_chars) {
                    let nested: &Ast = inner;
                    match nested {
                        Ast::Number(text) => {
                            let mut chars: Vec<char> = vec!['-'];
                            let digits = chars_of(text.as_str());
                            push_chars(&mut chars, &digits);
                            let r = string_from_chars(&chars);
                            proof {
                                assert(iv == AstView::Number(text@));
                                assert(literal_text(self@, negation@) == Some(seq!['-'] + text@));
                                assert(r@ == seq!['-'] + text@);
                            }
                            Some(r)
                        },
                        _ => {
                            proof {
                                assert(literal_text(self@, negation@) is None);
                            }
                            None
                        },
                    }
                } else {
                    proof {
                        assert(literal_text(self@, negation@) is None);
                    }
                    None
                }
            },
            _ => {
                proof {
                    assert(literal_text(self@, negation@) is None);
                }
                None
            },
        }
    }

    /// The value of an integer literal, possibly under `negation`.
    pub fn integer(&self, negation: &str) -> (r: Option<isize>)
        ensures
            r == integer_value(self@, negation@),
    {
        match self.literal(negation) {
            Some(text) => {
                let chars = chars_of(text.as_str());
                parse_isize(&chars)
            },
            None => None,
        }
    }

    /// Flattens a left-to-right chain of infix operators into its operands.
    ///
    /// `roles` classifies each operator: one that is not listed ends the
    /// chain, `false` continues it and `true` continues it while marking the
    /// right operand as inverted (`a - b - c` is `a`, `-b`, `-c`).
    /// Parentheses are never looked through. A node that is not a chain
    /// yields itself.
    pub fn operands(self, roles: &[(&str, bool)]) -> (r: Vec<(bool, Ast)>)
        ensures
            marked(r@) == chain(self@, role_table(roles@), false),
    {
        let mut out: Vec<(bool, Ast)> = Vec::new();
        proof {
            assert(marked(out@) == Seq::<(bool, AstView)>::empty());
        }
        collect(self, roles, false, &mut out);
        proof {
            assert(Seq::<(bool, AstView)>::empty() + chain(self@, role_table(roles@), false) == chain(
                self@,
                role_table(roles@),
                false,
            ));
        }
        out
    }

    /// The source form of the tree. Juxtaposition prints as the operator it
    /// stands for.
    pub fn render(&self) -> (r: Vec<char>)
        ensures
            r@ == render(self@),
        decreases self,
    {
        match self {
            Ast::Number(text) => chars_of(text.as_str()),
            Ast::Ident(text) => chars_of(text.as_str()),
            Ast::Call(name, args) => {
                let mut out = chars_of(name.as_str());
                out.push('(');
                let ghost views = Ast::nodes(args@);
                proof {
                    Ast::lemma_nodes(args@);
                    assert(views.take(0) == Seq::<AstView>::empty());
                }
                let mut i: usize = 0;
                while i < args.len()
                    invariant
                        *self == Ast::Call(*name, *args),
                        i <= args.len(),
                        views == Ast::nodes(args@),
                        views.len() == args.len(),
                        forall|j: int| 0 <= j < args.len() ==> #[trigger] views[j] == args@[j]@,
                        out@ == name@ + seq!['('] + render_args(views.take(i as int)),
                    decreases args.len() - i,
                {
                    proof {
                        assert(decreases_to!(*self => self->Call_1));
                        assert(decreases_to!(args => args@));
                        assert(decreases_to!(args@ => args@[i as int]));
                    }
                    let ghost before = out@;
                    if i > 0 {
                        out.push(',');
                        out.push(' ');
                    }
                    let part = args[i].render();
                    push_chars(&mut out, &part);
                    proof {
                        let next = views.take(i + 1);
                        assert(next.drop_last() == views.take(i as int));
                        assert(next.last() == args@[i as int]@);
                        if i == 0 {
                            assert(next.len() == 1);
                            assert(render_args(views.take(0)) == Seq::<char>::empty());
                            assert(out@ == before + part@);
                        } else {
                            assert(out@ == before + seq![',', ' '] + part@);
                        }
                    }
                    i = i + 1;
                }
                out.push(')');
                proof {
                    assert(views.take(args.len() as int) == views);
                }
                out
            },
            Ast::Group(inner) => {
                let mut out: Vec<char> = vec!['('];
                let part = inner.render();
                push_chars(&mut out, &part);
                out.push(')');
                out
            },
            Ast::Prefix(op, inner) => {
                let mut out = chars_of(op.as_str());
                let part = inner.render();
                push_chars(&mut out, &part);
                out
            },
            Ast::Infix(op, lhs, rhs) => {
                let mut out = lhs.render();
                out.push(' ');
                let spelled = chars_of(op.as_str());
                push_chars(&mut out, &spelled);
                out.push(' ');
                let part = rhs.render();
                push_chars(&mut out, &part);
                out
            },
            Ast::Postfix(op, inner) => {
                let mut out = inner.render();
                let spelled = chars_of(op.as_str());
                push_chars(&mut out, &spelled);
                out
            },
        }
    }
}

impl Ast {
    /// Whether two trees are the same.
    pub fn same(&self, other: &Ast) -> (r: bool)
        ensures
            r == (self@ == other@),
        decreases self,
    {
        match (self, other) {
            (Ast::Number(a), Ast::Number(b)) => *a == *b,
            (Ast::Ident(a), Ast::Ident(b)) => *a == *b,
            (Ast::Call(name, args), Ast::Call(other_name, other_args)) => {
                if !(*name == *other_name) || args.len() != other_args.len() {
                    proof {
                        Ast::lemma_nodes(args@);
                        Ast::lemma_nodes(other_args@);
                    }
                    return false;
                }
                proof {
                    Ast::lemma_nodes(args@);
                    Ast::lemma_nodes(other_args@);
                }
                let mut i: usize = 0;
                while i < args.len()
                    invariant
                        *self == Ast::Call(*name, *args),
                        *other == Ast::Call(*other_name, *other_args),
                        i <= args.len() == other_args.len(),
                        Ast::nodes(args@).len() == args.len(),
                        Ast::nodes(other_args@).len() == other_args.len(),
                        forall|j: int| 0 <= j < args.len() ==> #[trigger] Ast::nodes(args@)[j] == args@[j]@,
                        forall|j: int|
                            0 <= j < other_args.len() ==> #[trigger] Ast::nodes(other_args@)[j]
                                == other_args@[j]@,
                        forall|j: int|
                            0 <= j < i ==> #[trigger] Ast::nodes(args@)[j] == Ast::nodes(other_args@)[j],
                    decreases args.len() - i,
                {
                    proof {
                        assert(decreases_to!(*self => self->Call_1));
                        assert(decreases_to!(args => args@));
                        assert(decreases_to!(args@ => args@[i as int]));
                    }
                    if !args[i].same(&other_args[i]) {
                        proof {
                            assert(Ast::nodes(args@)[i as int] != Ast::nodes(other_args@)[i as int]);
                        }
                        return false;
                    }
                    i = i + 1;
                }
                proof {
                    assert(Ast::nodes(args@) =~= Ast::nodes(other_args@));
                }
                true
            },
            (Ast::Group(x), Ast::Group(y)) => x.same(y),
            (Ast::Prefix(op, x), Ast::Prefix(other_op, y)) => *op == *other_op && x.same(y),
            (Ast::Infix(op, l, r), Ast::Infix(other_op, other_l, other_r)) => *op == *other_op && l.same(
                other_l,
            ) && r.same(other_r),
            (Ast::Postfix(op, x), Ast::Postfix(other_op, y)) => *op == *other_op && x.same(y),
            _ => false,
        }
    }
}

impl PartialEq for Ast {
    fn eq(&self, other: &Self) -> (r: bool) {
        self.same(other)
    }
}

impl PartialEqSpecImpl for Ast {
    open spec fn obeys_eq_spec() -> bool {
        true
    }

    open spec fn eq_spec(&self, other: &Ast) -> bool {
        self@ == other@
    }
}

impl Eq for Ast {

}

impl Clone for Ast {
    fn clone(&self) -> (r: Self)
        ensures
            r@ == self@,
        decreases self,
    {
        match self {
            Ast::Number(text) => Ast::Number(text.clone()),
            Ast::Ident(text) => Ast::Ident(text.clone()),
            Ast::Call(name, args) => {
                let mut copies: Vec<Ast> = Vec::new();
                let mut i: usize = 0;
                while i < args.len()
                    invariant
                        *self == Ast::Call(*name, *args),
                        i <= args.len(),
                        Ast::nodes(copies@) == Ast::nodes(args@.take(i as int)),
                    decreases args.len() - i,
                {
                    proof {
                        assert(decreases_to!(*self => self->Call_1));
                        assert(decreases_to!(args => args@));
                        assert(decreases_to!(args@ => args@[i as int]));
                    }
                    let copy = args[i].clone();
                    let ghost before = copies@;
                    copies.push(copy);
                    proof {
                        Ast::lemma_nodes_push(before, copy);
                        assert(args@.take(i + 1) == args@.take(i as int).push(args@[i as int]));
                        Ast::lemma_nodes_push(args@.take(i as int), args@[i as int]);
                    }
                    i = i + 1;
                }
                proof {
                    assert(args@.take(args.len() as int) == args@);
                }
                Ast::Call(name.clone(), copies)
            },
            Ast::Group(inner) => Ast::Group(Box::new((**inner).clone())),
            Ast::Prefix(op, inner) => Ast::Prefix(op.clone(), Box::new((**inner).clone())),
            Ast::Infix(op, lhs, rhs) => Ast::Infix(
                op.clone(),
                Box::new((**lhs).clone()),
                Box::new((**rhs).clone()),
            ),
            Ast::Postfix(op, inner) => Ast::Postfix(op.clone(), Box::new((**inner).clone())),
        }
    }
}

} // verus!
