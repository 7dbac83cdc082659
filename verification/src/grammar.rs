//! Operator tables: which symbols are operators, with what fixity,
//! precedence and associativity.
use vstd::prelude::*;
use crate::lexer::{is_alphabetic, is_whitespace, char_alphabetic, char_whitespace};
use crate::parse_error::ParseError;
use crate::symbol::chars_of;
use crate::text::{framed, push_chars, push_text, same_chars, string_from_chars};

verus! {

/// Which side a chain of one operator groups toward.
#[derive(Clone, Copy, Debug, PartialEq, Eq, Structural)]
pub enum Assoc {
    Left,
    Right,
}

/// What a symbol does after a complete operand: continues it as an infix
/// operator, or closes it as a postfix one. The two are exclusive, since
/// the parser could not tell them apart.
#[derive(Clone, Copy, Debug, PartialEq, Eq, Structural)]
pub enum Trailing {
    Infix { left: u16, right: u16 },
    Postfix { left: u16 },
}

impl Trailing {
    /// The binding power toward the operand on the left.
    pub open spec fn spec_left(self) -> u16 {
        match self {
            Trailing::Infix { left, .. } => left,
            Trailing::Postfix { left } => left,
        }
    }

    /// The binding power toward the operand on the left.
    pub fn left(self) -> (r: u16)
        ensures
            r == self.spec_left(),
    {
        match self {
            Trailing::Infix { left, .. } => left,
            Trailing::Postfix { left } => left,
        }
    }
}

/// One symbol's roles at the two places the parser meets it: the right
/// binding power when it opens an operand (`op a`), and what it does after
/// one.
#[derive(Clone, Copy, Debug, PartialEq, Eq, Structural)]
pub struct Operator {
    pub prefix: Option<u16>,
    pub trailing: Option<Trailing>,
}

/// The binding power of a precedence level, leaving room between levels for
/// associativity.
pub open spec fn base(precedence: u8) -> u16 {
    ((precedence + 1) * 2) as u16
}

/// The left and right binding powers of an infix operator: the power on the
/// side away from the associativity is raised by one, so a chain of the
/// operator groups toward that side.
pub open spec fn powers(assoc: Assoc, precedence: u8) -> (u16, u16) {
    match assoc {
        Assoc::Left => (base(precedence), (base(precedence) + 1) as u16),
        Assoc::Right => ((base(precedence) + 1) as u16, base(precedence)),
    }
}

fn base_power(precedence: u8) -> (r: u16)
    ensures
        r == base(precedence),
{
    (precedence as u16 + 1) * 2
}

/// The operator table a parse runs against. Numeric literals, identifiers,
/// calls `f(a, b)` and parentheses are always available; every operator is
/// declared by the expression type that understands it.
///
/// A symbol may be declared in several roles (`-` is commonly both prefix
/// and infix) but not as both infix and postfix. Higher precedence binds
/// tighter. A declaration that breaks these rules is an error.
#[derive(Debug)]
pub struct Grammar {
    operators: Vec<(String, Operator)>,
    juxtaposition: Option<String>,
}

/// The record of `symbol` in a list of entries: the first entry for it.
pub open spec fn first_entry(entries: Seq<(Seq<char>, Operator)>, symbol: Seq<char>) -> Option<
    Operator,
>
    decreases entries.len(),
{
    if entries.len() == 0 {
        None
    } else if entries[0].0 == symbol {
        Some(entries[0].1)
    } else {
        first_entry(entries.drop_first(), symbol)
    }
}

/// The table a list of entries describes: the first entry for a symbol wins.
pub open spec fn entries_table(entries: Seq<(Seq<char>, Operator)>) -> Map<Seq<char>, Operator>
    decreases entries.len(),
{
    if entries.len() == 0 {
        Map::empty()
    } else {
        entries_table(entries.drop_first()).insert(entries[0].0, entries[0].1)
    }
}

/// The table holds exactly the first entry for each symbol.
proof fn lemma_entries_table(entries: Seq<(Seq<char>, Operator)>, symbol: Seq<char>)
    ensures
        entries_table(entries).dom().contains(symbol) == first_entry(entries, symbol) is Some,
        entries_table(entries).dom().contains(symbol) ==> Some(entries_table(entries)[symbol])
            == first_entry(entries, symbol),
    decreases entries.len(),
{
    if entries.len() > 0 {
        lemma_entries_table(entries.drop_first(), symbol);
    }
}

/// The value of a grammar: its operator table, and the symbol juxtaposition
/// reads as.
pub struct GrammarView {
    pub table: Map<Seq<char>, Operator>,
    pub juxtaposition: Option<Seq<char>>,
}

/// The record of `symbol`, empty until a declaration fills a role.
pub open spec fn record(table: Map<Seq<char>, Operator>, symbol: Seq<char>) -> Operator {
    if table.dom().contains(symbol) {
        table[symbol]
    } else {
        Operator { prefix: None, trailing: None }
    }
}

impl GrammarView {
    /// The right binding power of `symbol` as a prefix operator.
    pub open spec fn prefix_power(self, symbol: Seq<char>) -> Option<u16> {
        record(self.table, symbol).prefix
    }

    /// What `symbol` does after a complete operand.
    pub open spec fn trailing(self, symbol: Seq<char>) -> Option<Trailing> {
        record(self.table, symbol).trailing
    }

    /// The infix operator juxtaposition stands for, with its powers.
    pub open spec fn juxtaposed(self) -> Option<(Seq<char>, Trailing)> {
        match self.juxtaposition {
            Some(symbol) => match self.trailing(symbol) {
                Some(Trailing::Infix { left, right }) => Some(
                    (symbol, Trailing::Infix { left, right }),
                ),
                _ => None,
            },
            None => None,
        }
    }

    /// The same grammar with `op` recorded for `symbol`.
    pub open spec fn with(self, symbol: Seq<char>, op: Operator) -> GrammarView {
        GrammarView { table: self.table.insert(symbol, op), ..self }
    }
}

/// `symbol` as a prefix operator at `precedence`, keeping its other role.
pub open spec fn as_prefix(table: Map<Seq<char>, Operator>, symbol: Seq<char>, precedence: u8) -> Operator {
    Operator { prefix: Some(base(precedence)), ..record(table, symbol) }
}

/// `symbol` as an infix operator, keeping its prefix role.
pub open spec fn as_infix(
    table: Map<Seq<char>, Operator>,
    symbol: Seq<char>,
    precedence: u8,
    assoc: Assoc,
) -> Operator {
    Operator {
        trailing: Some(
            Trailing::Infix { left: powers(assoc, precedence).0, right: powers(assoc, precedence).1 },
        ),
        ..record(table, symbol)
    }
}

/// `symbol` as a postfix operator, keeping its prefix role.
pub open spec fn as_postfix(table: Map<Seq<char>, Operator>, symbol: Seq<char>, precedence: u8) -> Operator {
    Operator { trailing: Some(Trailing::Postfix { left: base(precedence) }), ..record(table, symbol) }
}

impl View for Grammar {
    type V = GrammarView;

    closed spec fn view(&self) -> GrammarView {
        GrammarView {
            table: entries_table(self.operators@.map_values(|e: (String, Operator)| (e.0@, e.1))),
            juxtaposition: match self.juxtaposition {
                Some(s) => Some(s@),
                None => None,
            },
        }
    }
}

impl Grammar {
    /// The entries of the table, as values.
    closed spec fn entries(&self) -> Seq<(Seq<char>, Operator)> {
        self.operators@.map_values(|e: (String, Operator)| (e.0@, e.1))
    }
}

/// Operator symbols must be lexically distinguishable from the atoms: they
/// cannot start like an identifier or a number, and cannot contain
/// whitespace or the punctuation that is reserved for calls and grouping.
pub open spec fn symbol_problem(symbol: Seq<char>) -> Option<Seq<char>> {
    if symbol.len() == 0 {
        Some("an operator symbol cannot be empty"@)
    } else if char_alphabetic(symbol[0]) || symbol[0] == '_' || ('0' <= symbol[0]
        && symbol[0] <= '9') {
        Some("operator `"@ + symbol + "` would lex as an identifier or a number"@)
    } else if exists|i: int|
        0 <= i < symbol.len() && (char_whitespace(#[trigger] symbol[i]) || symbol[i] == '('
            || symbol[i] == ')' || symbol[i] == ',') {
        Some("operator `"@ + symbol + "` contains whitespace or reserved punctuation"@)
    } else {
        None
    }
}

fn check_symbol(symbol: &Vec<char>) -> (r: Result<(), ParseError>)
    ensures
        match symbol_problem(symbol@) {
            Some(message) => r matches Err(e) && e@ == (message, None::<usize>),
            None => r is Ok,
        },
{
    if symbol.len() == 0 {
        return Err(ParseError::new("an operator symbol cannot be empty"));
    }
    let first = symbol[0];
    if is_alphabetic(first) || first == '_' || ('0' <= first && first <= '9') {
        let message = framed("operator `", symbol, "` would lex as an identifier or a number");
        return Err(ParseError::from_chars(&message));
    }
    let mut i: usize = 0;
    while i < symbol.len()
        invariant
            i <= symbol.len(),
            symbol.len() > 0,
            !(char_alphabetic(symbol@[0]) || symbol@[0] == '_' || ('0' <= symbol@[0]
                && symbol@[0] <= '9')),
            forall|j: int|
                0 <= j < i ==> !(char_whitespace(#[trigger] symbol@[j]) || symbol@[j] == '('
                    || symbol@[j] == ')' || symbol@[j] == ','),
        decreases symbol.len() - i,
    {
        let c = symbol[i];
        if is_whitespace(c) || c == '(' || c == ')' || c == ',' {
            proof {
                assert(char_whitespace(symbol@[i as int]) || symbol@[i as int] == '('
                    || symbol@[i as int] == ')' || symbol@[i as int] == ',');
            }
            let message = framed(
                "operator `",
                symbol,
                "` contains whitespace or reserved punctuation",
            );
            return Err(ParseError::from_chars(&message));
        }
        i = i + 1;
    }
    Ok(())
}

proof fn lemma_lookup_update(
    table: Seq<(Seq<char>, Operator)>,
    i: int,
    symbol: Seq<char>,
    op: Operator,
    other: Seq<char>,
)
    requires
        0 <= i < table.len(),
        table[i].0 == symbol,
        forall|j: int| 0 <= j < i ==> #[trigger] table[j].0 != symbol,
    ensures
        first_entry(table.update(i, (symbol, op)), symbol) == Some(op),
        other != symbol ==> first_entry(table.update(i, (symbol, op)), other) == first_entry(table, other),
    decreases i,
{
    let next = table.update(i, (symbol, op));
    if i > 0 {
        assert(next.drop_first() == table.drop_first().update(i - 1, (symbol, op)));
        assert forall|j: int| 0 <= j < i - 1 implies #[trigger] table.drop_first()[j].0 != symbol by {
            assert(table.drop_first()[j] == table[j + 1]);
        }
        lemma_lookup_update(table.drop_first(), i - 1, symbol, op, other);
        assert(table[0].0 != symbol);
    } else {
        assert(next.drop_first() == table.drop_first());
    }
}

proof fn lemma_lookup_push(table: Seq<(Seq<char>, Operator)>, symbol: Seq<char>, op: Operator, other: Seq<char>)
    requires
        forall|j: int| 0 <= j < table.len() ==> #[trigger] table[j].0 != symbol,
    ensures
        first_entry(table.push((symbol, op)), symbol) == Some(op),
        other != symbol ==> first_entry(table.push((symbol, op)), other) == first_entry(table, other),
    decreases table.len(),
{
    let next = table.push((symbol, op));
    if table.len() == 0 {
        assert(next.drop_first() == Seq::<(Seq<char>, Operator)>::empty());
    } else {
        assert(next.drop_first() == table.drop_first().push((symbol, op)));
        assert forall|j: int| 0 <= j < table.drop_first().len() implies #[trigger] table.drop_first()[j].0
            != symbol by {
            assert(table.drop_first()[j] == table[j + 1]);
        }
        lemma_lookup_push(table.drop_first(), symbol, op, other);
        assert(table[0].0 != symbol);
    }
}

proof fn lemma_lookup_absent(table: Seq<(Seq<char>, Operator)>, symbol: Seq<char>)
    requires
        forall|j: int| 0 <= j < table.len() ==> #[trigger] table[j].0 != symbol,
    ensures
        first_entry(table, symbol) is None,
    decreases table.len(),
{
    if table.len() > 0 {
        assert forall|j: int| 0 <= j < table.drop_first().len() implies #[trigger] table.drop_first()[j].0
            != symbol by {
            assert(table.drop_first()[j] == table[j + 1]);
        }
        lemma_lookup_absent(table.drop_first(), symbol);
    }
}

proof fn lemma_lookup_at(table: Seq<(Seq<char>, Operator)>, i: int, symbol: Seq<char>)
    requires
        0 <= i < table.len(),
        table[i].0 == symbol,
        forall|j: int| 0 <= j < i ==> #[trigger] table[j].0 != symbol,
    ensures
        first_entry(table, symbol) == Some(table[i].1),
    decreases i,
{
    if i > 0 {
        assert forall|j: int| 0 <= j < i - 1 implies #[trigger] table.drop_first()[j].0 != symbol by {
            assert(table.drop_first()[j] == table[j + 1]);
        }
        lemma_lookup_at(table.drop_first(), i - 1, symbol);
    }
}

impl Grammar {
    /// A grammar with no operators and no juxtaposition.
    pub fn new() -> (r: Grammar)
        ensures
            r@.table == Map::<Seq<char>, Operator>::empty(),
            r@.juxtaposition is None,
    {
        let r = Grammar { operators: Vec::new(), juxtaposition: None };
        proof {
            assert(r.entries() =~= Seq::<(Seq<char>, Operator)>::empty());
        }
        r
    }

    /// The position of the entry for `symbol`, if any.
    fn position(&self, symbol: &Vec<char>) -> (r: Option<usize>)
        ensures
            match r {
                Some(i) => i < self.entries().len() && self.entries()[i as int].0 == symbol@ && forall|
                    j: int,
                | 0 <= j < i ==> #[trigger] self.entries()[j].0 != symbol@,
                None => forall|j: int|
                    0 <= j < self.entries().len() ==> #[trigger] self.entries()[j].0 != symbol@,
            },
    {
        let mut i: usize = 0;
        while i < self.operators.len()
            invariant
                i <= self.operators.len(),
                self.entries().len() == self.operators.len(),
                forall|j: int| 0 <= j < i ==> #[trigger] self.entries()[j].0 != symbol@,
            decreases self.operators.len() - i,
        {
            let name = chars_of(self.operators[i].0.as_str());
            proof {
                assert(self.entries()[i as int].0 == self.operators@[i as int].0@);
            }
            if same_chars(&name, symbol) {
                return Some(i);
            }
            i = i + 1;
        }
        None
    }

    /// The record for `symbol`.
    fn operator(&self, symbol: &Vec<char>) -> (r: Option<Operator>)
        ensures
            r == (if self@.table.dom().contains(symbol@) {
                Some(self@.table[symbol@])
            } else {
                None
            }),
    {
        proof {
            lemma_entries_table(self.entries(), symbol@);
        }
        match self.position(symbol) {
            Some(i) => {
                proof {
                    lemma_lookup_at(self.entries(), i as int, symbol@);
                }
                Some(self.operators[i].1)
            },
            None => {
                proof {
                    lemma_lookup_absent(self.entries(), symbol@);
                }
                None
            },
        }
    }

    /// The record for `symbol`, empty until a declaration fills a role.
    fn current(&self, symbol: &Vec<char>) -> (r: Operator)
        ensures
            r == record(self@.table, symbol@),
    {
        match self.operator(symbol) {
            Some(op) => op,
            None => Operator { prefix: None, trailing: None },
        }
    }

    /// Records `op` for `symbol`.
    fn set(self, symbol: &Vec<char>, op: Operator) -> (r: Grammar)
        ensures
            r@ == self@.with(symbol@, op),
    {
        let found = self.position(symbol);
        let ghost entries = self.entries();
        let ghost old_view = self@;
        let mut operators = self.operators;
        let juxtaposition = self.juxtaposition;
        let name = string_from_chars(symbol);
        let r = match found {
            Some(i) => {
                operators.set(i, (name, op));
                let r = Grammar { operators, juxtaposition };
                proof {
                    assert(r.entries() == entries.update(i as int, (symbol@, op)));
                    assert forall|other: Seq<char>| #[trigger] r@.table.dom().contains(other)
                        == old_view.with(symbol@, op).table.dom().contains(other) && (
                    r@.table.dom().contains(other) ==> r@.table[other] == old_view.with(
                        symbol@,
                        op,
                    ).table[other]) by {
                        lemma_lookup_update(entries, i as int, symbol@, op, other);
                        lemma_entries_table(entries, other);
                        lemma_entries_table(r.entries(), other);
                    }
                    assert(r@.table =~= old_view.with(symbol@, op).table);
                }
                r
            },
            None => {
                operators.push((name, op));
                let r = Grammar { operators, juxtaposition };
                proof {
                    assert(r.entries() == entries.push((symbol@, op)));
                    assert forall|other: Seq<char>| #[trigger] r@.table.dom().contains(other)
                        == old_view.with(symbol@, op).table.dom().contains(other) && (
                    r@.table.dom().contains(other) ==> r@.table[other] == old_view.with(
                        symbol@,
                        op,
                    ).table[other]) by {
                        lemma_lookup_push(entries, symbol@, op, other);
                        lemma_entries_table(entries, other);
                        lemma_entries_table(r.entries(), other);
                    }
                    assert(r@.table =~= old_view.with(symbol@, op).table);
                }
                r
            },
        };
        r
    }

    /// Records `symbol` as a prefix operator without checking its spelling.
    pub(crate) fn with_prefix(self, symbol: &Vec<char>, precedence: u8) -> (r: Grammar)
        ensures
            r@ == self@.with(symbol@, as_prefix(self@.table, symbol@, precedence)),
    {
        let current = self.current(symbol);
        let op = Operator { prefix: Some(base_power(precedence)), trailing: current.trailing };
        self.set(symbol, op)
    }

    /// Records `symbol` as an infix operator without checking its spelling.
    pub(crate) fn with_infix(self, symbol: &Vec<char>, precedence: u8, assoc: Assoc) -> (r: Grammar)
        ensures
            r@ == self@.with(symbol@, as_infix(self@.table, symbol@, precedence, assoc)),
    {
        let current = self.current(symbol);
        let b = base_power(precedence);
        let (left, right) = match assoc {
            Assoc::Left => (b, b + 1),
            Assoc::Right => (b + 1, b),
        };
        let op = Operator { prefix: current.prefix, trailing: Some(Trailing::Infix { left, right }) };
        self.set(symbol, op)
    }

    /// Reads juxtaposition as `symbol` without checking that it is infix.
    pub(crate) fn with_juxtaposition(self, symbol: &Vec<char>) -> (r: Grammar)
        ensures
            r@ == (GrammarView { juxtaposition: Some(symbol@), ..self@ }),
    {
        Grammar { operators: self.operators, juxtaposition: Some(string_from_chars(symbol)) }
    }

    /// Declares `symbol` as a prefix operator: `symbol a`.
    pub fn prefix(self, symbol: &str, precedence: u8) -> (r: Result<Grammar, ParseError>)
        ensures
            match symbol_problem(symbol@) {
                Some(message) => r matches Err(e) && e@ == (message, None::<usize>),
                None => r matches Ok(g) && g@ == self@.with(
                    symbol@,
                    as_prefix(self@.table, symbol@, precedence),
                ),
            },
    {
        let chars = chars_of(symbol);
        check_symbol(&chars)?;
        Ok(self.with_prefix(&chars, precedence))
    }

    /// Declares `symbol` as an infix operator: `a symbol b`.
    pub fn infix(self, symbol: &str, precedence: u8, assoc: Assoc) -> (r: Result<Grammar, ParseError>)
        ensures
            match symbol_problem(symbol@) {
                Some(message) => r matches Err(e) && e@ == (message, None::<usize>),
                None => match record(self@.table, symbol@).trailing {
                    Some(Trailing::Postfix { .. }) => r matches Err(e) && e@ == (
                        "operator `"@ + symbol@ + "` is already postfix; it cannot also be infix"@,
                        None::<usize>,
                    ),
                    _ => r matches Ok(g) && g@ == self@.with(
                        symbol@,
                        as_infix(self@.table, symbol@, precedence, assoc),
                    ),
                },
            },
    {
        let chars = chars_of(symbol);
        check_symbol(&chars)?;
        let current = self.current(&chars);
        if let Some(Trailing::Postfix { .. }) = current.trailing {
            let message = framed(
                "operator `",
                &chars,
                "` is already postfix; it cannot also be infix",
            );
            return Err(ParseError::from_chars(&message));
        }
        Ok(self.with_infix(&chars, precedence, assoc))
    }

    /// Declares `symbol` as a postfix operator: `a symbol`.
    pub fn postfix(self, symbol: &str, precedence: u8) -> (r: Result<Grammar, ParseError>)
        ensures
            match symbol_problem(symbol@) {
                Some(message) => r matches Err(e) && e@ == (message, None::<usize>),
                None => match record(self@.table, symbol@).trailing {
                    Some(Trailing::Infix { .. }) => r matches Err(e) && e@ == (
                        "operator `"@ + symbol@ + "` is already infix; it cannot also be postfix"@,
                        None::<usize>,
                    ),
                    _ => r matches Ok(g) && g@ == self@.with(
                        symbol@,
                        as_postfix(self@.table, symbol@, precedence),
                    ),
                },
            },
    {
        let chars = chars_of(symbol);
        check_symbol(&chars)?;
        let current = self.current(&chars);
        if let Some(Trailing::Infix { .. }) = current.trailing {
            let message = framed(
                "operator `",
                &chars,
                "` is already infix; it cannot also be postfix",
            );
            return Err(ParseError::from_chars(&message));
        }
        let op = Operator {
            prefix: current.prefix,
            trailing: Some(Trailing::Postfix { left: base_power(precedence) }),
        };
        Ok(self.set(&chars, op))
    }

    /// Reads adjacent operands (`2 x`, `2(x + 1)`, `f(x) y`) as the infix
    /// operator `symbol`, which must already be declared.
    pub fn juxtaposition(self, symbol: &str) -> (r: Result<Grammar, ParseError>)
        ensures
            match self@.trailing(symbol@) {
                Some(Trailing::Infix { .. }) => r matches Ok(g) && g@ == (GrammarView {
                    juxtaposition: Some(symbol@),
                    ..self@
                }),
                _ => r matches Err(e) && e@ == (
                    "juxtaposition must name a declared infix operator, not `"@ + symbol@ + "`"@,
                    None::<usize>,
                ),
            },
    {
        let chars = chars_of(symbol);
        let infix = match self.current(&chars).trailing {
            Some(Trailing::Infix { .. }) => true,
            _ => false,
        };
        if !infix {
            let message = framed(
                "juxtaposition must name a declared infix operator, not `",
                &chars,
                "`",
            );
            return Err(ParseError::from_chars(&message));
        }
        Ok(self.with_juxtaposition(&chars))
    }

    /// Declares `symbol` to parse exactly like `existing` in every role the
    /// latter has, while keeping its own spelling in the tree.
    pub fn alias(self, symbol: &str, existing: &str) -> (r: Result<Grammar, ParseError>)
        ensures
            match symbol_problem(symbol@) {
                Some(message) => r matches Err(e) && e@ == (message, None::<usize>),
                None => if self@.table.dom().contains(existing@) {
                    r matches Ok(g) && g@ == self@.with(symbol@, self@.table[existing@])
                } else {
                    r matches Err(e) && e@ == (
                        "cannot alias `"@ + symbol@ + "` to undeclared `"@ + existing@ + "`"@,
                        None::<usize>,
                    )
                },
            },
    {
        let chars = chars_of(symbol);
        check_symbol(&chars)?;
        let target = chars_of(existing);
        match self.operator(&target) {
            Some(op) => Ok(self.set(&chars, op)),
            None => {
                let mut message = framed("cannot alias `", &chars, "` to undeclared `");
                push_chars(&mut message, &target);
                push_text(&mut message, "`");
                Err(ParseError::from_chars(&message))
            },
        }
    }

    /// Whether `symbol` is declared in some role.
    pub fn is_declared(&self, symbol: &Vec<char>) -> (r: bool)
        ensures
            r == self@.table.dom().contains(symbol@),
    {
        self.operator(symbol).is_some()
    }

    /// The right binding power of `symbol` as a prefix operator.
    pub fn prefix_power(&self, symbol: &Vec<char>) -> (r: Option<u16>)
        ensures
            r == self@.prefix_power(symbol@),
    {
        self.current(symbol).prefix
    }

    /// What `symbol` does after a complete operand.
    pub fn trailing(&self, symbol: &Vec<char>) -> (r: Option<Trailing>)
        ensures
            r == self@.trailing(symbol@),
    {
        self.current(symbol).trailing
    }

    /// The infix operator juxtaposition stands for, with its spelling.
    pub fn juxtaposition_operator(&self) -> (r: Option<(Vec<char>, Trailing)>)
        ensures
            match self@.juxtaposed() {
                Some((symbol, trailing)) => r matches Some(p) && p.0@ == symbol && p.1 == trailing,
                None => r is None,
            },
    {
        match &self.juxtaposition {
            Some(symbol) => {
                let chars = chars_of(symbol.as_str());
                match self.trailing(&chars) {
                    Some(Trailing::Infix { left, right }) => Some(
                        (chars, Trailing::Infix { left, right }),
                    ),
                    _ => None,
                }
            },
            None => None,
        }
    }
}

} // verus!
