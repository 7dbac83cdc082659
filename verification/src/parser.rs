//! A Pratt parser over the token stream, driven by a [`Grammar`].
use vstd::prelude::*;
use crate::ast::{Ast, AstView};
use crate::grammar::{Grammar, GrammarView, Trailing};
use crate::grammar::Operator;
use crate::lexer::{byte_len, char_width, ident_from, is_alphabetic, is_digit, is_whitespace, lemma_byte_len_encoding, lemma_byte_len_step, located, make_token, number_from, opens_ident, payload, prepend, scan_ident, scan_number, spelling, subrange_chars, char_whitespace, LocatedToken, Token, TokenKind};
use crate::parse_error::ParseError;
use crate::symbol::chars_of;
use crate::text::{framed, push_text, string_from_chars};

verus! {

/// The length of the longest declared symbol that starts at character `i`
/// and is at most `n` characters long.
pub open spec fn longest_symbol(table: Map<Seq<char>, Operator>, s: Seq<char>, i: int, n: int) -> Option<
    nat,
>
    decreases n,
{
    if n <= 0 {
        None
    } else if 0 <= i && i + n <= s.len() && table.dom().contains(s.subrange(i, i + n)) {
        Some(n as nat)
    } else {
        longest_symbol(table, s, i, n - 1)
    }
}

/// The token that the grammar `g` reads at character `i` (which is not
/// whitespace), with the number of characters it spans: the longest
/// declared symbol, a parenthesis, a comma, a number or an identifier.
pub open spec fn grammar_token_at(g: GrammarView, s: Seq<char>, i: nat) -> Option<(TokenKind, nat)> {
    match longest_symbol(g.table, s, i as int, s.len() - i) {
        Some(n) => Some((TokenKind::Op, n)),
        None => {
            let c = s[i as int];
            if c == '(' {
                Some((TokenKind::LParen, 1))
            } else if c == ')' {
                Some((TokenKind::RParen, 1))
            } else if c == ',' {
                Some((TokenKind::Comma, 1))
            } else if is_digit(c) {
                Some((TokenKind::Number, number_from(s, i)))
            } else if opens_ident(c) {
                Some((TokenKind::Ident, ident_from(s, i)))
            } else {
                None
            }
        },
    }
}

/// The tokens the grammar `g` reads from `s` from character `i` on, each
/// with its byte offset; or the offset and character where none starts.
pub open spec fn grammar_lex(g: GrammarView, s: Seq<char>, i: nat) -> Result<
    Seq<LocatedToken>,
    (int, char),
>
    decreases s.len() - i,
{
    if i >= s.len() {
        Ok(Seq::empty())
    } else if char_whitespace(s[i as int]) {
        grammar_lex(g, s, i + 1)
    } else {
        match grammar_token_at(g, s, i) {
            None => Err((byte_len(s.take(i as int)) as int, s[i as int])),
            Some((kind, n)) => if n == 0 || i + n > s.len() {
                Ok(Seq::empty())
            } else {
                prepend(
                    seq![
                        (
                            kind,
                            payload(kind, s, i as int, (i + n) as int),
                            byte_len(s.take(i as int)) as int,
                        ),
                    ],
                    grammar_lex(g, s, i + n),
                )
            },
        }
    }
}

/// The message for a character no token of the grammar starts with.
pub open spec fn unexpected_text(c: char) -> Seq<char> {
    "unexpected `"@ + seq![c] + "`"@
}

/// A parse failure: its message and the byte offset it points at.
pub type Failure = (Seq<char>, int);

/// A token that is spelled as an operator symbol.
pub open spec fn is_symbol_kind(kind: TokenKind) -> bool {
    kind == TokenKind::Plus || kind == TokenKind::Minus || kind == TokenKind::Star || kind
        == TokenKind::Slash || kind == TokenKind::Caret || kind == TokenKind::Wedge || kind
        == TokenKind::Op
}

/// How a located token is written.
pub open spec fn written(t: LocatedToken) -> Seq<char> {
    spelling((t.0, t.1))
}

pub open spec fn found_instead_of_expression(found: Seq<char>) -> Seq<char> {
    "expected an expression, found `"@ + found + "`"@
}

pub open spec fn found_instead_of_close(found: Seq<char>) -> Seq<char> {
    "expected `)`, found `"@ + found + "`"@
}

pub open spec fn found_instead_of_separator(found: Seq<char>) -> Seq<char> {
    "expected `,` or `)`, found `"@ + found + "`"@
}

pub open spec fn found_after_expression(found: Seq<char>) -> Seq<char> {
    "unexpected `"@ + found + "`"@
}

/// What the token at `pos`, after a complete operand, does to it: the
/// operator's spelling, its binding powers, and whether it is written (an
/// operand that follows directly is juxtaposition, which has no token).
pub open spec fn parse_continuation(toks: Seq<LocatedToken>, g: GrammarView, pos: int) -> Option<
    (Seq<char>, Trailing, bool),
> {
    if pos < 0 || pos >= toks.len() {
        None
    } else {
        let t = toks[pos];
        if is_symbol_kind(t.0) {
            match g.trailing(written(t)) {
                Some(trailing) => Some((written(t), trailing, true)),
                None => None,
            }
        } else if t.0 == TokenKind::Number || t.0 == TokenKind::Ident || t.0 == TokenKind::LParen {
            match g.juxtaposed() {
                Some((symbol, trailing)) => Some((symbol, trailing, false)),
                None => None,
            }
        } else {
            None
        }
    }
}

/// An operand: a literal, an identifier, a call, a parenthesized
/// expression, or a prefix operator applied to an expression; with the
/// position after it.
pub open spec fn parse_primary(toks: Seq<LocatedToken>, g: GrammarView, end: int, pos: int) -> Result<
    (AstView, int),
    Failure,
>
    decreases toks.len() - pos, 0int,
{
    if pos < 0 || pos >= toks.len() {
        Err(("expected an expression, found end of input"@, end))
    } else {
        let t = toks[pos];
        if t.0 == TokenKind::Number {
            Ok((AstView::Number(t.1), pos + 1))
        } else if t.0 == TokenKind::Ident {
            if pos + 1 < toks.len() && toks[pos + 1].0 == TokenKind::LParen {
                match parse_arguments(toks, g, end, pos + 2) {
                    Ok((args, p)) => Ok((AstView::Call(t.1, args), p)),
                    Err(e) => Err(e),
                }
            } else {
                Ok((AstView::Ident(t.1), pos + 1))
            }
        } else if t.0 == TokenKind::LParen {
            match parse_expr(toks, g, end, pos + 1, 0) {
                Ok((inner, p)) => if 0 <= p < toks.len() {
                    if toks[p].0 == TokenKind::RParen {
                        Ok((AstView::Group(Box::new(inner)), p + 1))
                    } else {
                        Err((found_instead_of_close(written(toks[p])), toks[p].2))
                    }
                } else {
                    Err(("expected `)`, found end of input"@, end))
                },
                Err(e) => Err(e),
            }
        } else if is_symbol_kind(t.0) {
            match g.prefix_power(written(t)) {
                Some(power) => match parse_expr(toks, g, end, pos + 1, power as int) {
                    Ok((inner, p)) => Ok((AstView::Prefix(written(t), Box::new(inner)), p)),
                    Err(e) => Err(e),
                },
                None => Err((found_instead_of_expression(written(t)), t.2)),
            }
        } else {
            Err((found_instead_of_expression(written(t)), t.2))
        }
    }
}

/// An expression whose operators all bind at least as tightly as `min`,
/// with the position after it.
pub open spec fn parse_expr(
    toks: Seq<LocatedToken>,
    g: GrammarView,
    end: int,
    pos: int,
    min: int,
) -> Result<(AstView, int), Failure>
    decreases toks.len() - pos, 1int,
{
    if pos < 0 || pos > toks.len() {
        Err((Seq::empty(), end))
    } else {
        match parse_primary(toks, g, end, pos) {
            Ok((lhs, p)) => if pos < p <= toks.len() {
                parse_expr_loop(toks, g, end, p, min, lhs)
            } else {
                Err((Seq::empty(), end))
            },
            Err(e) => Err(e),
        }
    }
}

/// Extends the complete operand `lhs` with the operators at `pos` that bind
/// at least as tightly as `min`.
pub open spec fn parse_expr_loop(
    toks: Seq<LocatedToken>,
    g: GrammarView,
    end: int,
    pos: int,
    min: int,
    lhs: AstView,
) -> Result<(AstView, int), Failure>
    decreases toks.len() - pos, 2int,
{
    if pos < 0 || pos > toks.len() {
        Err((Seq::empty(), end))
    } else {
        match parse_continuation(toks, g, pos) {
            None => Ok((lhs, pos)),
            Some((op, trailing, explicit)) => if (trailing.spec_left() as int) < min {
                Ok((lhs, pos))
            } else {
                let next = if explicit {
                    pos + 1
                } else {
                    pos
                };
                match trailing {
                    Trailing::Postfix { .. } => if explicit {
                        parse_expr_loop(toks, g, end, next, min, AstView::Postfix(op, Box::new(lhs)))
                    } else {
                        Err((Seq::empty(), end))
                    },
                    Trailing::Infix { right, .. } => match parse_expr(
                        toks,
                        g,
                        end,
                        next,
                        right as int,
                    ) {
                        Ok((rhs, p)) => if pos < p <= toks.len() {
                            parse_expr_loop(
                                toks,
                                g,
                                end,
                                p,
                                min,
                                AstView::Infix(op, Box::new(lhs), Box::new(rhs)),
                            )
                        } else {
                            Err((Seq::empty(), end))
                        },
                        Err(e) => Err(e),
                    },
                }
            },
        }
    }
}

/// Call arguments after the opening parenthesis, through the closing one.
pub open spec fn parse_arguments(toks: Seq<LocatedToken>, g: GrammarView, end: int, pos: int) -> Result<
    (Seq<AstView>, int),
    Failure,
>
    decreases toks.len() - pos, 3int,
{
    if 0 <= pos < toks.len() && toks[pos].0 == TokenKind::RParen {
        Ok((Seq::empty(), pos + 1))
    } else {
        parse_args_loop(toks, g, end, pos, Seq::empty())
    }
}

/// The remaining arguments, after the arguments `done`.
pub open spec fn parse_args_loop(
    toks: Seq<LocatedToken>,
    g: GrammarView,
    end: int,
    pos: int,
    done: Seq<AstView>,
) -> Result<(Seq<AstView>, int), Failure>
    decreases toks.len() - pos, 2int,
{
    if pos < 0 || pos > toks.len() {
        Err((Seq::empty(), end))
    } else {
        match parse_expr(toks, g, end, pos, 0) {
            Err(e) => Err(e),
            Ok((arg, p)) => if !(pos < p <= toks.len()) {
                Err((Seq::empty(), end))
            } else if p < toks.len() {
                if toks[p].0 == TokenKind::Comma {
                    parse_args_loop(toks, g, end, p + 1, done.push(arg))
                } else if toks[p].0 == TokenKind::RParen {
                    Ok((done.push(arg), p + 1))
                } else {
                    Err((found_instead_of_separator(written(toks[p])), toks[p].2))
                }
            } else {
                Err(("expected `,` or `)`, found end of input"@, end))
            },
        }
    }
}

/// A whole token stream as one expression.
pub open spec fn parse_tokens(toks: Seq<LocatedToken>, g: GrammarView, end: int) -> Result<
    AstView,
    Failure,
> {
    match parse_expr(toks, g, end, 0, 0) {
        Ok((ast, p)) => if 0 <= p < toks.len() {
            Err((found_after_expression(written(toks[p])), toks[p].2))
        } else {
            Ok(ast)
        },
        Err(e) => Err(e),
    }
}

/// A source text as one expression of the grammar `g`.
pub open spec fn parse_text(g: GrammarView, src: Seq<char>) -> Result<AstView, Failure> {
    match grammar_lex(g, src, 0) {
        Err((at, c)) => Err((unexpected_text(c), at)),
        Ok(toks) => parse_tokens(toks, g, byte_len(src) as int),
    }
}

struct Parser {
    tokens: Vec<(Token, usize)>,
    pos: usize,
    end: usize,
}

impl Parser {
    spec fn toks(&self) -> Seq<LocatedToken> {
        located(self.tokens@)
    }

    fn kind_at(&self, i: usize) -> (r: TokenKind)
        requires
            i < self.tokens.len(),
        ensures
            r == self.toks()[i as int].0,
    {
        self.tokens[i].0.kind()
    }

    fn offset_at(&self, i: usize) -> (r: usize)
        requires
            i < self.tokens.len(),
        ensures
            r as int == self.toks()[i as int].2,
    {
        self.tokens[i].1
    }

    fn written_at(&self, i: usize) -> (r: Vec<char>)
        requires
            i < self.tokens.len(),
        ensures
            r@ == written(self.toks()[i as int]),
    {
        self.tokens[i].0.spelling()
    }

    fn continuation(&self, g: &Grammar) -> (r: Option<(Vec<char>, Trailing, bool)>)
        requires
            self.pos <= self.tokens.len(),
        ensures
            match parse_continuation(self.toks(), g@, self.pos as int) {
                Some((symbol, trailing, explicit)) => r matches Some(c) && c.0@ == symbol && c.1
                    == trailing && c.2 == explicit,
                None => r is None,
            },
    {
        if self.pos >= self.tokens.len() {
            return None;
        }
        let kind = self.kind_at(self.pos);
        match kind {
            TokenKind::Number | TokenKind::Ident | TokenKind::LParen => {
                match g.juxtaposition_operator() {
                    Some((symbol, trailing)) => Some((symbol, trailing, false)),
                    None => None,
                }
            },
            TokenKind::RParen | TokenKind::Comma => None,
            _ => {
                let symbol = self.written_at(self.pos);
                match g.trailing(&symbol) {
                    Some(trailing) => Some((symbol, trailing, true)),
                    None => None,
                }
            },
        }
    }

    fn primary(&mut self, g: &Grammar) -> (r: Result<Ast, ParseError>)
        requires
            old(self).pos <= old(self).tokens.len(),
        ensures
            final(self).tokens == old(self).tokens,
            final(self).end == old(self).end,
            match parse_primary(old(self).toks(), g@, old(self).end as int, old(self).pos as int) {
                Ok((ast, p)) => r matches Ok(x) && x@ == ast && final(self).pos == p && old(self).pos
                    < p <= old(self).tokens.len(),
                Err((message, at)) => r matches Err(e) && e@ == (message, Some(at as usize)),
            },
        decreases old(self).tokens.len() - old(self).pos, 0int,
    {
        if self.pos >= self.tokens.len() {
            return Err(ParseError::at(self.end, "expected an expression, found end of input"));
        }
        let pos = self.pos;
        let kind = self.kind_at(pos);
        let at = self.offset_at(pos);
        match kind {
            TokenKind::Number => {
                let text = self.tokens[pos].0.text();
                self.pos = pos + 1;
                Ok(Ast::Number(text))
            },
            TokenKind::Ident => {
                let name = self.tokens[pos].0.text();
                if pos + 1 < self.tokens.len() && self.kind_at(pos + 1) == TokenKind::LParen {
                    self.pos = pos + 2;
                    match self.arguments(g) {
                        Ok(args) => Ok(Ast::Call(name, args)),
                        Err(e) => Err(e),
                    }
                } else {
                    self.pos = pos + 1;
                    Ok(Ast::Ident(name))
                }
            },
            TokenKind::LParen => {
                self.pos = pos + 1;
                let inner = match self.expr(g, 0) {
                    Ok(x) => x,
                    Err(e) => {
                        return Err(e);
                    },
                };
                let p = self.pos;
                if p < self.tokens.len() {
                    if self.kind_at(p) == TokenKind::RParen {
                        self.pos = p + 1;
                        Ok(Ast::Group(Box::new(inner)))
                    } else {
                        let found = self.written_at(p);
                        let message = framed("expected `)`, found `", &found, "`");
                        Err(ParseError::from_chars_at(self.offset_at(p), &message))
                    }
                } else {
                    Err(ParseError::at(self.end, "expected `)`, found end of input"))
                }
            },
            TokenKind::RParen | TokenKind::Comma => {
                let found = self.written_at(pos);
                let message = framed("expected an expression, found `", &found, "`");
                Err(ParseError::from_chars_at(at, &message))
            },
            _ => {
                let symbol = self.written_at(pos);
                match g.prefix_power(&symbol) {
                    Some(power) => {
                        self.pos = pos + 1;
                        let inner = match self.expr(g, power) {
                            Ok(x) => x,
                            Err(e) => {
                                return Err(e);
                            },
                        };
                        Ok(Ast::Prefix(string_from_chars(&symbol), Box::new(inner)))
                    },
                    None => {
                        let message = framed("expected an expression, found `", &symbol, "`");
                        Err(ParseError::from_chars_at(at, &message))
                    },
                }
            },
        }
    }

    fn expr(&mut self, g: &Grammar, min: u16) -> (r: Result<Ast, ParseError>)
        requires
            old(self).pos <= old(self).tokens.len(),
        ensures
            final(self).tokens == old(self).tokens,
            final(self).end == old(self).end,
            match parse_expr(
                old(self).toks(),
                g@,
                old(self).end as int,
                old(self).pos as int,
                min as int,
            ) {
                Ok((ast, p)) => r matches Ok(x) && x@ == ast && final(self).pos == p && old(self).pos
                    < p <= old(self).tokens.len(),
                Err((message, at)) => r matches Err(e) && e@ == (message, Some(at as usize)),
            },
        decreases old(self).tokens.len() - old(self).pos, 1int,
    {
        let ghost start = self.pos as int;
        let ghost tokens = self.tokens;
        let ghost toks = self.toks();
        let ghost end = self.end as int;
        let mut lhs = match self.primary(g) {
            Ok(x) => x,
            Err(e) => {
                return Err(e);
            },
        };
        loop
            invariant
                self.tokens == tokens,
                tokens == old(self).tokens,
                toks == self.toks(),
                self.end as int == end,
                self.end == old(self).end,
                start == old(self).pos,
                start < self.pos <= self.tokens.len(),
                parse_expr(toks, g@, end, start, min as int) == parse_expr_loop(
                    toks,
                    g@,
                    end,
                    self.pos as int,
                    min as int,
                    lhs@,
                ),
            decreases self.tokens.len() - self.pos,
        {
            match self.continuation(g) {
                None => {
                    return Ok(lhs);
                },
                Some((symbol, trailing, explicit)) => {
                    if trailing.left() < min {
                        return Ok(lhs);
                    }
                    let pos = self.pos;
                    if explicit {
                        self.pos = pos + 1;
                    }
                    match trailing {
                        Trailing::Postfix { .. } => {
                            lhs = Ast::Postfix(string_from_chars(&symbol), Box::new(lhs));
                        },
                        Trailing::Infix { right, .. } => {
                            let rhs = match self.expr(g, right) {
                                Ok(x) => x,
                                Err(e) => {
                                    return Err(e);
                                },
                            };
                            lhs = Ast::Infix(string_from_chars(&symbol), Box::new(lhs), Box::new(rhs));
                        },
                    }
                },
            }
        }
    }

    fn arguments(&mut self, g: &Grammar) -> (r: Result<Vec<Ast>, ParseError>)
        requires
            old(self).pos <= old(self).tokens.len(),
        ensures
            final(self).tokens == old(self).tokens,
            final(self).end == old(self).end,
            match parse_arguments(old(self).toks(), g@, old(self).end as int, old(self).pos as int) {
                Ok((args, p)) => r matches Ok(v) && Ast::nodes(v@) == args && final(self).pos == p
                    && old(self).pos < p <= old(self).tokens.len(),
                Err((message, at)) => r matches Err(e) && e@ == (message, Some(at as usize)),
            },
        decreases old(self).tokens.len() - old(self).pos, 3int,
    {
        if self.pos < self.tokens.len() && self.kind_at(self.pos) == TokenKind::RParen {
            self.pos = self.pos + 1;
            let none: Vec<Ast> = Vec::new();
            proof {
                assert(Ast::nodes(none@) == Seq::<AstView>::empty());
            }
            return Ok(none);
        }
        let ghost start = self.pos as int;
        let ghost tokens = self.tokens;
        let ghost toks = self.toks();
        let ghost end = self.end as int;
        let mut args: Vec<Ast> = Vec::new();
        proof {
            assert(Ast::nodes(args@) == Seq::<AstView>::empty());
        }
        loop
            invariant
                self.tokens == tokens,
                tokens == old(self).tokens,
                toks == self.toks(),
                self.end as int == end,
                self.end == old(self).end,
                start == old(self).pos,
                start <= self.pos <= self.tokens.len(),
                parse_arguments(toks, g@, end, start) == parse_args_loop(
                    toks,
                    g@,
                    end,
                    self.pos as int,
                    Ast::nodes(args@),
                ),
            decreases self.tokens.len() - self.pos,
        {
            let arg = match self.expr(g, 0) {
                Ok(x) => x,
                Err(e) => {
                    return Err(e);
                },
            };
            let ghost before = args@;
            proof {
                Ast::lemma_nodes_push(before, arg);
            }
            args.push(arg);
            let p = self.pos;
            if p < self.tokens.len() {
                let kind = self.kind_at(p);
                if kind == TokenKind::Comma {
                    self.pos = p + 1;
                } else if kind == TokenKind::RParen {
                    self.pos = p + 1;
                    return Ok(args);
                } else {
                    let found = self.written_at(p);
                    let message = framed("expected `,` or `)`, found `", &found, "`");
                    return Err(ParseError::from_chars_at(self.offset_at(p), &message));
                }
            } else {
                return Err(ParseError::at(self.end, "expected `,` or `)`, found end of input"));
            }
        }
    }
}

impl Grammar {
    /// The token this grammar reads at character `i`, with its length.
    fn token_at(&self, chars: &Vec<char>, i: usize) -> (r: Option<(TokenKind, usize)>)
        requires
            i < chars.len(),
        ensures
            match grammar_token_at(self@, chars@, i as nat) {
                Some((kind, n)) => r == Some((kind, n as usize)) && 1 <= n && i + n <= chars.len(),
                None => r is None,
            },
    {
        let mut n: usize = chars.len() - i;
        while n > 0
            invariant
                i < chars.len(),
                n <= chars.len() - i,
                longest_symbol(self@.table, chars@, i as int, (chars.len() - i) as int)
                    == longest_symbol(self@.table, chars@, i as int, n as int),
            decreases n,
        {
            let candidate = subrange_chars(chars, i, i + n);
            if self.is_declared(&candidate) {
                return Some((TokenKind::Op, n));
            }
            n = n - 1;
        }
        let c = chars[i];
        if c == '(' {
            Some((TokenKind::LParen, 1))
        } else if c == ')' {
            Some((TokenKind::RParen, 1))
        } else if c == ',' {
            Some((TokenKind::Comma, 1))
        } else if '0' <= c && c <= '9' {
            Some((TokenKind::Number, scan_number(chars, i)))
        } else if is_alphabetic(c) || c == '_' {
            Some((TokenKind::Ident, scan_ident(chars, i)))
        } else {
            None
        }
    }

    /// Splits `src` into this grammar's tokens, each with its byte offset:
    /// the longest declared symbol, parentheses, commas, numbers and
    /// identifiers. Whitespace is skipped; a character no token starts with
    /// is an error at its offset.
    pub fn tokenize(&self, src: &str) -> (r: Result<Vec<(Token, usize)>, ParseError>)
        ensures
            match grammar_lex(self@, src@, 0) {
                Ok(tokens) => r matches Ok(v) && located(v@) == tokens,
                Err((at, c)) => r matches Err(e) && e@ == (unexpected_text(c), Some(at as usize))
                    && 0 <= at <= usize::MAX,
            },
    {
        let chars = chars_of(src);
        let total = src.as_bytes().len();
        proof {
            lemma_byte_len_encoding(src@);
            assert(chars@.take(0) == Seq::<char>::empty());
            assert(located(Seq::<(Token, usize)>::empty()) == Seq::<LocatedToken>::empty());
            assert(grammar_lex(self@, src@, 0) == prepend(Seq::empty(), grammar_lex(self@, src@, 0)));
        }
        let mut tokens: Vec<(Token, usize)> = Vec::new();
        let mut i: usize = 0;
        let mut at: usize = 0;
        while i < chars.len()
            invariant
                chars@ == src@,
                i <= chars.len(),
                at == byte_len(chars@.take(i as int)),
                byte_len(chars@) == total,
                grammar_lex(self@, src@, 0) == prepend(
                    located(tokens@),
                    grammar_lex(self@, src@, i as nat),
                ),
            decreases chars.len() - i,
        {
            let c = chars[i];
            proof {
                lemma_byte_len_step(chars@, i as int);
            }
            if is_whitespace(c) {
                at = at + char_width(c);
                i = i + 1;
            } else {
                match self.token_at(&chars, i) {
                    None => {
                        let mut message: Vec<char> = Vec::new();
                        push_text(&mut message, "unexpected `");
                        message.push(c);
                        push_text(&mut message, "`");
                        proof {
                            assert(message@ == unexpected_text(c));
                        }
                        return Err(ParseError::from_chars_at(at, &message));
                    },
                    Some((kind, n)) => {
                        let text = subrange_chars(&chars, i, i + n);
                        let token = make_token(kind, &text);
                        let ghost before = tokens@;
                        tokens.push((token, at));
                        proof {
                            let item = (kind, payload(kind, src@, i as int, i + n), at as int);
                            assert(grammar_token_at(self@, src@, i as nat) == Some((kind, n as nat)));
                            assert(!char_whitespace(src@[i as int]));
                            assert(grammar_lex(self@, src@, i as nat) == prepend(
                                seq![item],
                                grammar_lex(self@, src@, (i + n) as nat),
                            ));
                            assert(located(tokens@) == located(before).push(item));
                            match grammar_lex(self@, src@, (i + n) as nat) {
                                Ok(rest) => {
                                    assert(located(before) + (seq![item] + rest) == located(
                                        before,
                                    ).push(item) + rest);
                                },
                                Err(_) => {},
                            }
                        }
                        let end = i + n;
                        while i < end
                            invariant
                                i <= end <= chars.len(),
                                chars@ == src@,
                                at == byte_len(chars@.take(i as int)),
                                byte_len(chars@) == total,
                                grammar_lex(self@, src@, 0) == prepend(
                                    located(tokens@),
                                    grammar_lex(self@, src@, end as nat),
                                ),
                            decreases end - i,
                        {
                            proof {
                                lemma_byte_len_step(chars@, i as int);
                            }
                            at = at + char_width(chars[i]);
                            i = i + 1;
                        }
                    },
                }
            }
        }
        proof {
            assert(located(tokens@) + Seq::<LocatedToken>::empty() == located(tokens@));
        }
        Ok(tokens)
    }

    /// Parses `src` into an [`Ast`] using this grammar's operators. Tokens
    /// left after a complete expression are an error at the first of them.
    pub fn parse(&self, src: &str) -> (r: Result<Ast, ParseError>)
        ensures
            match parse_text(self@, src@) {
                Ok(ast) => r matches Ok(x) && x@ == ast,
                Err((message, at)) => r matches Err(e) && e@ == (message, Some(at as usize)),
            },
    {
        let tokens = match self.tokenize(src) {
            Ok(t) => t,
            Err(e) => {
                return Err(e);
            },
        };
        let end = src.as_bytes().len();
        proof {
            lemma_byte_len_encoding(src@);
        }
        let mut parser = Parser { tokens, pos: 0, end };
        let ast = match parser.expr(self, 0) {
            Ok(x) => x,
            Err(e) => {
                return Err(e);
            },
        };
        if parser.pos < parser.tokens.len() {
            let p = parser.pos;
            let found = parser.written_at(p);
            let message = framed("unexpected `", &found, "`");
            return Err(ParseError::from_chars_at(parser.offset_at(p), &message));
        }
        Ok(ast)
    }
}

} // verus!
