//! Splitting source text into tokens, each with its byte offset.
use vstd::prelude::*;
use vstd::std_specs::cmp::PartialEqSpecImpl;
use crate::parse_error::ParseError;
use crate::symbol::chars_of;
use crate::text::{push_text, string_from_chars};

verus! {

/// What a token is, without its text.
#[derive(Clone, Copy, Debug, PartialEq, Eq, Structural)]
pub enum TokenKind {
    Number,
    Ident,
    Plus,
    Minus,
    Star,
    Slash,
    Caret,
    Wedge,
    LParen,
    RParen,
    Comma,
    Op,
}

/// A token of the expression syntax.
#[derive(Debug)]
pub enum Token {
    /// Digits with an optional fraction: `3`, `2.5`.
    Number(String),
    /// A letter or `_`, then letters, digits, `_` or `'`.
    Ident(String),
    Plus,
    Minus,
    Star,
    Slash,
    Caret,
    /// `∧`, also spelled `/\`.
    Wedge,
    LParen,
    RParen,
    Comma,
    /// An operator symbol of a grammar.
    Op(String),
}

impl View for Token {
    /// The kind, and the text of a number, an identifier or a grammar's
    /// operator (empty for the others).
    type V = (TokenKind, Seq<char>);

    open spec fn view(&self) -> (TokenKind, Seq<char>) {
        match self {
            Token::Number(text) => (TokenKind::Number, text@),
            Token::Ident(text) => (TokenKind::Ident, text@),
            Token::Plus => (TokenKind::Plus, Seq::empty()),
            Token::Minus => (TokenKind::Minus, Seq::empty()),
            Token::Star => (TokenKind::Star, Seq::empty()),
            Token::Slash => (TokenKind::Slash, Seq::empty()),
            Token::Caret => (TokenKind::Caret, Seq::empty()),
            Token::Wedge => (TokenKind::Wedge, Seq::empty()),
            Token::LParen => (TokenKind::LParen, Seq::empty()),
            Token::RParen => (TokenKind::RParen, Seq::empty()),
            Token::Comma => (TokenKind::Comma, Seq::empty()),
            Token::Op(text) => (TokenKind::Op, text@),
        }
    }
}

/// How a token is written: the text of a number, an identifier or a
/// grammar's operator, and the symbol of the others (`/\` is written `∧`).
pub open spec fn spelling(token: (TokenKind, Seq<char>)) -> Seq<char> {
    match token.0 {
        TokenKind::Number => token.1,
        TokenKind::Ident => token.1,
        TokenKind::Plus => seq!['+'],
        TokenKind::Minus => seq!['-'],
        TokenKind::Star => seq!['*'],
        TokenKind::Slash => seq!['/'],
        TokenKind::Caret => seq!['^'],
        TokenKind::Wedge => seq!['\u{2227}'],
        TokenKind::LParen => seq!['('],
        TokenKind::RParen => seq![')'],
        TokenKind::Comma => seq![','],
        TokenKind::Op => token.1,
    }
}

impl Token {
    /// The token's kind.
    pub fn kind(&self) -> (r: TokenKind)
        ensures
            r == self@.0,
    {
        match self {
            Token::Number(_) => TokenKind::Number,
            Token::Ident(_) => TokenKind::Ident,
            Token::Plus => TokenKind::Plus,
            Token::Minus => TokenKind::Minus,
            Token::Star => TokenKind::Star,
            Token::Slash => TokenKind::Slash,
            Token::Caret => TokenKind::Caret,
            Token::Wedge => TokenKind::Wedge,
            Token::LParen => TokenKind::LParen,
            Token::RParen => TokenKind::RParen,
            Token::Comma => TokenKind::Comma,
            Token::Op(_) => TokenKind::Op,
        }
    }

    /// The text of a number, an identifier or a grammar's operator; empty
    /// for the other tokens.
    pub fn text(&self) -> (r: String)
        ensures
            r@ == self@.1,
    {
        match self {
            Token::Number(text) => text.clone(),
            Token::Ident(text) => text.clone(),
            Token::Op(text) => text.clone(),
            _ => String::new(),
        }
    }

    /// How the token is written.
    pub fn spelling(&self) -> (r: Vec<char>)
        ensures
            r@ == spelling(self@),
    {
        match self {
            Token::Number(text) => chars_of(text.as_str()),
            Token::Ident(text) => chars_of(text.as_str()),
            Token::Plus => vec!['+'],
            Token::Minus => vec!['-'],
            Token::Star => vec!['*'],
            Token::Slash => vec!['/'],
            Token::Caret => vec!['^'],
            Token::Wedge => vec!['\u{2227}'],
            Token::LParen => vec!['('],
            Token::RParen => vec![')'],
            Token::Comma => vec![','],
            Token::Op(text) => chars_of(text.as_str()),
        }
    }
}

impl Clone for Token {
    fn clone(&self) -> (r: Self)
        ensures
            r@ == self@,
    {
        match self {
            Token::Number(text) => Token::Number(text.clone()),
            Token::Ident(text) => Token::Ident(text.clone()),
            Token::Plus => Token::Plus,
            Token::Minus => Token::Minus,
            Token::Star => Token::Star,
            Token::Slash => Token::Slash,
            Token::Caret => Token::Caret,
            Token::Wedge => Token::Wedge,
            Token::LParen => Token::LParen,
            Token::RParen => Token::RParen,
            Token::Comma => Token::Comma,
            Token::Op(text) => Token::Op(text.clone()),
        }
    }
}

impl PartialEq for Token {
    fn eq(&self, other: &Self) -> (r: bool) {
        let kind = self.kind();
        if kind != other.kind() {
            return false;
        }
        match (self, other) {
            (Token::Number(a), Token::Number(b)) => same_text(a, b),
            (Token::Ident(a), Token::Ident(b)) => same_text(a, b),
            (Token::Op(a), Token::Op(b)) => same_text(a, b),
            _ => true,
        }
    }
}

fn same_text(a: &String, b: &String) -> (r: bool)
    ensures
        r == (a@ == b@),
{
    *a == *b
}

impl PartialEqSpecImpl for Token {
    open spec fn obeys_eq_spec() -> bool {
        true
    }

    open spec fn eq_spec(&self, other: &Token) -> bool {
        self@ == other@
    }
}

impl Eq for Token {

}

/// Whether `char::is_whitespace` holds of `c`: the Unicode `White_Space`
/// property.
pub uninterp spec fn unicode_whitespace(c: char) -> bool;

/// Whether `char::is_alphabetic` holds of `c`: the Unicode `Alphabetic`
/// property.
pub uninterp spec fn unicode_alphabetic(c: char) -> bool;

/// Whether `char::is_numeric` holds of `c`: the Unicode general categories
/// for numbers.
pub uninterp spec fn unicode_numeric(c: char) -> bool;

/// `White_Space`: on ASCII characters the space, tab, line feed, vertical
/// tab, form feed and carriage return.
pub open spec fn char_whitespace(c: char) -> bool {
    if c <= '\x7f' {
        c == ' ' || ('\t' <= c && c <= '\r')
    } else {
        unicode_whitespace(c)
    }
}

/// `Alphabetic`: on ASCII characters the Latin letters.
pub open spec fn char_alphabetic(c: char) -> bool {
    if c <= '\x7f' {
        ('a' <= c && c <= 'z') || ('A' <= c && c <= 'Z')
    } else {
        unicode_alphabetic(c)
    }
}

/// The numeric categories: on ASCII characters the decimal digits.
pub open spec fn char_numeric(c: char) -> bool {
    if c <= '\x7f' {
        '0' <= c && c <= '9'
    } else {
        unicode_numeric(c)
    }
}

/// `char::is_whitespace`. On ASCII characters, `White_Space` is the space,
/// tab, line feed, vertical tab, form feed and carriage return.
#[verifier::external_body]
pub(crate) fn is_whitespace(c: char) -> (r: bool)
    ensures
        r == char_whitespace(c),
        c > '\x7f' ==> r == unicode_whitespace(c),
{
    c.is_whitespace()
}

/// `char::is_alphabetic`. On ASCII characters, `Alphabetic` holds of the
/// Latin letters only.
#[verifier::external_body]
pub(crate) fn is_alphabetic(c: char) -> (r: bool)
    ensures
        r == char_alphabetic(c),
        c > '\x7f' ==> r == unicode_alphabetic(c),
{
    c.is_alphabetic()
}

/// `char::is_numeric`. On ASCII characters, the numeric categories hold of
/// the decimal digits only.
#[verifier::external_body]
pub(crate) fn is_numeric(c: char) -> (r: bool)
    ensures
        r == char_numeric(c),
        c > '\x7f' ==> r == unicode_numeric(c),
{
    c.is_numeric()
}

/// An ASCII digit.
pub open spec fn is_digit(c: char) -> bool {
    '0' <= c && c <= '9'
}

/// A character that may start an identifier.
pub open spec fn opens_ident(c: char) -> bool {
    char_alphabetic(c) || c == '_'
}

/// A character that may continue an identifier (`char::is_alphanumeric` is
/// alphabetic or numeric).
pub open spec fn continues_ident(c: char) -> bool {
    char_alphabetic(c) || char_numeric(c) || c == '_' || c == '\''
}

/// The number of bytes of `c` in UTF-8.
pub open spec fn utf8_width(c: char) -> nat {
    if (c as u32) < 0x80 {
        1
    } else if (c as u32) < 0x800 {
        2
    } else if (c as u32) < 0x10000 {
        3
    } else {
        4
    }
}

/// The number of bytes of a text in UTF-8.
pub open spec fn byte_len(s: Seq<char>) -> nat
    decreases s.len(),
{
    if s.len() == 0 {
        0
    } else {
        utf8_width(s[0]) + byte_len(s.drop_first())
    }
}

/// The byte length of a concatenation is the sum of the byte lengths.
pub proof fn lemma_byte_len_concat(a: Seq<char>, b: Seq<char>)
    ensures
        byte_len(a + b) == byte_len(a) + byte_len(b),
    decreases a.len(),
{
    if a.len() == 0 {
        assert(a + b == b);
    } else {
        lemma_byte_len_concat(a.drop_first(), b);
        assert((a + b).drop_first() == a.drop_first() + b);
    }
}

/// `byte_len` counts the bytes that `str` stores.
pub proof fn lemma_byte_len_encoding(s: Seq<char>)
    ensures
        byte_len(s) == vstd::utf8::encode_utf8(s).len(),
    decreases s.len(),
{
    if s.len() > 0 {
        vstd::utf8::char_is_scalar(s[0]);
        lemma_byte_len_encoding(s.drop_first());
    }
}

/// Taking one more character adds its width, and stays within the text.
pub proof fn lemma_byte_len_step(s: Seq<char>, k: int)
    requires
        0 <= k < s.len(),
    ensures
        byte_len(s.take(k + 1)) == byte_len(s.take(k)) + utf8_width(s[k]),
        byte_len(s.take(k + 1)) <= byte_len(s),
{
    assert(s.take(k + 1) == s.take(k) + seq![s[k]]);
    lemma_byte_len_concat(s.take(k), seq![s[k]]);
    assert(seq![s[k]].drop_first() == Seq::<char>::empty());
    assert(byte_len(Seq::<char>::empty()) == 0);
    assert(byte_len(seq![s[k]]) == utf8_width(s[k]));
    assert(s == s.take(k + 1) + s.skip(k + 1));
    lemma_byte_len_concat(s.take(k + 1), s.skip(k + 1));
}

/// The length of the run of digits starting at `i`.
pub open spec fn digits_from(s: Seq<char>, i: nat) -> nat
    decreases s.len() - i,
{
    if i < s.len() && is_digit(s[i as int]) {
        1 + digits_from(s, i + 1)
    } else {
        0
    }
}

/// The length of the run of identifier characters starting at `i`.
pub open spec fn ident_from(s: Seq<char>, i: nat) -> nat
    decreases s.len() - i,
{
    if i < s.len() && continues_ident(s[i as int]) {
        1 + ident_from(s, i + 1)
    } else {
        0
    }
}

/// The length of the numeric literal starting at `i`: digits, then a `.`
/// and more digits if there are any (a trailing `.` is not part of it).
pub open spec fn number_from(s: Seq<char>, i: nat) -> nat {
    let whole = digits_from(s, i);
    let dot = i + whole;
    if dot < s.len() && s[dot as int] == '.' && digits_from(s, dot + 1) > 0 {
        whole + 1 + digits_from(s, dot + 1)
    } else {
        whole
    }
}

/// The token that starts at character `i` (which is not whitespace), with
/// the number of characters it spans; `None` where no token starts there.
pub open spec fn token_at(s: Seq<char>, i: nat) -> Option<(TokenKind, nat)> {
    let c = s[i as int];
    if c == '+' {
        Some((TokenKind::Plus, 1))
    } else if c == '-' {
        Some((TokenKind::Minus, 1))
    } else if c == '*' {
        Some((TokenKind::Star, 1))
    } else if c == '/' {
        if i + 1 < s.len() && s[i + 1 as int] == '\\' {
            Some((TokenKind::Wedge, 2))
        } else {
            Some((TokenKind::Slash, 1))
        }
    } else if c == '^' {
        Some((TokenKind::Caret, 1))
    } else if c == '\u{2227}' {
        Some((TokenKind::Wedge, 1))
    } else if c == '(' {
        Some((TokenKind::LParen, 1))
    } else if c == ')' {
        Some((TokenKind::RParen, 1))
    } else if c == ',' {
        Some((TokenKind::Comma, 1))
    } else if is_digit(c) {
        Some((TokenKind::Number, number_from(s, i)))
    } else if opens_ident(c) {
        Some((TokenKind::Ident, ident_from(s, i)))
    } else {
        None
    }
}

/// A token with the byte offset where it starts.
pub type LocatedToken = (TokenKind, Seq<char>, int);

/// The text carried by a token of kind `kind` spanning `s[i..j]`.
pub open spec fn payload(kind: TokenKind, s: Seq<char>, i: int, j: int) -> Seq<char> {
    if kind == TokenKind::Number || kind == TokenKind::Ident || kind == TokenKind::Op {
        s.subrange(i, j)
    } else {
        Seq::empty()
    }
}

/// Puts `done` in front of the tokens of a successful lex.
pub open spec fn prepend(done: Seq<LocatedToken>, rest: Result<Seq<LocatedToken>, (int, char)>) -> Result<
    Seq<LocatedToken>,
    (int, char),
> {
    match rest {
        Ok(tokens) => Ok(done + tokens),
        Err(e) => Err(e),
    }
}

/// The tokens of `s` from character `i` on, each with its byte offset in
/// `s`; or the offset and character where no token starts. Whitespace
/// separates tokens and is skipped.
pub open spec fn lex(s: Seq<char>, i: nat) -> Result<Seq<LocatedToken>, (int, char)>
    decreases s.len() - i,
{
    if i >= s.len() {
        Ok(Seq::empty())
    } else if char_whitespace(s[i as int]) {
        lex(s, i + 1)
    } else {
        match token_at(s, i) {
            None => Err((byte_len(s.take(i as int)) as int, s[i as int])),
            Some((kind, n)) => if n == 0 || i + n > s.len() {
                Ok(Seq::empty())
            } else {
                prepend(
                    seq![(kind, payload(kind, s, i as int, (i + n) as int), byte_len(s.take(i as int)) as int)],
                    lex(s, i + n),
                )
            },
        }
    }
}

/// The message for a character no token starts with.
pub open spec fn unexpected_character(c: char) -> Seq<char> {
    "unexpected character `"@ + seq![c] + "`"@
}

/// Tokens with their offsets, as values.
pub open spec fn located(tokens: Seq<(Token, usize)>) -> Seq<LocatedToken> {
    tokens.map_values(|t: (Token, usize)| (t.0@.0, t.0@.1, t.1 as int))
}

pub(crate) fn char_width(c: char) -> (r: usize)
    ensures
        r == utf8_width(c),
{
    let v = c as u32;
    if v < 0x80 {
        1
    } else if v < 0x800 {
        2
    } else if v < 0x10000 {
        3
    } else {
        4
    }
}

fn scan_digits(chars: &Vec<char>, i: usize) -> (r: usize)
    requires
        i <= chars.len(),
    ensures
        r == digits_from(chars@, i as nat),
        i + r <= chars.len(),
{
    let mut j = i;
    while j < chars.len() && '0' <= chars[j] && chars[j] <= '9'
        invariant
            i <= j <= chars.len(),
            digits_from(chars@, i as nat) == (j - i) + digits_from(chars@, j as nat),
        decreases chars.len() - j,
    {
        j = j + 1;
    }
    j - i
}

pub(crate) fn scan_ident(chars: &Vec<char>, i: usize) -> (r: usize)
    requires
        i <= chars.len(),
    ensures
        r == ident_from(chars@, i as nat),
        i + r <= chars.len(),
{
    let mut j = i;
    let mut more = true;
    while more && j < chars.len()
        invariant
            i <= j <= chars.len(),
            ident_from(chars@, i as nat) == (j - i) + ident_from(chars@, j as nat),
            !more ==> ident_from(chars@, j as nat) == 0,
        decreases chars.len() - j, if more { 1int } else { 0int },
    {
        let c = chars[j];
        if is_alphabetic(c) || is_numeric(c) || c == '_' || c == '\'' {
            j = j + 1;
        } else {
            more = false;
        }
    }
    j - i
}

pub(crate) fn scan_number(chars: &Vec<char>, i: usize) -> (r: usize)
    requires
        i <= chars.len(),
    ensures
        r == number_from(chars@, i as nat),
        i + r <= chars.len(),
{
    let whole = scan_digits(chars, i);
    let dot = i + whole;
    if dot < chars.len() && chars[dot] == '.' {
        let fraction = scan_digits(chars, dot + 1);
        if fraction > 0 {
            return whole + 1 + fraction;
        }
    }
    whole
}

fn token_at_exec(chars: &Vec<char>, i: usize) -> (r: Option<(TokenKind, usize)>)
    requires
        i < chars.len(),
    ensures
        match token_at(chars@, i as nat) {
            Some((kind, n)) => r == Some((kind, n as usize)) && i + n <= chars.len(),
            None => r is None,
        },
{
    let c = chars[i];
    if c == '+' {
        Some((TokenKind::Plus, 1))
    } else if c == '-' {
        Some((TokenKind::Minus, 1))
    } else if c == '*' {
        Some((TokenKind::Star, 1))
    } else if c == '/' {
        if i + 1 < chars.len() && chars[i + 1] == '\\' {
            Some((TokenKind::Wedge, 2))
        } else {
            Some((TokenKind::Slash, 1))
        }
    } else if c == '^' {
        Some((TokenKind::Caret, 1))
    } else if c == '\u{2227}' {
        Some((TokenKind::Wedge, 1))
    } else if c == '(' {
        Some((TokenKind::LParen, 1))
    } else if c == ')' {
        Some((TokenKind::RParen, 1))
    } else if c == ',' {
        Some((TokenKind::Comma, 1))
    } else if '0' <= c && c <= '9' {
        Some((TokenKind::Number, scan_number(chars, i)))
    } else if is_alphabetic(c) || c == '_' {
        Some((TokenKind::Ident, scan_ident(chars, i)))
    } else {
        None
    }
}

pub(crate) fn subrange_chars(chars: &Vec<char>, i: usize, j: usize) -> (r: Vec<char>)
    requires
        i <= j <= chars.len(),
    ensures
        r@ == chars@.subrange(i as int, j as int),
{
    let mut out: Vec<char> = Vec::new();
    let mut k = i;
    while k < j
        invariant
            i <= k <= j <= chars.len(),
            out@ == chars@.subrange(i as int, k as int),
        decreases j - k,
    {
        out.push(chars[k]);
        proof {
            assert(chars@.subrange(i as int, k + 1) == chars@.subrange(i as int, k as int).push(
                chars@[k as int],
            ));
        }
        k = k + 1;
    }
    out
}

pub(crate) fn make_token(kind: TokenKind, text: &Vec<char>) -> (r: Token)
    ensures
        r@.0 == kind,
        r@.1 == (if kind == TokenKind::Number || kind == TokenKind::Ident || kind == TokenKind::Op {
            text@
        } else {
            Seq::empty()
        }),
{
    match kind {
        TokenKind::Number => Token::Number(string_from_chars(text)),
        TokenKind::Ident => Token::Ident(string_from_chars(text)),
        TokenKind::Plus => Token::Plus,
        TokenKind::Minus => Token::Minus,
        TokenKind::Star => Token::Star,
        TokenKind::Slash => Token::Slash,
        TokenKind::Caret => Token::Caret,
        TokenKind::Wedge => Token::Wedge,
        TokenKind::LParen => Token::LParen,
        TokenKind::RParen => Token::RParen,
        TokenKind::Comma => Token::Comma,
        TokenKind::Op => Token::Op(string_from_chars(text)),
    }
}

/// Splits `src` into tokens, each paired with its byte offset. Whitespace is
/// skipped; a literal is digits with an optional fraction (`2.5`), and an
/// identifier is a letter or `_` followed by letters, digits, `_` or `'`.
/// A character no token starts with is an error at its offset.
pub fn tokenize(src: &str) -> (r: Result<Vec<(Token, usize)>, ParseError>)
    ensures
        match lex(src@, 0) {
            Ok(tokens) => r matches Ok(v) && located(v@) == tokens,
            Err((at, c)) => r matches Err(e) && e@ == (unexpected_character(c), Some(at as usize))
                && 0 <= at <= usize::MAX,
        },
{
    let chars = chars_of(src);
    let total = src.as_bytes().len();
    proof {
        lemma_byte_len_encoding(src@);
        assert(chars@.take(0) == Seq::<char>::empty());
        assert(located(Seq::<(Token, usize)>::empty()) == Seq::<LocatedToken>::empty());
        assert(lex(src@, 0) == prepend(Seq::empty(), lex(src@, 0)));
    }
    let mut tokens: Vec<(Token, usize)> = Vec::new();
    let mut i: usize = 0;
    let mut at: usize = 0;
    while i < chars.len()
        invariant
            chars@ == src@,
            i <= chars.len(),
            at == byte_len(chars@.take(i as int)),
            byte_len(chars@) == total,
            lex(src@, 0) == prepend(located(tokens@), lex(src@, i as nat)),
        decreases chars.len() - i,
    {
        let c = chars[i];
        proof {
            lemma_byte_len_step(chars@, i as int);
        }
        if is_whitespace(c) {
            at = at + char_width(c);
            i = i + 1;
        } else {
            match token_at_exec(&chars, i) {
                None => {
                    let mut message: Vec<char> = Vec::new();
                    push_text(&mut message, "unexpected character `");
                    message.push(c);
                    push_text(&mut message, "`");
                    proof {
                        assert(message@ == unexpected_character(c));
                    }
                    return Err(ParseError::from_chars_at(at, &message));
                },
                Some((kind, n)) => {
                    let text = subrange_chars(&chars, i, i + n);
                    let token = make_token(kind, &text);
                    let ghost before = tokens@;
                    tokens.push((token, at));
                    proof {
                        let item = (kind, payload(kind, src@, i as int, i + n), at as int);
                        assert(located(tokens@) == located(before).push(item));
                        match lex(src@, (i + n) as nat) {
                            Ok(rest) => {
                                assert(located(before) + (seq![item] + rest) == located(
                                    before,
                                ).push(item) + rest);
                            },
                            Err(_) => {},
                        }
                    }
                    let end = i + n;
                    while i < end
                        invariant
                            i <= end <= chars.len(),
                            chars@ == src@,
                            at == byte_len(chars@.take(i as int)),
                            byte_len(chars@) == total,
                            lex(src@, 0) == prepend(located(tokens@), lex(src@, end as nat)),
                        decreases end - i,
                    {
                        proof {
                            lemma_byte_len_step(chars@, i as int);
                        }
                        at = at + char_width(chars[i]);
                        i = i + 1;
                    }
                },
            }
        }
    }
    proof {
        assert(located(tokens@) + Seq::<LocatedToken>::empty() == located(tokens@));
    }
    Ok(tokens)
}

} // verus!
