//! Failures of lexing, parsing and lowering.
use vstd::prelude::*;
use vstd::std_specs::cmp::PartialEqSpecImpl;

use crate::text::decimal_text;

verus! {

/// A lexing, parsing or lowering failure: a message, and the byte offset into
/// the source where it was found, when known. Lowering errors have none: the
/// syntax tree carries no spans.
#[derive(Debug)]
pub struct ParseError {
    message: String,
    offset: Option<usize>,
}

impl View for ParseError {
    type V = (Seq<char>, Option<usize>);

    closed spec fn view(&self) -> (Seq<char>, Option<usize>) {
        (self.message@, self.offset)
    }
}

/// How an error with the given message and offset is displayed.
pub open spec fn displayed(e: (Seq<char>, Option<usize>)) -> Seq<char> {
    match e.1 {
        Some(n) => e.0 + " (at byte "@ + decimal_text(n as nat) + ")"@,
        None => e.0,
    }
}

impl ParseError {
    /// An error without a position.
    pub fn new(message: &str) -> (r: ParseError)
        ensures
            r@ == (message@, None::<usize>),
    {
        ParseError { message: message.to_owned(), offset: None }
    }

    /// An error at byte `offset` of the source.
    pub fn at(offset: usize, message: &str) -> (r: ParseError)
        ensures
            r@ == (message@, Some(offset)),
    {
        ParseError { message: message.to_owned(), offset: Some(offset) }
    }

    /// An error without a position, from the characters of its message.
    pub fn from_chars(message: &Vec<char>) -> (r: ParseError)
        ensures
            r@ == (message@, None::<usize>),
    {
        ParseError { message: crate::text::string_from_chars(message), offset: None }
    }

    /// An error at byte `offset`, from the characters of its message.
    pub fn from_chars_at(offset: usize, message: &Vec<char>) -> (r: ParseError)
        ensures
            r@ == (message@, Some(offset)),
    {
        ParseError { message: crate::text::string_from_chars(message), offset: Some(offset) }
    }

    /// The message.
    pub fn message(&self) -> (r: &str)
        ensures
            r@ == self@.0,
    {
        self.message.as_str()
    }

    /// The byte offset into the source, when known.
    pub fn offset(&self) -> (r: Option<usize>)
        ensures
            r == self@.1,
    {
        self.offset
    }

    /// The error as it is displayed: the message, followed by
    /// ` (at byte N)` when the offset is known.
    pub fn to_string(&self) -> (r: String)
        ensures
            r@ == displayed(self@),
    {
        let mut out: Vec<char> = crate::symbol::chars_of(self.message.as_str());
        match self.offset {
            Some(n) => {
                crate::text::push_text(&mut out, " (at byte ");
                crate::text::push_decimal(&mut out, n);
                crate::text::push_text(&mut out, ")");
                proof {
                    assert(out@ =~= self.message@ + " (at byte "@ + decimal_text(n as nat) + ")"@);
                }
            },
            None => {},
        }
        crate::text::string_from_chars(&out)
    }
}

impl Clone for ParseError {
    fn clone(&self) -> (r: Self)
        ensures
            r@ == self@,
    {
        ParseError { message: self.message.clone(), offset: self.offset }
    }
}

impl PartialEq for ParseError {
    fn eq(&self, other: &Self) -> (r: bool) {
        let same_offset = match (self.offset, other.offset) {
            (Some(a), Some(b)) => a == b,
            (None, None) => true,
            _ => false,
        };
        same_offset && self.message == other.message
    }
}

impl PartialEqSpecImpl for ParseError {
    open spec fn obeys_eq_spec() -> bool {
        true
    }

    open spec fn eq_spec(&self, other: &ParseError) -> bool {
        self@ == other@
    }
}

impl Eq for ParseError {

}

} // verus!
