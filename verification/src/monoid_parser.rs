//! A parser of monoid expressions from a stream of tokens: symbols
//! separated by the operator.
use std::marker::PhantomData;
use vstd::prelude::*;

use crate::monoid::{Monoid, MonoidExpr, MonoidTerm, TermOf};
use crate::parse_error::ParseError;
use crate::symbol::Symbol;

verus! {

/// A token of a monoid expression: a symbol, or the operator.
#[derive(Debug)]
pub enum MonoidExprToken {
    Symbol(String),
    Op,
}

/// The mathematical content of a token.
pub enum TokenView {
    Symbol(Seq<char>),
    Op,
}

impl View for MonoidExprToken {
    type V = TokenView;

    open spec fn view(&self) -> TokenView {
        match self {
            MonoidExprToken::Symbol(s) => TokenView::Symbol(s@),
            MonoidExprToken::Op => TokenView::Op,
        }
    }
}

/// The views of a list of tokens.
pub open spec fn token_views(ts: Seq<MonoidExprToken>) -> Seq<TokenView> {
    ts.map_values(|t: MonoidExprToken| t@)
}

/// `ctx` extended by the operator and the term `rhs`: appended to an
/// application, or an application of the two.
pub open spec fn extended<M: Monoid>(ctx: TermOf<M>, rhs: TermOf<M>) -> TermOf<M> {
    match ctx {
        MonoidTerm::Op(terms) => MonoidTerm::Op(terms.push(rhs)),
        _ => MonoidTerm::Op(seq![ctx, rhs]),
    }
}

/// What reading the tokens `ts` after the expression `ctx` gives: a symbol
/// replaces the expression read so far, and the operator must be followed by
/// a symbol, which is applied to it.
pub open spec fn parse_tokens<M: Monoid>(ctx: Option<TermOf<M>>, ts: Seq<TokenView>) -> Result<
    Option<TermOf<M>>,
    Seq<char>,
>
    decreases ts.len(),
{
    if ts.len() == 0 {
        Ok(ctx)
    } else {
        match ts[0] {
            TokenView::Symbol(s) => parse_tokens::<M>(Some(MonoidTerm::Symbol(s)), ts.drop_first()),
            TokenView::Op => match ctx {
                None => Err("Expression start with operator"@),
                Some(c) => if ts.len() < 2 {
                    Err("Expected a term, got eof"@)
                } else {
                    match ts[1] {
                        TokenView::Op => Err("Expected a term, got operator"@),
                        TokenView::Symbol(s) => parse_tokens::<M>(
                            Some(extended::<M>(c, MonoidTerm::Symbol(s))),
                            ts.skip(2),
                        ),
                    }
                },
            },
        }
    }
}

/// A parser of monoid expressions over the given tokens.
pub struct MonoidParser<M> {
    tokens: Vec<MonoidExprToken>,
    marker: PhantomData<M>,
}

impl<M: Monoid> MonoidParser<M> {
    /// The tokens still to read.
    pub closed spec fn remaining(&self) -> Seq<TokenView> {
        token_views(self.tokens@)
    }

    /// A parser that reads `tokens`.
    pub fn new(tokens: Vec<MonoidExprToken>) -> (r: Self)
        ensures
            r.remaining() == token_views(tokens@),
    {
        MonoidParser { tokens, marker: PhantomData }
    }

    /// Reads all the tokens: the expression they spell (none for no tokens),
    /// or the error of the first misplaced token.
    pub fn parse(self) -> (r: Result<Option<MonoidExpr<M>>, ParseError>)
        ensures
            match parse_tokens::<M>(None, self.remaining()) {
                Ok(None) => r matches Ok(None),
                Ok(Some(t)) => r matches Ok(Some(e)) && e@ == t,
                Err(m) => r matches Err(e) && e@ == (m, None::<usize>),
            },
    {
        let ghost all = token_views(self.tokens@);
        let mut rest = self.tokens;
        let mut ctx: Option<MonoidExpr<M>> = None;
        proof {
            assert(token_views(rest@) == all);
        }
        while rest.len() > 0
            invariant
                all == self.remaining(),
                parse_tokens::<M>(
                    match ctx {
                        Some(e) => Some(e@),
                        None => None,
                    },
                    token_views(rest@),
                ) == parse_tokens::<M>(None, all),
            decreases rest.len(),
        {
            let ghost before = token_views(rest@);
            let token = rest.remove(0);
            proof {
                assert(before[0] == token@);
                assert(token_views(rest@) =~= before.drop_first());
            }
            match token {
                MonoidExprToken::Symbol(s) => {
                    ctx = Some(MonoidExpr::Symbol(Symbol::new(s.as_str())));
                },
                MonoidExprToken::Op => {
                    match ctx {
                        None => {
                            proof {
                                assert(parse_tokens::<M>(None, before) == Err::<Option<TermOf<M>>, Seq<char>>("Expression start with operator"@));
                            }
                            return Err(ParseError::new("Expression start with operator"));
                        },
                        Some(c) => {
                            if rest.len() == 0 {
                                proof {
                                    assert(before.len() == 1);
                                }
                                return Err(ParseError::new("Expected a term, got eof"));
                            }
                            let next = rest.remove(0);
                            proof {
                                assert(before[1] == next@);
                                assert(token_views(rest@) =~= before.skip(2));
                            }
                            match next {
                                MonoidExprToken::Op => {
                                    return Err(ParseError::new("Expected a term, got operator"));
                                },
                                MonoidExprToken::Symbol(s) => {
                                    let rhs = MonoidExpr::Symbol(Symbol::new(s.as_str()));
                                    let ghost cv = c@;
                                    let joined = match c {
                                        MonoidExpr::Op(mut terms) => {
                                            let ghost old_terms = terms@;
                                            terms.push(rhs);
                                            proof {
                                                MonoidExpr::<M>::lemma_terms_push(old_terms, rhs);
                                                assert(cv == MonoidTerm::<<M::Domain as View>::V>::Op(MonoidExpr::<M>::terms(old_terms)));
                                            }
                                            MonoidExpr::Op(terms)
                                        },
                                        other => {
                                            let mut terms: Vec<MonoidExpr<M>> = Vec::new();
                                            terms.push(other);
                                            terms.push(rhs);
                                            proof {
                                                MonoidExpr::<M>::lemma_terms(terms@);
                                                assert(!(cv is Op));
                                                assert(MonoidExpr::<M>::terms(terms@) =~= seq![cv, rhs@]);
                                            }
                                            MonoidExpr::Op(terms)
                                        },
                                    };
                                    proof {
                                        assert(joined@ == extended::<M>(cv, rhs@));
                                    }
                                    ctx = Some(joined);
                                },
                            }
                        },
                    }
                },
            }
        }
        Ok(ctx)
    }
}

} // verus!
