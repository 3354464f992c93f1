//! What a parser consumes: the tokens of a text as a peekable stream that
//! knows its position, and the capability a parser offers.
use vstd::prelude::*;

use crate::lex::token_views;
use crate::lexeme::{Token, TokenView};

verus! {

/// Tokens to parse, and the index of the next one.
pub struct ParseInput {
    tokens: Vec<Token>,
    pos: usize,
}

/// Makes a stream at the first of `tokens`.
pub fn to_parse_input(tokens: Vec<Token>) -> (r: ParseInput)
    ensures
        r.wf(),
        r.tokens() == token_views(tokens@),
        r.index() == 0,
{
    ParseInput { tokens, pos: 0 }
}

impl ParseInput {
    /// All tokens of the stream.
    pub closed spec fn tokens(&self) -> Seq<TokenView> {
        token_views(self.tokens@)
    }

    /// Index of the next token.
    pub closed spec fn index(&self) -> int {
        self.pos as int
    }

    pub closed spec fn wf(&self) -> bool {
        self.pos <= self.tokens@.len()
    }

    /// Index of the next token.
    pub fn position(&self) -> (r: usize)
        ensures
            r == self.index(),
    {
        self.pos
    }

    /// The next token and its index, without moving; `None` at the end.
    pub fn peek(&self) -> (r: Option<(usize, &Token)>)
        requires
            self.wf(),
        ensures
            self.index() < self.tokens().len() ==> (r matches Some((k, t)) && k == self.index()
                && t@ == self.tokens()[self.index()]),
            self.index() >= self.tokens().len() ==> r is None,
    {
        if self.pos < self.tokens.len() {
            Some((self.pos, &self.tokens[self.pos]))
        } else {
            None
        }
    }

    /// The next token and its index, moving past it; `None` at the end.
    pub fn next(&mut self) -> (r: Option<(usize, Token)>)
        requires
            old(self).wf(),
        ensures
            final(self).wf(),
            final(self).tokens() == old(self).tokens(),
            old(self).index() < old(self).tokens().len() ==> (r matches Some((k, t)) && k
                == old(self).index() && t@ == old(self).tokens()[old(self).index()]
                && final(self).index() == old(self).index() + 1),
            old(self).index() >= old(self).tokens().len() ==> r is None && final(self).index()
                == old(self).index(),
    {
        if self.pos < self.tokens.len() {
            let t = self.tokens[self.pos].duplicate();
            let k = self.pos;
            self.pos = self.pos + 1;
            Some((k, t))
        } else {
            None
        }
    }
}

/// A parser of some construct, for its users to implement: whether it
/// applies at the stream's position, and the parse itself, which fails with
/// the byte span `(start, end)` of what it could not accept.
pub trait Parser {
    type Output;

    fn usable(&self, input: &mut ParseInput) -> bool
        requires
            old(input).wf(),
    ;

    fn parse(&self, input: &mut ParseInput) -> Result<Self::Output, (usize, usize)>
        requires
            old(input).wf(),
    ;
}

} // verus!
