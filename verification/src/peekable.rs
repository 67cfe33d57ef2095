//! Tokens with lookahead.

use vstd::prelude::*;

use crate::lexer::Lexer;
use crate::syntax::Token;
use crate::text;
use crate::tokens::Tokens;

verus! {

/// Whether this is the index of the character at a place, which is nothing at
/// the end of the source code.
pub open spec fn is_index(place: Lexer, index: Option<usize>) -> bool {
    match index {
        Some(index) => place.pos < place.src.len() && text::is_position(
            place.src,
            place.pos,
            index as int,
        ),
        None => place.pos == place.src.len(),
    }
}

/// A peekable iterator for tokens which allows access to the underlying iterator
/// (which is needed by the parser).
pub struct PeekableTokens<'s> {
    tokens: Tokens<'s>,
    /// The next token and the index it starts at, if it was peeked at.
    peeked: Option<(Option<usize>, Option<Token<'s>>)>,
    /// Where the next token starts.
    place: Ghost<Lexer>,
}

impl<'s> View for PeekableTokens<'s> {
    type V = Lexer;

    closed spec fn view(&self) -> Lexer {
        self.place@
    }
}

impl<'s> PeekableTokens<'s> {
    /// Where the underlying iterator is.
    pub closed spec fn reached(self) -> Lexer {
        self.tokens@
    }

    /// What holds of the iterator at all times.
    pub closed spec fn wf(self) -> bool {
        &&& self.tokens.wf()
        &&& self@.valid()
        &&& match self.peeked {
            Some((index, token)) => {
                &&& is_index(self@, index)
                &&& match token {
                    Some(token) => self@.step() == Some((token@, self.tokens@)),
                    None => self@.step() is None && self.tokens@ == self@,
                }
            },
            None => self.tokens@ == self@,
        }
    }

    /// The iterator is at a valid place of the source code.
    pub proof fn lemma_valid(self)
        requires
            self.wf(),
        ensures
            self@.valid(),
    {
    }

    /// Create a new iterator from another one.
    pub fn new(tokens: Tokens<'s>) -> (peekable: PeekableTokens<'s>)
        requires
            tokens.wf(),
        ensures
            peekable.wf(),
            peekable@ == tokens@,
            peekable.reached() == tokens@,
    {
        proof {
            tokens.lemma_valid();
        }
        let ghost place = tokens@;
        PeekableTokens { tokens, peeked: None, place: Ghost(place) }
    }

    /// Peek at the next element.
    pub fn peek(&mut self) -> (token: Option<Token<'s>>)
        requires
            old(self).wf(),
        ensures
            final(self).wf(),
            final(self)@ == old(self)@,
            match token {
                Some(token) => old(self)@.step() == Some((token@, final(self).reached())),
                None => old(self)@.step() is None && final(self).reached() == old(self)@,
            },
    {
        match self.peeked {
            Some((_, token)) => token,
            None => {
                let index = self.tokens.current_index();
                let token = self.tokens.next();
                self.peeked = Some((index, token));
                token
            },
        }
    }

    /// The index of the first character of the next token in the source string.
    pub fn current_index(&mut self) -> (index: Option<usize>)
        requires
            old(self).wf(),
        ensures
            final(self).wf(),
            final(self)@ == old(self)@,
            final(self).reached() == old(self).reached(),
            is_index(old(self)@, index),
    {
        match self.peeked {
            Some((index, _)) => index,
            None => self.tokens.current_index(),
        }
    }

    /// Go to a new position in the underlying string. A token that was peeked at
    /// is dropped.
    pub fn goto(&mut self, index: usize)
        requires
            old(self).wf(),
            text::on_boundary(old(self)@.src, index as int),
        ensures
            final(self).wf(),
            final(self)@ == old(self).reached().at(
                text::char_index(old(self)@.src, index as int),
            ),
            final(self).reached() == final(self)@,
    {
        proof {
            self@.lemma_step_advances();
        }
        self.tokens.goto(index);
        self.peeked = None;
        proof {
            self.tokens.lemma_valid();
            self.place@ = self.tokens@;
        }
    }

    /// Take the next element.
    pub fn next(&mut self) -> (token: Option<Token<'s>>)
        requires
            old(self).wf(),
        ensures
            final(self).wf(),
            final(self).reached() == final(self)@,
            match token {
                Some(token) => old(self)@.step() == Some((token@, final(self)@)),
                None => old(self)@.step() is None && final(self)@ == old(self)@,
            },
    {
        let token = match self.peeked.take() {
            Some((_, token)) => token,
            None => self.tokens.next(),
        };
        proof {
            self.tokens.lemma_valid();
            self.place@ = self.tokens@;
        }
        token
    }
}

} // verus!
