//! Tokenization of source code.

use vstd::prelude::*;

use crate::chars::PeekableChars;
use crate::lexer;
use crate::lexer::{Lexer, TokensState};
use crate::stack;
use crate::stack::StateStack;
use crate::syntax;
use crate::syntax::{Token, TokenModel};
use crate::text;

verus! {

/// Builds an iterator over the tokens of the source code.
pub fn tokenize<'s>(src: &'s str) -> (tokens: Tokens<'s>)
    ensures
        tokens.wf(),
        tokens@ == Lexer::start(src@),
{
    Tokens::new(src)
}

/// An iterator over the tokens of source code.
#[derive(Debug)]
pub struct Tokens<'s> {
    src: &'s str,
    chars: PeekableChars<'s>,
    state: TokensState,
    stack: StateStack,
}

impl<'s> View for Tokens<'s> {
    type V = Lexer;

    closed spec fn view(&self) -> Lexer {
        Lexer {
            src: self.src@,
            pos: self.chars.pos(),
            state: self.state,
            stack: stack::stack_states(self.stack),
        }
    }
}

impl<'s> Clone for Tokens<'s> {
    fn clone(&self) -> (tokens: Tokens<'s>)
        ensures
            self.wf() ==> tokens.wf(),
            tokens@ == self@,
    {
        Tokens {
            src: self.src,
            chars: self.chars,
            state: self.state,
            stack: stack::stack_clone(&self.stack),
        }
    }
}

impl<'s> Tokens<'s> {
    /// What holds of the iterator at all times.
    pub closed spec fn wf(self) -> bool {
        &&& self.chars.wf()
        &&& self.chars.source() == self.src@
        &&& self@.valid()
    }

    /// Create a new token stream from source code.
    pub fn new(src: &'s str) -> (tokens: Tokens<'s>)
        ensures
            tokens.wf(),
            tokens@ == Lexer::start(src@),
    {
        Tokens {
            src,
            chars: PeekableChars::new(src),
            state: TokensState::Body,
            stack: stack::stack_new(),
        }
    }

    /// Advance the iterator by one step.
    fn advance(&mut self)
        requires
            old(self).wf(),
            old(self)@.pos < old(self)@.src.len(),
        ensures
            final(self).wf(),
            final(self)@ == old(self)@.at(old(self)@.pos + 1),
    {
        self.chars.next();
    }

    /// Switch to the given state.
    fn switch(&mut self, state: TokensState)
        requires
            old(self).wf(),
            old(self)@.state != TokensState::MaybeBody,
        ensures
            final(self).wf(),
            final(self)@ == old(self)@.switched(state),
    {
        let outer = self.state;
        self.state = state;
        stack::stack_push(&mut self.stack, outer);
    }

    /// Go back to the top-of-stack state.
    fn unswitch(&mut self)
        requires
            old(self).wf(),
        ensures
            final(self).wf(),
            final(self)@ == old(self)@.unswitched(),
    {
        match stack::stack_pop(&mut self.stack) {
            Some(state) => {
                self.state = state;
            },
            None => {
                self.state = TokensState::Body;
            },
        }
    }

    /// Advance and return the given token.
    fn consumed(&mut self, token: Token<'s>) -> (same: Token<'s>)
        requires
            old(self).wf(),
            old(self)@.pos < old(self)@.src.len(),
        ensures
            final(self).wf(),
            final(self)@ == old(self)@.at(old(self)@.pos + 1),
            same == token,
    {
        self.advance();
        token
    }

    /// Returns a word containing the string bounded by the given indices.
    fn text(&self, start: usize, end: usize) -> (token: Token<'s>)
        requires
            text::on_boundary(self@.src, start as int),
            text::on_boundary(self@.src, end as int),
            start <= end,
        ensures
            token@ == TokenModel::Text(
                self@.src.subrange(
                    text::char_index(self@.src, start as int),
                    text::char_index(self@.src, end as int),
                ),
            ),
    {
        Token::Text(text::slice(self.src, start, end))
    }

    /// Skip over the whitespace that the next characters are.
    fn skip_blanks(&mut self)
        requires
            old(self).wf(),
        ensures
            final(self).wf(),
            final(self)@ == old(self)@.at(lexer::blank_end(old(self)@.src, old(self)@.pos)),
    {
        loop
            invariant
                self.wf(),
                self@ == old(self)@.at(self@.pos),
                lexer::blank_end(self@.src, self@.pos) == lexer::blank_end(
                    old(self)@.src,
                    old(self)@.pos,
                ),
            ensures
                self@.pos == lexer::blank_end(self@.src, self@.pos),
            decreases self@.src.len() - self@.pos,
        {
            match self.chars.peek() {
                Some((_, ' ')) | Some((_, '\t')) => self.advance(),
                _ => break,
            }
        }
    }

    /// Whether the next character, which is `c`, belongs to the current word.
    fn continues_word(&mut self, c: char) -> (continues: bool)
        requires
            old(self).wf(),
            lexer::has_char(old(self)@.src, old(self)@.pos, c),
        ensures
            final(self).wf(),
            final(self)@ == old(self)@,
            continues == !lexer::ends_word(old(self)@.src, old(self)@.pos, old(self)@.state),
    {
        let in_header = self.state == TokensState::Function;
        let in_body = self.state == TokensState::Body;
        match c {
            '[' | ']' | '$' | '#' | '\\' => false,
            ':' | '=' => !in_header,
            '*' | '_' => {
                if in_body {
                    match self.chars.peek_second() {
                        Some((_, second)) => second != c,
                        None => true,
                    }
                } else {
                    true
                }
            },
            ' ' | '\t' => false,
            _ => !is_newline_char(c),
        }
    }

    /// Skip to the end of the current word and return its index.
    fn skip_word(&mut self, start: usize) -> (end: usize)
        requires
            old(self).wf(),
            text::is_position(old(self)@.src, old(self)@.pos, start as int),
        ensures
            final(self).wf(),
            final(self)@ == old(self)@.at(
                lexer::word_end(old(self)@.src, old(self)@.pos, old(self)@.state),
            ),
            text::is_position(final(self)@.src, final(self)@.pos, end as int),
    {
        let mut end: usize = start;
        loop
            invariant
                self.wf(),
                self@ == old(self)@.at(self@.pos),
                lexer::word_end(self@.src, self@.pos, self@.state) == lexer::word_end(
                    old(self)@.src,
                    old(self)@.pos,
                    old(self)@.state,
                ),
                text::is_position(self@.src, self@.pos, end as int),
            ensures
                self@.pos == lexer::word_end(self@.src, self@.pos, self@.state),
            decreases self@.src.len() - self@.pos,
        {
            match self.chars.peek() {
                Some((index, c)) => {
                    if !self.continues_word(c) {
                        break;
                    }
                    proof {
                        self.lemma_position(index);
                    }
                    end = self.char_end(index, c);
                    self.advance();
                },
                None => break,
            }
        }
        end
    }

    /// The index behind the next character, which is `c`, at the given index.
    fn char_end(&self, index: usize, c: char) -> (end: usize)
        requires
            self.wf(),
            lexer::has_char(self@.src, self@.pos, c),
            text::is_position(self@.src, self@.pos, index as int),
        ensures
            text::is_position(self@.src, self@.pos + 1, end as int),
    {
        proof {
            self.chars.lemma_source_fits();
            text::lemma_next_position(self@.src, self@.pos);
            text::lemma_positions_ordered(self@.src, self@.pos, self@.pos + 1);
        }
        index + text::len_utf8(c)
    }

    /// The text behind a backslash, which is the next character if that can be
    /// escaped and the backslash itself otherwise.
    fn escaped(&mut self) -> (token: Token<'s>)
        requires
            old(self).wf(),
        ensures
            final(self).wf(),
            ({
                let src = old(self)@.src;
                let pos = old(self)@.pos;
                if pos < src.len() && lexer::is_escapable(src[pos]) {
                    &&& token@ == TokenModel::Text(seq![src[pos]])
                    &&& final(self)@ == old(self)@.at(pos + 1)
                } else {
                    &&& token@ == TokenModel::Text(seq!['\\'])
                    &&& final(self)@ == old(self)@
                }
            }),
    {
        if let Some((index, c)) = self.chars.peek() {
            let escapable = match c {
                '[' | ']' | '$' | '#' | '\\' | '*' | '_' => true,
                _ => false,
            };
            if escapable {
                let ghost src = self@.src;
                let ghost pos = self@.pos;
                proof {
                    self.lemma_position(index);
                }
                let end: usize = self.char_end(index, c);
                proof {
                    text::lemma_char_index(src, pos, index as int);
                    text::lemma_char_index(src, pos + 1, end as int);
                    text::lemma_positions_ordered(src, pos, pos + 1);
                    assert(src.subrange(pos, pos + 1) =~= seq![src[pos]]);
                }
                let token = self.text(index, end);
                self.advance();
                return token;
            }
        }
        proof {
            reveal_strlit("\\");
            assert("\\"@ =~= seq!['\\']);
        }
        Token::Text("\\")
    }

    /// The word that starts with the given character at the given index, which
    /// was read already.
    fn word(&mut self, start: usize, first: char) -> (token: Token<'s>)
        requires
            old(self).wf(),
            lexer::has_char(old(self)@.src, old(self)@.pos - 1, first),
            text::is_position(old(self)@.src, old(self)@.pos - 1, start as int),
        ensures
            final(self).wf(),
            ({
                let src = old(self)@.src;
                let pos = old(self)@.pos;
                let end = lexer::word_end(src, pos, old(self)@.state);
                &&& token@ == TokenModel::Text(src.subrange(pos - 1, end))
                &&& final(self)@ == old(self)@.at(end)
            }),
    {
        let ghost src = self@.src;
        let ghost pos = self@.pos;
        proof {
            self.chars.lemma_source_fits();
            text::lemma_next_position(src, pos - 1);
            text::lemma_positions_ordered(src, pos - 1, pos);
        }
        // Find out when the word ends.
        let end: usize = self.skip_word(start + text::len_utf8(first));
        proof {
            lexer::lemma_ends(src, pos, self@.state);
            text::lemma_positions_ordered(src, pos - 1, self@.pos);
            text::lemma_char_index(src, pos - 1, start as int);
            text::lemma_char_index(src, self@.pos, end as int);
        }
        self.text(start, end)
    }

    /// The index that comes with a character is its position.
    proof fn lemma_position(self, index: usize)
        requires
            self.wf(),
            self@.pos < self@.src.len(),
            index == text::byte_index(self@.src, self@.pos) as usize,
        ensures
            text::is_position(self@.src, self@.pos, index as int),
    {
        self.chars.lemma_source_fits();
        text::lemma_positions_ordered(self@.src, self@.pos, self@.pos);
    }

    /// Advance the iterator, return the next token or nothing.
    pub fn next(&mut self) -> (token: Option<Token<'s>>)
        requires
            old(self).wf(),
        ensures
            final(self).wf(),
            match token {
                Some(token) => old(self)@.step() == Some((token@, final(self)@)),
                None => old(self)@.step() is None && final(self)@ == old(self)@,
            },
    {
        // Function maybe has a body
        if self.state == TokensState::MaybeBody {
            match self.chars.peek() {
                None => return None,
                Some((_, '[')) => {
                    self.state = TokensState::Body;
                    return Some(self.consumed(Token::LeftBracket));
                },
                Some(_) => self.unswitch(),
            }
        }
        let ghost before = self@;

        // Take the next char and peek at the one behind.
        let (next_pos, next) = match self.chars.next() {
            Some(indexed) => indexed,
            None => return None,
        };
        let afterwards = match self.chars.peek() {
            Some((_, c)) => Some(c),
            None => None,
        };
        proof {
            assert(self@ == before.at(before.pos + 1));
            self.chars.lemma_source_fits();
            text::lemma_positions_ordered(before.src, before.pos, before.pos);
        }

        let token = match next {
            // Special characters
            '[' => {
                self.switch(TokensState::Function);
                Token::LeftBracket
            },
            ']' => {
                if self.state == TokensState::Function {
                    self.state = TokensState::MaybeBody;
                } else {
                    self.unswitch();
                }
                Token::RightBracket
            },
            '$' => Token::Dollar,
            '#' => Token::Hashtag,
            // Whitespace
            ' ' | '\t' => {
                self.skip_blanks();
                Token::Space
            },
            // Context sensitive operators in headers
            ':' if self.state == TokensState::Function => Token::Colon,
            '=' if self.state == TokensState::Function => Token::Equals,
            // Double star/underscore in bodies
            '*' if self.state == TokensState::Body && matches!(afterwards, Some('*')) =>
                self.consumed(Token::DoubleStar),
            '_' if self.state == TokensState::Body && matches!(afterwards, Some('_')) =>
                self.consumed(Token::DoubleUnderscore),
            // Newlines
            '\r' if matches!(afterwards, Some('\n')) => self.consumed(Token::Newline),
            c if is_newline_char(c) => Token::Newline,
            // Escaping
            '\\' => self.escaped(),
            // Normal text
            _ => self.word(next_pos, next),
        };
        Some(token)
    }

    /// All the tokens that are left.
    pub fn collect(self) -> (tokens: Vec<Token<'s>>)
        requires
            self.wf(),
        ensures
            syntax::token_models(tokens@) == self@.tokens(),
    {
        let mut iter = self;
        let mut tokens: Vec<Token<'s>> = Vec::new();
        loop
            invariant
                iter.wf(),
                syntax::token_models(tokens@) + iter@.tokens() == self@.tokens(),
            ensures
                syntax::token_models(tokens@) == self@.tokens(),
            decreases iter@.src.len() - iter@.pos,
        {
            let ghost before = iter@;
            let ghost so_far = tokens@;
            proof {
                iter.lemma_valid();
                before.lemma_step_advances();
            }
            match iter.next() {
                Some(token) => {
                    tokens.push(token);
                    assert(syntax::token_models(tokens@) =~= syntax::token_models(so_far).push(
                        token@,
                    ));
                    assert(syntax::token_models(tokens@) + iter@.tokens() =~= syntax::token_models(
                        so_far,
                    ) + (seq![token@] + iter@.tokens()));
                },
                None => {
                    assert(syntax::token_models(tokens@) + Seq::<TokenModel>::empty()
                        =~= syntax::token_models(tokens@));
                    break;
                },
            }
        }
        tokens
    }

    /// The index of the first character of the next token in the source string.
    pub fn current_index(&mut self) -> (index: Option<usize>)
        requires
            old(self).wf(),
        ensures
            final(self).wf(),
            final(self)@ == old(self)@,
            match index {
                Some(index) => {
                    &&& old(self)@.pos < old(self)@.src.len()
                    &&& text::is_position(old(self)@.src, old(self)@.pos, index as int)
                },
                None => old(self)@.pos == old(self)@.src.len(),
            },
    {
        let index = self.chars.current_index();
        proof {
            if let Some(index) = index {
                self.lemma_position(index);
            }
        }
        index
    }

    /// Go to a new position in the underlying string.
    pub fn goto(&mut self, index: usize)
        requires
            old(self).wf(),
            text::on_boundary(old(self)@.src, index as int),
        ensures
            final(self).wf(),
            final(self)@ == old(self)@.at(text::char_index(old(self)@.src, index as int)),
    {
        self.chars.goto(index);
    }

    /// The iterator is at a valid place of the source code.
    pub proof fn lemma_valid(self)
        requires
            self.wf(),
        ensures
            self@.valid(),
    {
    }
}

/// Whether this character is a newline (or starts one).
pub fn is_newline_char(character: char) -> (is_newline: bool)
    ensures
        is_newline == lexer::is_newline(character),
{
    match character {
        '\n' | '\r' | '\u{000c}' | '\u{0085}' | '\u{2028}' | '\u{2029}' => true,
        _ => false,
    }
}

} // verus!
