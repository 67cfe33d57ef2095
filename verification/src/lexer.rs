//! The lexical structure of source code.

use vstd::prelude::*;

use crate::syntax::TokenModel;

verus! {

/// The state the tokenizer is in.
#[derive(Debug, Copy, Clone, PartialEq, Eq, Structural)]
pub enum TokensState {
    /// The base state if there is nothing special we are in.
    Body,
    /// Inside a function header. Here colons and equal signs get parsed
    /// as distinct tokens rather than text.
    Function,
    /// We expect either the end of the function or the beginning of the body.
    MaybeBody,
}

/// Whether this character is a newline (or starts one).
pub open spec fn is_newline(c: char) -> bool {
    c == '\n' || c == '\r' || c == '\u{000c}' || c == '\u{0085}' || c == '\u{2028}' || c
        == '\u{2029}'
}

/// Whether this character is whitespace within a line.
pub open spec fn is_blank(c: char) -> bool {
    c == ' ' || c == '\t'
}

/// Whether this character has a meaning of its own wherever it stands.
pub open spec fn is_special(c: char) -> bool {
    c == '[' || c == ']' || c == '$' || c == '#' || c == '\\'
}

/// Whether a backslash in front of this character makes it plain text.
pub open spec fn is_escapable(c: char) -> bool {
    is_special(c) || c == '*' || c == '_'
}

/// Whether the character `c` stands at the index `i`.
pub open spec fn has_char(src: Seq<char>, i: int, c: char) -> bool {
    0 <= i < src.len() && src[i] == c
}

/// Whether a word cannot go on with the character at the index `i`. In headers
/// a word ends at a colon or an equals sign, in bodies at a double star or a
/// double underscore.
pub open spec fn ends_word(src: Seq<char>, i: int, state: TokensState) -> bool {
    let c = src[i];
    ||| is_special(c)
    ||| is_blank(c)
    ||| is_newline(c)
    ||| state == TokensState::Function && (c == ':' || c == '=')
    ||| state == TokensState::Body && (c == '*' || c == '_') && has_char(src, i + 1, c)
}

/// Where a word ends that goes on at least up to the index `i`.
pub open spec fn word_end(src: Seq<char>, i: int, state: TokensState) -> int
    decreases src.len() - i,
{
    if i < src.len() && !ends_word(src, i, state) {
        word_end(src, i + 1, state)
    } else {
        i
    }
}

/// Where whitespace ends that goes on at least up to the index `i`.
pub open spec fn blank_end(src: Seq<char>, i: int) -> int
    decreases src.len() - i,
{
    if i < src.len() && is_blank(src[i]) {
        blank_end(src, i + 1)
    } else {
        i
    }
}

/// A place in the source code together with what surrounds it there.
#[verifier::ext_equal]
pub struct Lexer {
    /// The source code.
    pub src: Seq<char>,
    /// The number of characters in front of the place.
    pub pos: int,
    /// The state at the place.
    pub state: TokensState,
    /// The states of the surrounding functions, the innermost one last.
    pub stack: Seq<TokensState>,
}

impl Lexer {
    /// The start of the source code.
    pub open spec fn start(src: Seq<char>) -> Lexer {
        Lexer { src, pos: 0, state: TokensState::Body, stack: Seq::empty() }
    }

    /// The place lies in the source code, and whether a function has a body is
    /// open at the place only, not in what surrounds it.
    pub open spec fn valid(self) -> bool {
        &&& 0 <= self.pos <= self.src.len()
        &&& forall|i: int|
            0 <= i < self.stack.len() ==> #[trigger] self.stack[i] != TokensState::MaybeBody
    }

    /// Another place with the same surroundings.
    pub open spec fn at(self, pos: int) -> Lexer {
        Lexer { pos, ..self }
    }

    /// The same place in another state.
    pub open spec fn within(self, state: TokensState) -> Lexer {
        Lexer { state, ..self }
    }

    /// The same place, with its state as the surrounding one of a new state.
    pub open spec fn switched(self, state: TokensState) -> Lexer {
        Lexer { state, stack: self.stack.push(self.state), ..self }
    }

    /// The same place in the state that surrounds it, which is that of the
    /// body if there is none.
    pub open spec fn unswitched(self) -> Lexer {
        if self.stack.len() > 0 {
            Lexer { state: self.stack.last(), stack: self.stack.drop_last(), ..self }
        } else {
            Lexer { state: TokensState::Body, ..self }
        }
    }

    /// The token that starts with the character at this place, and the place
    /// behind it.
    pub open spec fn read(self) -> (TokenModel, Lexer) {
        let src = self.src;
        let pos = self.pos;
        let c = src[pos];
        let behind = self.at(pos + 1);
        if c == '[' {
            (TokenModel::LeftBracket, behind.switched(TokensState::Function))
        } else if c == ']' {
            (
                TokenModel::RightBracket,
                if self.state == TokensState::Function {
                    behind.within(TokensState::MaybeBody)
                } else {
                    behind.unswitched()
                },
            )
        } else if c == '$' {
            (TokenModel::Dollar, behind)
        } else if c == '#' {
            (TokenModel::Hashtag, behind)
        } else if is_blank(c) {
            (TokenModel::Space, self.at(blank_end(src, pos + 1)))
        } else if is_newline(c) {
            (
                TokenModel::Newline,
                if c == '\r' && has_char(src, pos + 1, '\n') {
                    self.at(pos + 2)
                } else {
                    behind
                },
            )
        } else if c == '\\' {
            if pos + 1 < src.len() && is_escapable(src[pos + 1]) {
                (TokenModel::Text(seq![src[pos + 1]]), self.at(pos + 2))
            } else {
                (TokenModel::Text(seq!['\\']), behind)
            }
        } else if !ends_word(src, pos, self.state) {
            let end = word_end(src, pos + 1, self.state);
            (TokenModel::Text(src.subrange(pos, end)), self.at(end))
        } else if c == ':' {
            (TokenModel::Colon, behind)
        } else if c == '=' {
            (TokenModel::Equals, behind)
        } else if c == '*' {
            (TokenModel::DoubleStar, self.at(pos + 2))
        } else {
            (TokenModel::DoubleUnderscore, self.at(pos + 2))
        }
    }

    /// The token at this place, and the place behind it, or nothing at the end
    /// of the source code. Directly behind a function header a left bracket
    /// opens the body of the function; anything else ends the function.
    pub open spec fn step(self) -> Option<(TokenModel, Lexer)> {
        if self.pos >= self.src.len() {
            None
        } else if self.state != TokensState::MaybeBody {
            Some(self.read())
        } else if self.src[self.pos] == '[' {
            Some((TokenModel::LeftBracket, self.at(self.pos + 1).within(TokensState::Body)))
        } else {
            Some(self.unswitched().read())
        }
    }
}

/// Words and whitespace end where they are said to go on to, or behind it.
pub proof fn lemma_ends(src: Seq<char>, i: int, state: TokensState)
    requires
        0 <= i <= src.len(),
    ensures
        i <= word_end(src, i, state) <= src.len(),
        i <= blank_end(src, i) <= src.len(),
    decreases src.len() - i,
{
    if i < src.len() {
        lemma_ends(src, i + 1, state);
    }
}

impl Lexer {
    /// Every token takes up at least one character, and the place behind it
    /// is a valid one of the same source code.
    pub proof fn lemma_step_advances(self)
        requires
            self.valid(),
        ensures
            self.step() is None <==> self.pos == self.src.len(),
            self.step() matches Some((_, next)) ==> {
                &&& next.valid()
                &&& next.src == self.src
                &&& self.pos < next.pos
            },
    {
        if self.pos < self.src.len() {
            lemma_ends(self.src, self.pos + 1, self.state);
            lemma_ends(self.src, self.pos + 1, self.unswitched().state);
        }
    }

    /// The tokens from this place on.
    pub open spec fn tokens(self) -> Seq<TokenModel>
        recommends
            self.valid(),
        decreases self.src.len() - self.pos,
        when self.valid()
    {
        proof {
            self.lemma_step_advances();
        }
        match self.step() {
            Some((token, next)) => seq![token] + next.tokens(),
            None => Seq::empty(),
        }
    }
}

} // verus!
