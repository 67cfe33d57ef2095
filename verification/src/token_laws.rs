//! What holds of all tokens.

use vstd::prelude::*;
use vstd::utf8::*;

use crate::brackets;
use crate::chars;
use crate::lexer;
use crate::lexer::{Lexer, TokensState};
use crate::peekable;
use crate::syntax;
use crate::syntax::{Token, TokenModel};
use crate::text;

verus! {

/// No two spaces stand next to each other in a sequence of tokens.
pub open spec fn space_tokens_apart(tokens: Seq<TokenModel>) -> bool {
    forall|i: int|
        0 <= i && i + 1 < tokens.len() && #[trigger] tokens[i] is Space ==> !(tokens[i
            + 1] is Space)
}

/// Words end where they cannot go on.
proof fn lemma_word_end(src: Seq<char>, i: int, state: TokensState)
    requires
        0 <= i <= src.len(),
    ensures
        ({
            let end = lexer::word_end(src, i, state);
            &&& i <= end <= src.len()
            &&& forall|k: int| i <= k < end ==> !#[trigger] lexer::ends_word(src, k, state)
            &&& end < src.len() ==> lexer::ends_word(src, end, state)
        }),
    decreases src.len() - i,
{
    if i < src.len() && !lexer::ends_word(src, i, state) {
        lemma_word_end(src, i + 1, state);
    }
}

/// Whitespace ends where there is none.
proof fn lemma_blank_end(src: Seq<char>, i: int)
    requires
        0 <= i <= src.len(),
    ensures
        ({
            let end = lexer::blank_end(src, i);
            &&& i <= end <= src.len()
            &&& forall|k: int| i <= k < end ==> lexer::is_blank(#[trigger] src[k])
            &&& end < src.len() ==> !lexer::is_blank(src[end])
        }),
    decreases src.len() - i,
{
    if i < src.len() && lexer::is_blank(src[i]) {
        lemma_blank_end(src, i + 1);
    }
}

/// Switching back undoes switching, whatever the state was in between.
pub proof fn law_unswitch_undoes_switch(place: Lexer, inner: TokensState, last: TokensState)
    ensures
        place.switched(inner).within(last).unswitched() == place,
{
    assert(place.stack.push(place.state).drop_last() =~= place.stack);
}

/// Whether a place lies in the source code, and no surrounding state leaves open
/// whether a function has a body.
pub open spec fn is_place(place: Lexer) -> bool {
    &&& 0 <= place.pos <= place.src.len()
    &&& forall|i: int|
        0 <= i < place.stack.len() ==> #[trigger] place.stack[i] != TokensState::MaybeBody
}

/// The state that the character at a place is read in. Behind a header that no
/// body follows it is the surrounding one.
pub open spec fn reading_state(place: Lexer) -> TokensState {
    if place.state != TokensState::MaybeBody {
        place.state
    } else if place.stack.len() > 0 {
        place.stack.last()
    } else {
        TokensState::Body
    }
}

/// The states that surround the one that the character at a place is read in.
pub open spec fn reading_stack(place: Lexer) -> Seq<TokensState> {
    if place.state == TokensState::MaybeBody && place.stack.len() > 0 {
        place.stack.drop_last()
    } else {
        place.stack
    }
}

/// Source code is read from its first character on, in the body and in no
/// function.
pub proof fn law_start(src: Seq<char>)
    ensures
        is_place(Lexer::start(src)),
        Lexer::start(src).src == src,
        Lexer::start(src).pos == 0,
        Lexer::start(src).state == TokensState::Body,
        Lexer::start(src).stack.len() == 0,
{
}

/// There is a token at every place but the end of the source code. The tokens
/// from a place on are this one and those behind it.
pub proof fn law_all_tokens(place: Lexer)
    requires
        is_place(place),
    ensures
        match place.step() {
            Some((token, next)) => {
                &&& place.pos < place.src.len()
                &&& is_place(next)
                &&& place.tokens().len() == next.tokens().len() + 1
                &&& place.tokens()[0] == token
                &&& place.tokens().skip(1) == next.tokens()
            },
            None => place.pos == place.src.len() && place.tokens().len() == 0,
        },
{
    place.lemma_step_advances();
    if let Some((token, next)) = place.step() {
        assert(place.tokens().skip(1) =~= next.tokens());
    }
}

/// What kind of token there is at a place depends on the character there, for
/// double stars and underscores also on the one behind it, and for these and
/// for colons and equals signs also on whether the place is in a body or in a
/// header. Every other character is text.
pub proof fn law_kinds(place: Lexer)
    requires
        is_place(place),
        place.pos < place.src.len(),
    ensures
        place.step() matches Some((token, _)) && {
            let c = place.src[place.pos];
            let doubled = place.pos + 1 < place.src.len() && place.src[place.pos + 1] == c;
            let in_header = reading_state(place) == TokensState::Function;
            let in_body = reading_state(place) == TokensState::Body;
            &&& token is LeftBracket <==> c == '['
            &&& token is RightBracket <==> c == ']'
            &&& token is Dollar <==> c == '$'
            &&& token is Hashtag <==> c == '#'
            &&& token is Space <==> c == ' ' || c == '\t'
            &&& token is Newline <==> c == '\u{000a}' || c == '\u{000d}' || c == '\u{000c}' || c
                == '\u{0085}' || c == '\u{2028}' || c == '\u{2029}'
            &&& token is Colon <==> in_header && c == ':'
            &&& token is Equals <==> in_header && c == '='
            &&& token is DoubleStar <==> in_body && c == '*' && doubled
            &&& token is DoubleUnderscore <==> in_body && c == '_' && doubled
            &&& token is Text <==> {
                &&& c != '[' && c != ']' && c != '$' && c != '#' && c != ' ' && c != '\t'
                &&& c != '\u{000a}' && c != '\u{000d}' && c != '\u{000c}' && c != '\u{0085}'
                &&& c != '\u{2028}' && c != '\u{2029}'
                &&& !(in_header && (c == ':' || c == '='))
                &&& !(in_body && (c == '*' || c == '_') && doubled)
            }
        },
{
}

/// How far a token goes: one character, two for double stars and underscores, a
/// carriage return together with a line feed, or all the whitespace there is.
pub proof fn law_extents(place: Lexer)
    requires
        is_place(place),
    ensures
        place.step() matches Some((token, next)) ==> {
            let src = place.src;
            let pos = place.pos;
            &&& next.src == src
            &&& pos < next.pos <= src.len()
            &&& token is LeftBracket || token is RightBracket || token is Dollar || token is Hashtag
                || token is Colon || token is Equals ==> next.pos == pos + 1
            &&& token is DoubleStar || token is DoubleUnderscore ==> next.pos == pos + 2
            &&& token is Newline ==> next.pos == if src[pos] == '\r' && pos + 1 < src.len() && src[pos
                + 1] == '\n' {
                pos + 2
            } else {
                pos + 1
            }
            &&& token is Space ==> {
                &&& forall|i: int|
                    pos <= i < next.pos ==> #[trigger] src[i] == ' ' || src[i] == '\t'
                &&& next.pos < src.len() ==> src[next.pos] != ' ' && src[next.pos] != '\t'
            }
        },
{
    place.lemma_step_advances();
    if place.pos < place.src.len() {
        lemma_blank_end(place.src, place.pos + 1);
        if let Some((TokenModel::Space, next)) = place.step() {
            assert forall|i: int| place.pos <= i < next.pos implies #[trigger] place.src[i] == ' '
                || place.src[i] == '\t' by {
                assert(lexer::is_blank(place.src[i]));
            }
        }
    }
}

/// Where brackets lead to: a left bracket into a header, or into a body if it
/// comes directly behind a header, and a right bracket behind a header or out of
/// a body. Nothing else leads anywhere.
pub proof fn law_contexts(place: Lexer)
    requires
        is_place(place),
    ensures
        place.step() matches Some((token, next)) ==> {
            let state = reading_state(place);
            let stack = reading_stack(place);
            if token is LeftBracket && place.state == TokensState::MaybeBody {
                &&& next.state == TokensState::Body
                &&& next.stack == place.stack
            } else if token is LeftBracket {
                &&& next.state == TokensState::Function
                &&& next.stack == place.stack.push(place.state)
            } else if token is RightBracket && state == TokensState::Function {
                &&& next.state == TokensState::MaybeBody
                &&& next.stack == stack
            } else if token is RightBracket && stack.len() > 0 {
                &&& next.state == stack.last()
                &&& next.stack == stack.drop_last()
            } else if token is RightBracket {
                &&& next.state == TokensState::Body
                &&& next.stack.len() == 0
            } else {
                &&& next.state == state
                &&& next.stack == stack
            }
        },
{
    if place.stack.len() == 0 {
        assert(place.stack =~= Seq::<TokensState>::empty());
    }
}

/// Newlines are tokens of their own in every state, and a carriage return with
/// a line feed behind it is one newline.
pub proof fn law_newlines(place: Lexer)
    requires
        is_place(place),
        place.pos < place.src.len(),
    ensures
        place.step() matches Some((TokenModel::Newline, _)) <==> {
            let c = place.src[place.pos];
            c == '\n' || c == '\r' || c == '\u{000c}' || c == '\u{0085}' || c == '\u{2028}' || c
                == '\u{2029}'
        },
        place.step() matches Some((TokenModel::Newline, next)) ==> next.pos == place.pos + if {
            &&& place.src[place.pos] == '\r'
            &&& place.pos + 1 < place.src.len()
            &&& place.src[place.pos + 1] == '\n'
        } {
            2int
        } else {
            1int
        },
{
}

/// A backslash makes the character behind it plain text if that can be escaped,
/// in every state. Otherwise the backslash is text itself.
pub proof fn law_escape(place: Lexer)
    requires
        is_place(place),
        place.pos < place.src.len(),
        place.src[place.pos] == '\\',
    ensures
        ({
            let behind = place.pos + 1;
            let c = place.src[behind];
            let escapes = behind < place.src.len() && (c == '[' || c == ']' || c == '$' || c == '#'
                || c == '\\' || c == '*' || c == '_');
            let text = if escapes {
                c
            } else {
                '\\'
            };
            let end = if escapes {
                behind + 1
            } else {
                behind
            };
            &&& place.step() matches Some((token, next))
            &&& token == TokenModel::Text(seq![text])
            &&& next.pos == end
        }),
{
}

/// Colons and equals signs are tokens of their own in headers and only there,
/// double stars and double underscores in bodies and only there.
pub proof fn law_context(place: Lexer)
    requires
        is_place(place),
        place.pos < place.src.len(),
    ensures
        ({
            let src = place.src;
            let pos = place.pos;
            let token = (place.step()->0).0;
            let in_header = reading_state(place) == TokensState::Function;
            let in_body = reading_state(place) == TokensState::Body;
            &&& token is Colon <==> in_header && src[pos] == ':'
            &&& token is Equals <==> in_header && src[pos] == '='
            &&& token is DoubleStar <==> in_body && src[pos] == '*' && pos + 1 < src.len() && src[pos
                + 1] == '*'
            &&& token is DoubleUnderscore <==> in_body && src[pos] == '_' && pos + 1 < src.len()
                && src[pos + 1] == '_'
        }),
{
}

/// Whether the character at an index belongs to a word in the given state:
/// everything does but whitespace, newlines, brackets, dollar signs, hashtags and
/// backslashes, in headers colons and equals signs, and in bodies double stars
/// and underscores.
pub open spec fn is_in_word(src: Seq<char>, i: int, state: TokensState) -> bool {
    let c = src[i];
    &&& c != '[' && c != ']' && c != '$' && c != '#' && c != '\\' && c != ' ' && c != '\t'
    &&& c != '\u{000a}' && c != '\u{000d}' && c != '\u{000c}' && c != '\u{0085}' && c != '\u{2028}'
        && c != '\u{2029}'
    &&& state == TokensState::Function ==> c != ':' && c != '='
    &&& state == TokensState::Body && (c == '*' || c == '_') && i + 1 < src.len() ==> src[i + 1]
        != c
}

/// A text is not empty. It is the part of the source code that the token takes
/// up, without the backslash if it is escaped. If it is not escaped and does
/// not consist of a backslash, all of it belongs to a word, and it goes on as
/// far as it can.
pub proof fn law_text(place: Lexer)
    requires
        is_place(place),
    ensures
        place.step() matches Some((TokenModel::Text(text), next)) ==> {
            let src = place.src;
            let state = reading_state(place);
            &&& text.len() > 0
            &&& if src[place.pos] == '\\' {
                ||| text == src.subrange(place.pos, next.pos)
                ||| text == src.subrange(place.pos + 1, next.pos)
            } else {
                &&& text == src.subrange(place.pos, next.pos)
                &&& forall|i: int| place.pos <= i < next.pos ==> #[trigger] is_in_word(src, i, state)
                &&& next.pos < src.len() ==> !is_in_word(src, next.pos, state)
            }
        },
{
    if place.pos < place.src.len() {
        let state = reading_state(place);
        let src = place.src;
        lemma_word_end(src, place.pos + 1, state);
        if let Some((TokenModel::Text(text), next)) = place.step() {
            if src[place.pos] == '\\' {
                if next.pos == place.pos + 2 {
                    assert(text =~= src.subrange(place.pos + 1, next.pos));
                } else {
                    assert(text =~= src.subrange(place.pos, next.pos));
                }
            } else {
                assert forall|i: int| place.pos <= i < next.pos implies #[trigger] is_in_word(
                    src,
                    i,
                    state,
                ) by {
                    assert(!lexer::ends_word(src, i, state));
                }
            }
        }
    }
}

/// The models of tokens are the tokens, with the characters of their texts.
pub proof fn law_token_models(tokens: Seq<Token>, i: int)
    requires
        0 <= i < tokens.len(),
    ensures
        syntax::token_models(tokens).len() == tokens.len(),
        ({
            let token = tokens[i];
            let model = syntax::token_models(tokens)[i];
            &&& model == token@
            &&& model is Space <==> token is Space
            &&& model is Newline <==> token is Newline
            &&& model is LeftBracket <==> token is LeftBracket
            &&& model is RightBracket <==> token is RightBracket
            &&& model is Colon <==> token is Colon
            &&& model is Equals <==> token is Equals
            &&& model is DoubleUnderscore <==> token is DoubleUnderscore
            &&& model is DoubleStar <==> token is DoubleStar
            &&& model is Dollar <==> token is Dollar
            &&& model is Hashtag <==> token is Hashtag
            &&& token matches Token::Text(word) ==> model == TokenModel::Text(word@)
        }),
{
}

/// The position of a character is the number of bytes in front of it, and no two
/// characters have the same.
pub proof fn law_positions(chars: Seq<char>, k: int, index: int)
    ensures
        text::is_position(chars, k, index) <==> 0 <= k <= chars.len() && index == encode_utf8(
            chars.take(k),
        ).len(),
        text::is_position(chars, k, index) ==> text::on_boundary(chars, index) && text::char_index(
            chars,
            index,
        ) == k,
        text::on_boundary(chars, index) ==> text::is_position(
            chars,
            text::char_index(chars, index),
            index,
        ),
{
    if text::is_position(chars, k, index) {
        text::lemma_char_index(chars, k, index);
    }
}

/// Characters come with the number of bytes in front of them.
pub proof fn law_indexed_chars(chars: Seq<char>, k: int)
    ensures
        0 <= k < chars.len() ==> chars::char_at(chars, k) == Some(
            (encode_utf8(chars.take(k)).len() as usize, chars[k]),
        ),
        !(0 <= k < chars.len()) ==> chars::char_at(chars, k) is None,
{
}

/// The index of a place is the number of bytes in front of it, and there is none
/// at the end of the source code.
pub proof fn law_index(place: Lexer, index: Option<usize>)
    requires
        is_place(place),
    ensures
        peekable::is_index(place, index) <==> match index {
            Some(index) => place.pos < place.src.len() && index == encode_utf8(
                place.src.take(place.pos),
            ).len(),
            None => place.pos == place.src.len(),
        },
{
}

/// A space takes up all the whitespace there is, so no two spaces stand next
/// to each other.
pub proof fn law_space_tokens_apart(place: Lexer)
    requires
        place.valid(),
    ensures
        space_tokens_apart(place.tokens()),
    decreases place.src.len() - place.pos,
{
    place.lemma_step_advances();
    if let Some((token, next)) = place.step() {
        law_space_tokens_apart(next);
        lemma_blank_end(place.src, place.pos + 1);
        next.lemma_step_advances();
        if let Some((second, after)) = next.step() {
            assert(next.tokens()[0] == second);
            if token is Space {
                assert(lexer::is_blank(place.src[place.pos]));
                assert(!lexer::is_blank(next.src[next.pos]));
                assert(!(second is Space));
            }
        } else {
            assert(next.tokens().len() == 0);
        }
        let tokens = place.tokens();
        assert forall|i: int|
            0 <= i && i + 1 < tokens.len() && #[trigger] tokens[i] is Space implies !(tokens[i
            + 1] is Space) by {
            if i > 0 {
                assert(tokens[i] == next.tokens()[i - 1]);
                assert(tokens[i + 1] == next.tokens()[i]);
            } else {
                assert(tokens[1] == next.tokens()[0]);
            }
        }
    }
}

/// There is an unbalanced closing bracket if and only if somewhere more
/// brackets are closed than were opened.
pub proof fn law_closing_bracket(chars: Seq<char>)
    ensures
        brackets::closing_bracket(chars) is None <==> (forall|j: int|
            0 <= j <= chars.len() ==> brackets::depth(#[trigger] chars.take(j)) >= 0),
{
    if brackets::closing_bracket(chars) is None {
        assert forall|j: int| 0 <= j <= chars.len() implies brackets::depth(
            #[trigger] chars.take(j),
        ) >= 0 by {
            lemma_no_closing_bracket(chars, j);
        }
    } else {
        let i = brackets::closing_bracket(chars)->0;
        assert(brackets::is_closing_bracket(chars, i));
        assert(brackets::depth(chars.take(i + 1)) < 0);
    }
}

/// A left bracket opens one more, and a right bracket closes one.
pub proof fn law_depth(chars: Seq<char>, c: char)
    ensures
        brackets::depth(Seq::<char>::empty()) == 0,
        brackets::depth(chars.push(c)) == brackets::depth(chars) + if c == '[' {
            1int
        } else if c == ']' {
            -1int
        } else {
            0int
        },
{
    assert(chars.push(c).drop_last() =~= chars);
}

/// The unbalanced closing bracket that is found is a closing bracket with as
/// many brackets opened as closed in front of it and never more closed than
/// opened, and there is no other such bracket.
pub proof fn law_closing_bracket_found(chars: Seq<char>, i: int)
    ensures
        brackets::closing_bracket(chars) == Some(i) <==> {
            &&& 0 <= i < chars.len()
            &&& chars[i] == ']'
            &&& brackets::depth(chars.take(i)) == 0
            &&& forall|j: int| 0 <= j <= i ==> brackets::depth(#[trigger] chars.take(j)) >= 0
        },
{
    brackets::lemma_found(chars);
    if 0 <= i < chars.len() && chars[i] == ']' && brackets::depth(chars.take(i)) == 0 {
        assert(chars.take(i + 1).drop_last() =~= chars.take(i));
        if forall|j: int| 0 <= j <= i ==> brackets::depth(#[trigger] chars.take(j)) >= 0 {
            assert(brackets::is_closing_bracket(chars, i));
            brackets::lemma_closing_bracket(chars, i);
        }
    }
}

proof fn lemma_no_closing_bracket(chars: Seq<char>, j: int)
    requires
        brackets::closing_bracket(chars) is None,
        0 <= j <= chars.len(),
    ensures
        forall|k: int| 0 <= k <= j ==> brackets::depth(#[trigger] chars.take(k)) >= 0,
    decreases j,
{
    if j > 0 {
        lemma_no_closing_bracket(chars, j - 1);
        assert(!brackets::is_closing_bracket(chars, j - 1));
    }
}

} // verus!
