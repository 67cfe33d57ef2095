//! What calls of the library return, by their arguments.

use vstd::prelude::*;
use vstd::utf8::*;

use crate::brackets;
use crate::chars::PeekableChars;
use crate::error::{ParseError, ParseResult};
use crate::func::{ParseFunc, Scope};
use crate::grammar;
use crate::grammar::Cursor;
use crate::ident;
use crate::lexer::TokensState;
use crate::parser;
use crate::parser::Parser;
use crate::peekable::PeekableTokens;
use crate::syntax;
use crate::syntax::{FuncHeader, Node, NodeModel, SyntaxTree, Token};
use crate::text;
use crate::tokens;
use crate::tokens::Tokens;
use crate::tree_laws;

verus! {

/// Whether a result is one that parsing source code may give.
pub open spec fn is_result_of<P: ParseFunc>(
    src: Seq<char>,
    scope: Scope<P>,
    result: ParseResult<SyntaxTree<P::Function>>,
) -> bool {
    match result {
        Ok(tree) => tree_laws::source_parses_to(src, scope, Ok(tree@)),
        Err(error) => tree_laws::source_parses_to(src, scope, Err(error.message()@)),
    }
}

/// Parsing gives what the source code is parsed to. It gives nothing only if the
/// source code cannot be parsed.
pub proof fn law_parse<P: ParseFunc>(
    src: &str,
    scope: &Scope<P>,
    result: ParseResult<SyntaxTree<P::Function>>,
    tried: Option<ParseResult<SyntaxTree<P::Function>>>,
)
    ensures
        call_ensures(parser::parse::<P>, (src, scope), result) ==> is_result_of(
            src@,
            *scope,
            result,
        ),
        call_ensures(parser::try_parse::<P>, (src, scope), tried) ==> match tried {
            Some(result) => is_result_of(src@, *scope, result),
            None => !grammar::parsable(Cursor::start(src@), *scope),
        },
        grammar::parsable(Cursor::start(src@), *scope) ==> call_requires(
            parser::parse::<P>,
            (src, scope),
        ),
        call_requires(parser::try_parse::<P>, (src, scope)),
{
}

/// Tokens are read from the first character on, and all of them are collected in
/// order.
pub proof fn law_tokenize(src: &str, tokens: Tokens, all: Vec<Token>)
    ensures
        call_ensures(tokens::tokenize, (src,), tokens) ==> {
            &&& tokens.wf()
            &&& tokens@.src == src@
            &&& tokens@.pos == 0
            &&& tokens@.state == TokensState::Body
            &&& tokens@.stack.len() == 0
        },
        call_ensures(Tokens::collect, (tokens,), all) ==> {
            &&& all@.len() == tokens@.tokens().len()
            &&& forall|i: int|
                0 <= i < all@.len() ==> tokens@.tokens()[i] == (#[trigger] all@[i])@
        },
{
    if call_ensures(Tokens::collect, (tokens,), all) {
        let models = syntax::token_models(all@);
        assert(models == tokens@.tokens());
        assert(forall|i: int| 0 <= i < all@.len() ==> models[i] == (#[trigger] all@[i])@);
    }
}

/// The characters that are newlines or start one.
pub proof fn law_newline_chars(c: char, is_newline: bool)
    ensures
        call_ensures(tokens::is_newline_char, (c,), is_newline) ==> is_newline == (c == '\u{000a}'
            || c == '\u{000d}' || c == '\u{000c}' || c == '\u{0085}' || c == '\u{2028}' || c
            == '\u{2029}'),
{
}

/// The index of the first unbalanced closing bracket is the number of bytes in
/// front of it, and there is none if there is no such bracket.
pub proof fn law_find_closing_bracket(src: &str, index: Option<usize>)
    ensures
        call_ensures(brackets::find_closing_bracket, (src,), index) ==> match index {
            Some(index) => brackets::closing_bracket(src@) matches Some(i) && index == encode_utf8(
                src@.take(i),
            ).len(),
            None => brackets::closing_bracket(src@) is None,
        },
{
}

/// Whether a word is an identifier depends on its characters.
pub proof fn law_is_identifier(word: &str, valid: bool)
    ensures
        call_ensures(ident::is_identifier, (word,), valid) ==> valid == ident::identifier(word@),
{
}

/// Errors show their message.
pub proof fn law_error_messages(error: ParseError, message: String, name: &str)
    ensures
        call_ensures(ParseError::to_string, (&error,), message) ==> message@ == error.message()@,
        call_ensures(ParseError::unknown_function, (name,), error) ==> error.message()@
            == "unknown function: '"@ + name@ + "'"@,
{
}

/// A new error has the message that it is made with.
pub proof fn law_new_error(borrowed: &str, owned: String, error: ParseError)
    ensures
        call_ensures(ParseError::new::<&str>, (borrowed,), error) ==> error.message()@ == borrowed@,
        call_ensures(ParseError::new::<String>, (owned,), error) ==> error.message()@ == owned@,
{
}

/// A copy of a token stream is at the same place.
pub proof fn law_copied_tokens(tokens: Tokens, copy: Tokens)
    ensures
        call_ensures(<Tokens as Clone>::clone, (&tokens,), copy) ==> copy@ == tokens@ && (
        tokens.wf() ==> copy.wf()),
{
}

/// A scope has what was added to it: nothing at first.
pub proof fn law_scope<P>(scope: Scope<P>, name: &str, parser: Option<&P>)
    ensures
        call_ensures(Scope::<P>::new, (), scope) ==> scope@ == Map::<Seq<char>, P>::empty(),
        call_ensures(Scope::<P>::get_parser, (&scope, name), parser) ==> if scope@.dom().contains(
            name@,
        ) {
            parser matches Some(parser) && *parser == scope@[name@]
        } else {
            parser is None
        },
{
}

/// A new header has the name and nothing else, and a new tree has no nodes.
pub proof fn law_new_nodes<F>(name: String, header: FuncHeader, tree: SyntaxTree<F>)
    ensures
        call_ensures(FuncHeader::new, (name,), header) ==> {
            &&& header.name@ == name@
            &&& header.args@.len() == 0
            &&& header.kwargs@.dom() == Set::<String>::empty()
        },
        call_ensures(SyntaxTree::<F>::new, (), tree) ==> tree.nodes@.len() == 0,
{
    if call_ensures(FuncHeader::new, (name,), header) {
        assert(header@.kwargs.dom() =~= Set::<String>::empty());
    }
    if call_ensures(SyntaxTree::<F>::new, (), tree) {
        assert(tree@.len() == tree.nodes@.len());
    }
}

/// The name of a function is the text of its token, if that is an identifier.
pub proof fn law_check_name(token: Option<Token>, is_identifier: bool, name: ParseResult<String>)
    ensures
        call_ensures(parser::check_name, (token, is_identifier), name) ==> match token {
            Some(Token::Text(word)) => if is_identifier {
                name matches Ok(name) && name@ == word@
            } else {
                name matches Err(error) && error.message()@ == "invalid identifier"@
            },
            _ => name matches Err(error) && error.message()@ == "expected identifier"@,
        },
{
}

/// What the parser of a function returned becomes a node with the header, or is
/// the error.
pub proof fn law_func_node<F>(
    header: FuncHeader,
    returned: ParseResult<F>,
    node: ParseResult<Node<F>>,
)
    ensures
        call_ensures(parser::func_node::<F>, (header, returned), node) ==> match returned {
            Ok(body) => node matches Ok(Node::Func(call)) && {
                &&& call.header@ == header@
                &&& call.body == body
            },
            Err(error) => node matches Err(same) && same == error,
        },
{
}

/// Texts are split, cut and measured in bytes, and come apart at characters.
pub proof fn law_text_parts(
    string: &str,
    start: usize,
    end: usize,
    parts: (&str, &str),
    part: &str,
    c: char,
    len: usize,
)
    requires
        text::on_boundary(string@, start as int),
        text::on_boundary(string@, end as int),
        start <= end,
    ensures
        call_ensures(text::split, (string, start), parts) ==> {
            &&& parts.0@ + parts.1@ == string@
            &&& encode_utf8(parts.0@).len() == start
        },
        call_ensures(text::slice, (string, start, end), part) ==> {
            &&& encode_utf8(part@).len() == end - start
            &&& exists|i: int|
                text::is_position(string@, i, start as int) && part@ == #[trigger] string@.skip(
                    i,
                ).take(part@.len() as int)
        },
        call_ensures(text::len_utf8, (c,), len) ==> len == encode_utf8(seq![c]).len(),
        call_ensures(text::byte_len, (string,), len) ==> len == encode_utf8(string@).len(),
{
    let j = text::char_index(string@, start as int);
    let k = text::char_index(string@, end as int);
    assert(text::is_position(string@, j, start as int));
    assert(text::is_position(string@, k, end as int));
    assert(string@.take(j) + string@.skip(j) =~= string@);
    if k < j {
        text::lemma_positions_ordered(string@, k, j);
    }
    text::lemma_position_in_rest(string@, j, k);
    assert(string@.subrange(j, k) =~= string@.skip(j).take(k - j));
    text::lemma_next_position(seq![c], 0);
    assert(seq![c].take(0) =~= Seq::<char>::empty());
    assert(seq![c].take(1) =~= seq![c]);
}

/// Adding a function to a scope makes it known by its name. The others stay as
/// they are.
pub proof fn law_add<P>(scope: &mut Scope<P>, name: &str, parser: P, other: Seq<char>)
    ensures
        call_ensures(Scope::<P>::add, (scope, name, parser), ()) ==> {
            &&& final(scope)@.dom().contains(name@)
            &&& final(scope)@[name@] == parser
            &&& other != name@ ==> {
                &&& final(scope)@.dom().contains(other) == old(scope)@.dom().contains(other)
                &&& old(scope)@.dom().contains(other) ==> final(scope)@[other]
                    == old(scope)@[other]
            }
        },
{
}

/// Taking a token gives the one at the place and goes on behind it, and gives
/// nothing and stays at the end.
pub proof fn law_next_token(tokens: &mut Tokens, token: Option<Token>)
    requires
        old(tokens).wf(),
    ensures
        call_ensures(Tokens::next, (tokens,), token) ==> {
            &&& final(tokens).wf()
            &&& match token {
                Some(token) => old(tokens)@.step() matches Some((model, next)) && model == token@
                    && next == final(tokens)@,
                None => old(tokens)@.step() is None && final(tokens)@ == old(tokens)@,
            }
        },
{
}

/// The index of a place is the number of bytes in front of it, and going to an
/// index is going to the character there. Nothing else changes.
pub proof fn law_token_places(tokens: &mut Tokens, index: Option<usize>, to: usize, k: int)
    requires
        old(tokens).wf(),
    ensures
        call_ensures(Tokens::current_index, (tokens,), index) ==> {
            &&& final(tokens)@ == old(tokens)@
            &&& match index {
                Some(index) => old(tokens)@.pos < old(tokens)@.src.len() && index == encode_utf8(
                    old(tokens)@.src.take(old(tokens)@.pos),
                ).len(),
                None => old(tokens)@.pos == old(tokens)@.src.len(),
            }
        },
        0 <= k <= old(tokens)@.src.len() && to == encode_utf8(old(tokens)@.src.take(k)).len()
            && call_ensures(Tokens::goto, (tokens, to), ()) ==> {
            &&& final(tokens)@.pos == k
            &&& final(tokens)@.src == old(tokens)@.src
            &&& final(tokens)@.state == old(tokens)@.state
            &&& final(tokens)@.stack == old(tokens)@.stack
        },
{
    if 0 <= k <= old(tokens)@.src.len() && to == encode_utf8(old(tokens)@.src.take(k)).len() {
        text::lemma_char_index(old(tokens)@.src, k, to as int);
    }
}

/// Peeking at a token gives the one that is taken next, and changes neither it
/// nor its index.
pub proof fn law_peek_token(
    tokens: &mut PeekableTokens,
    token: Option<Token>,
    index: Option<usize>,
)
    requires
        old(tokens).wf(),
    ensures
        call_ensures(PeekableTokens::peek, (tokens,), token) ==> {
            &&& final(tokens)@ == old(tokens)@
            &&& match token {
                Some(token) => old(tokens)@.step() matches Some((model, _)) && model == token@,
                None => old(tokens)@.step() is None,
            }
        },
        call_ensures(PeekableTokens::next, (tokens,), token) ==> match token {
            Some(token) => old(tokens)@.step() matches Some((model, next)) && model == token@ && next
                == final(tokens)@,
            None => old(tokens)@.step() is None && final(tokens)@ == old(tokens)@,
        },
        call_ensures(PeekableTokens::current_index, (tokens,), index) ==> {
            &&& final(tokens)@ == old(tokens)@
            &&& match index {
                Some(index) => old(tokens)@.pos < old(tokens)@.src.len() && index == encode_utf8(
                    old(tokens)@.src.take(old(tokens)@.pos),
                ).len(),
                None => old(tokens)@.pos == old(tokens)@.src.len(),
            }
        },
{
}

/// Going to an index drops a token that was peeked at and goes to the character
/// there, in the state that the tokens were read up to.
pub proof fn law_goto_token(tokens: &mut PeekableTokens, to: usize, k: int)
    requires
        old(tokens).wf(),
        0 <= k <= old(tokens)@.src.len(),
        to == encode_utf8(old(tokens)@.src.take(k)).len(),
    ensures
        call_ensures(PeekableTokens::goto, (tokens, to), ()) ==> {
            &&& final(tokens)@.pos == k
            &&& final(tokens)@.src == old(tokens).reached().src
            &&& final(tokens)@.state == old(tokens).reached().state
            &&& final(tokens)@.stack == old(tokens).reached().stack
            &&& final(tokens).reached() == final(tokens)@
        },
{
    text::lemma_char_index(old(tokens)@.src, k, to as int);
}

/// Characters are taken one after the other, with the number of bytes in front
/// of them, and peeking at one or two of them takes none.
pub proof fn law_chars(chars: &mut PeekableChars, next: Option<(usize, char)>)
    requires
        old(chars).wf(),
    ensures
        ({
            let source = old(chars).source();
            let pos = old(chars).pos();
            &&& call_ensures(PeekableChars::peek, (chars,), next) ==> {
                &&& next == indexed(source, pos)
                &&& final(chars).pos() == pos
                &&& final(chars).source() == source
            }
            &&& call_ensures(PeekableChars::peek_second, (chars,), next) ==> {
                &&& next == indexed(source, pos + 1)
                &&& final(chars).pos() == pos
                &&& final(chars).source() == source
            }
            &&& call_ensures(PeekableChars::next, (chars,), next) ==> {
                &&& next == indexed(source, pos)
                &&& final(chars).pos() == if next is Some {
                    pos + 1
                } else {
                    pos
                }
                &&& final(chars).source() == source
            }
        }),
{
}

/// A character of a text with the number of bytes in front of it.
pub open spec fn indexed(source: Seq<char>, k: int) -> Option<(usize, char)> {
    if 0 <= k < source.len() {
        Some((encode_utf8(source.take(k)).len() as usize, source[k]))
    } else {
        None
    }
}

/// Characters are taken from the first one on, and from the one at an index on if
/// one goes there.
pub proof fn law_char_places(
    string: &str,
    new: PeekableChars,
    chars: &mut PeekableChars,
    to: usize,
    k: int,
)
    requires
        old(chars).wf(),
    ensures
        call_ensures(PeekableChars::new, (string,), new) ==> new.wf() && new.source() == string@
            && new.pos() == 0,
        0 <= k <= old(chars).source().len() && to == encode_utf8(
            old(chars).source().take(k),
        ).len() && call_ensures(PeekableChars::goto, (chars, to), ()) ==> {
            &&& final(chars).pos() == k
            &&& final(chars).source() == old(chars).source()
        },
{
    if 0 <= k <= old(chars).source().len() && to == encode_utf8(old(chars).source().take(k)).len() {
        text::lemma_char_index(old(chars).source(), k, to as int);
    }
}

/// A space is appended if there is not one at the end already, and the parser
/// stays where it is.
pub proof fn law_append_space<P: ParseFunc>(parser: &mut Parser<P>)
    ensures
        call_ensures(Parser::<P>::append_space, (parser,), ()) ==> {
            &&& final(parser).nodes() == if old(parser).nodes().len() > 0 && old(
                parser,
            ).nodes().last() is Space {
                old(parser).nodes()
            } else {
                old(parser).nodes().push(NodeModel::Space)
            }
            &&& final(parser).cursor() == old(parser).cursor()
            &&& final(parser).scope() == old(parser).scope()
        },
{
}

} // verus!
