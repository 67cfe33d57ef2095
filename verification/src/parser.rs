//! Parsing of source code into syntax trees.

use vstd::prelude::*;

use crate::brackets;
use crate::error::{ParseError, ParseResult};
use crate::func::{FuncContext, ParseFunc, Scope};
use crate::grammar;
use crate::grammar::{Call, Cursor, Leaf, ParserState, Step};
use crate::ident;
use crate::peekable::PeekableTokens;
use crate::syntax::{
    FuncCall, FuncHeader, HeaderModel, Node, NodeModel, SyntaxTree, Token, TokenModel,
};
use crate::text;
use crate::tokens;

verus! {

/// The name of a function from the token in front of which its left bracket
/// stands. Whether the token is an identifier if it is a text is known already.
pub fn check_name(token: Option<Token>, is_identifier: bool) -> (name: ParseResult<String>)
    ensures
        match token {
            Some(Token::Text(word)) => if is_identifier {
                name matches Ok(name) && name@ == word@
            } else {
                name matches Err(error) && error@ == "invalid identifier"@
            },
            _ => name matches Err(error) && error@ == "expected identifier"@,
        },
{
    match token {
        Some(Token::Text(word)) => if is_identifier {
            Ok(word.to_owned())
        } else {
            Err(ParseError::new("invalid identifier"))
        },
        _ => Err(ParseError::new("expected identifier")),
    }
}

/// The node for an invocation from what the parser of its function returned.
pub fn func_node<F>(header: FuncHeader, returned: ParseResult<F>) -> (node: ParseResult<Node<F>>)
    ensures
        match returned {
            Ok(body) => node matches Ok(node) && node@ == NodeModel::Func(header@, body),
            Err(error) => node == Err::<Node<F>, ParseError>(error),
        },
{
    match returned {
        Ok(body) => Ok(Node::Func(FuncCall { header, body })),
        Err(error) => Err(error),
    }
}

/// An invocation of a function that is to be parsed.
pub struct Invocation<'s, P> {
    parser: &'s P,
    header: FuncHeader,
    body: Option<&'s str>,
}

impl<'s, P> Invocation<'s, P> {
    /// Whether the invocation is the given one, with the parser that the scope
    /// has for the function.
    pub closed spec fn is_of(self, call: Call, scope: Scope<P>) -> bool {
        &&& *self.parser == scope@[call.name]
        &&& self.header@ == HeaderModel::bare(call.name)
        &&& match self.body {
            Some(body) => call.body == Some(body@),
            None => call.body is None,
        }
    }
}

/// What a step of the parser leads to.
pub enum Progress<'s, P> {
    /// There is nothing left to parse.
    End,
    /// The parser goes on.
    Going,
    /// A function has to be parsed for the parser to go on.
    Invoke(Invocation<'s, P>),
    /// The source code is not correct.
    Fail(ParseError),
    /// The parser has no rule for the next token.
    NoRule,
}

/// Transforms token streams to syntax trees.
pub struct Parser<'s, P: ParseFunc> {
    src: &'s str,
    tokens: PeekableTokens<'s>,
    scope: &'s Scope<P>,
    state: ParserState,
    tree: SyntaxTree<P::Function>,
}

impl<'s, P: ParseFunc> Parser<'s, P> {
    /// Where the parser is.
    pub closed spec fn cursor(self) -> Cursor {
        Cursor { lexer: self.tokens@, state: self.state }
    }

    /// The scope that the parser looks up functions in.
    pub closed spec fn scope(self) -> Scope<P> {
        *self.scope
    }

    /// The nodes that were parsed so far.
    pub closed spec fn nodes(self) -> Seq<NodeModel<P::Function>> {
        self.tree@
    }

    /// What holds of the parser at all times.
    pub closed spec fn wf(self) -> bool {
        &&& self.tokens.wf()
        &&& self.tokens@.src == self.src@
    }

    /// Whether parsing from here on may give this result.
    pub open spec fn may_give(
        self,
        result: Result<Seq<NodeModel<P::Function>>, Seq<char>>,
    ) -> bool {
        grammar::parses_to(self.cursor(), self.scope(), self.nodes(), result)
    }

    /// Whether this parser may give whatever another one may give that it
    /// came to be.
    spec fn comes_to(self, other: Parser<'s, P>) -> bool {
        forall|result: Result<Seq<NodeModel<P::Function>>, Seq<char>>| #[trigger]
            other.may_give(result) ==> self.may_give(result)
    }

    /// Create a new parser from source code and a scope of functions.
    pub fn new(src: &'s str, scope: &'s Scope<P>) -> (parser: Parser<'s, P>)
        ensures
            parser.wf(),
            parser.cursor() == Cursor::start(src@),
            parser.scope() == *scope,
            parser.nodes() == Seq::<NodeModel<P::Function>>::empty(),
    {
        Parser {
            src,
            tokens: PeekableTokens::new(tokens::tokenize(src)),
            scope,
            state: ParserState::Body,
            tree: SyntaxTree::new(),
        }
    }

    /// Advance the iterator by one step.
    fn advance(&mut self)
        requires
            old(self).wf(),
        ensures
            final(self).wf(),
            final(self).src == old(self).src,
            final(self).scope == old(self).scope,
            final(self).state == old(self).state,
            final(self).tree == old(self).tree,
            final(self).tokens.reached() == final(self).tokens@,
            match old(self).tokens@.step() {
                Some((_, behind)) => final(self).tokens@ == behind,
                None => final(self).tokens@ == old(self).tokens@,
            },
    {
        proof {
            self.tokens.lemma_valid();
            self.tokens@.lemma_step_advances();
        }
        self.tokens.next();
    }

    /// Switch the state.
    fn switch(&mut self, state: ParserState)
        ensures
            *final(self) == (Parser { state, ..*old(self) }),
    {
        self.state = state;
    }

    /// Append a node to the tree.
    fn append(&mut self, node: Node<P::Function>)
        ensures
            final(self).src == old(self).src,
            final(self).tokens == old(self).tokens,
            final(self).scope == old(self).scope,
            final(self).state == old(self).state,
            final(self).tree@ == old(self).tree@.push(node@),
    {
        self.tree.nodes.push(node);
        assert(self.tree@ =~= old(self).tree@.push(node@));
    }

    /// Append a space if there is not one already.
    pub fn append_space(&mut self)
        ensures
            final(self).wf() == old(self).wf(),
            final(self).cursor() == old(self).cursor(),
            final(self).scope() == old(self).scope(),
            final(self).nodes() == grammar::appended(old(self).nodes(), Leaf::Space),
    {
        let len: usize = self.tree.nodes.len();
        let has_space = len > 0 && matches!(self.tree.nodes[len - 1], Node::Space);
        if !has_space {
            self.append(Node::Space);
        }
    }

    /// Advance and append the given node.
    fn append_consumed(&mut self, node: Node<P::Function>)
        requires
            old(self).wf(),
            old(self).tokens@.step() is Some,
        ensures
            final(self).wf(),
            final(self).src == old(self).src,
            final(self).scope == old(self).scope,
            final(self).state == old(self).state,
            final(self).tokens@ == (old(self).tokens@.step()->0).1,
            final(self).tree@ == old(self).tree@.push(node@),
    {
        self.advance();
        self.append(node);
    }

    /// Advance and append a space if there is not one already.
    fn append_space_consumed(&mut self)
        requires
            old(self).wf(),
            old(self).tokens@.step() is Some,
        ensures
            final(self).wf(),
            final(self).scope() == old(self).scope(),
            final(self).state == old(self).state,
            final(self).tokens@ == (old(self).tokens@.step()->0).1,
            final(self).tree@ == grammar::appended(old(self).tree@, Leaf::Space),
    {
        self.advance();
        self.append_space();
    }

    /// Skip tokens until the condition is not met.
    fn skip_while<F: Fn(Token<'s>) -> bool>(
        &mut self,
        f: F,
        Ghost(condition): Ghost<spec_fn(TokenModel) -> bool>,
    )
        requires
            old(self).wf(),
            forall|token: Token<'s>| call_requires(f, (token,)),
            forall|token: Token<'s>, holds: bool|
                call_ensures(f, (token,), holds) ==> holds == condition(token@),
        ensures
            final(self).wf(),
            final(self).src == old(self).src,
            final(self).scope == old(self).scope,
            final(self).state == old(self).state,
            final(self).tree == old(self).tree,
            final(self).tokens@ == old(self).tokens@.skipped(condition),
    {
        loop
            invariant
                self.wf(),
                self.src == old(self).src,
                self.scope == old(self).scope,
                self.state == old(self).state,
                self.tree == old(self).tree,
                forall|token: Token<'s>| call_requires(f, (token,)),
                forall|token: Token<'s>, holds: bool|
                    call_ensures(f, (token,), holds) ==> holds == condition(token@),
                self.tokens@.skipped(condition) == old(self).tokens@.skipped(condition),
            ensures
                self.tokens@ == self.tokens@.skipped(condition),
            decreases self.tokens@.src.len() - self.tokens@.pos,
        {
            proof {
                self.tokens.lemma_valid();
                self.tokens@.lemma_step_advances();
            }
            match self.tokens.peek() {
                Some(token) => {
                    if !f(token) {
                        break;
                    }
                    self.advance();
                },
                None => break,
            }
        }
    }

    /// The string which makes the body of a function whose left bracket was
    /// just read, or nothing if the body is not closed. Skips to the end of the
    /// function.
    fn parse_body(&mut self) -> (body: Option<&'s str>)
        requires
            old(self).wf(),
            old(self).tokens.reached() == old(self).tokens@,
        ensures
            final(self).wf(),
            final(self).src == old(self).src,
            final(self).scope == old(self).scope,
            final(self).state == old(self).state,
            final(self).tree == old(self).tree,
            ({
                let src = old(self).tokens@.src;
                let start = old(self).tokens@.pos;
                match brackets::closing_bracket(src.skip(start)) {
                    Some(len) => {
                        &&& body matches Some(body)
                        &&& body@ == src.subrange(start, start + len)
                        &&& old(self).tokens@.at(start + len).step() == Some(
                            (TokenModel::RightBracket, final(self).tokens@),
                        )
                    },
                    None => body is None,
                }
            }),
    {
        let ghost inside = self.tokens@;
        let ghost src = self.src@;
        proof {
            self.tokens.lemma_valid();
        }
        // Find out the string which makes the body of this function.
        let start: usize = match self.tokens.current_index() {
            Some(index) => index,
            None => {
                assert(src.skip(inside.pos).len() == 0);
                assert(forall|i: int| !brackets::is_closing_bracket(src.skip(inside.pos), i));
                return None;
            },
        };
        proof {
            text::lemma_char_index(src, inside.pos, start as int);
        }
        let (_, rest) = text::split(self.src, start);
        let len: usize = match brackets::find_closing_bracket(rest) {
            Some(len) => len,
            None => return None,
        };
        let ghost count = brackets::closing_bracket(rest@)->0;
        proof {
            brackets::lemma_found(rest@);
            text::lemma_position_in_rest(src, inside.pos, inside.pos + count);
        }
        let _all: usize = text::byte_len(self.src);
        proof {
            text::lemma_positions_ordered(src, inside.pos, inside.pos + count);
        }
        let end: usize = start + len;
        proof {
            text::lemma_char_index(src, inside.pos + count, end as int);
        }
        let body = text::slice(self.src, start, end);

        // Skip to the end of the function in the token stream.
        self.tokens.goto(end);
        proof {
            assert(self.tokens@ == inside.at(inside.pos + count));
            assert(src[inside.pos + count] == rest@[count]);
        }

        // Now the body should be closed.
        self.advance();
        Some(body)
    }

    /// Parse a function from the current position, up to what its parser has to
    /// do.
    fn parse_function(&mut self) -> (invocation: ParseResult<Invocation<'s, P>>)
        requires
            old(self).wf(),
            old(self).tokens@.step() matches Some((TokenModel::LeftBracket, _)),
        ensures
            final(self).wf(),
            final(self).src == old(self).src,
            final(self).scope == old(self).scope,
            final(self).tree == old(self).tree,
            match (old(self).tokens@.step()->0).1.function(old(self).scope@.dom()) {
                Step::Invoke(call, next) => {
                    &&& invocation matches Ok(invocation)
                    &&& invocation.is_of(call, *old(self).scope)
                    &&& final(self).cursor() == next
                },
                Step::Fail(message) => invocation matches Err(error) && error@ == message,
                _ => false,
            },
    {
        // This should only be called if a left bracket was seen.
        self.advance();

        // The next token should be the name of the function.
        let token = self.tokens.next();
        let is_identifier = match token {
            Some(Token::Text(word)) => ident::is_identifier(word),
            _ => false,
        };
        let name = match check_name(token, is_identifier) {
            Ok(name) => name,
            Err(error) => return Err(error),
        };

        // Now the header should be closed.
        match self.tokens.next() {
            Some(Token::RightBracket) => {},
            _ => return Err(ParseError::new("expected closing bracket")),
        }
        let ghost behind_header = self.tokens@;
        proof {
            self.tokens.lemma_valid();
            behind_header.lemma_invocation(name@);
            behind_header.lemma_step_advances();
        }

        // Store the header information of the function invocation.
        let header = FuncHeader::new(name);

        // Whether the function has a body.
        let has_body = matches!(self.tokens.peek(), Some(Token::LeftBracket));
        if has_body {
            self.advance();
        }

        // Now we want to parse this function dynamically.
        let parser = match self.scope.get_parser(header.name.as_str()) {
            Some(parser) => parser,
            None => return Err(ParseError::unknown_function(header.name.as_str())),
        };

        // Do the parsing dependent on whether the function has a body.
        let body = if has_body {
            match self.parse_body() {
                Some(body) => Some(body),
                None => return Err(ParseError::new("expected closing bracket")),
            }
        } else {
            None
        };

        // Finally this function is parsed to the end.
        self.switch(ParserState::Body);
        Ok(Invocation { parser, header, body })
    }

    /// Parse the next token, and with it the comment or function that it starts.
    fn step(&mut self) -> (progress: Progress<'s, P>)
        requires
            old(self).wf(),
        ensures
            final(self).wf(),
            final(self).scope() == old(self).scope(),
            match old(self).cursor().step(old(self).scope()@.dom()) {
                Step::End => progress is End && final(self).nodes() == old(self).nodes(),
                Step::Go(leaf, next) => {
                    &&& progress is Going
                    &&& final(self).cursor() == next
                    &&& final(self).nodes() == grammar::appended(old(self).nodes(), leaf)
                },
                Step::Invoke(call, next) => {
                    &&& progress matches Progress::Invoke(invocation)
                    &&& invocation.is_of(call, old(self).scope())
                    &&& final(self).cursor() == next
                    &&& final(self).nodes() == old(self).nodes()
                },
                Step::Fail(message) => progress matches Progress::Fail(error) && error@ == message,
                Step::NoRule => progress is NoRule,
            },
    {
        let token = match self.tokens.peek() {
            Some(token) => token,
            None => return Progress::End,
        };

        // Skip over comments.
        if matches!(token, Token::Hashtag) {
            let ghost condition = |token: TokenModel| !(token is Newline);
            let not_newline = |token: Token<'s>| -> (holds: bool)
                ensures
                    holds == !(token@ is Newline),
            {
                !matches!(token, Token::Newline)
            };
            self.skip_while(not_newline, Ghost(condition));
            self.advance();
        }

        // Handles all the states.
        match self.state {
            ParserState::FirstNewline => match token {
                Token::Newline => {
                    self.append_consumed(Node::Newline);
                    self.switch(ParserState::WroteNewline);
                },
                Token::Space => self.append_space_consumed(),
                _ => {
                    self.append_space();
                    self.switch(ParserState::Body);
                },
            },
            ParserState::WroteNewline => match token {
                Token::Newline | Token::Space => self.append_space_consumed(),
                _ => self.switch(ParserState::Body),
            },
            ParserState::Body => match token {
                // Whitespace
                Token::Space => self.append_space_consumed(),
                Token::Newline => {
                    self.advance();
                    self.switch(ParserState::FirstNewline);
                },
                // Text
                Token::Text(word) => self.append_consumed(Node::Text(word.to_owned())),
                // Functions
                Token::LeftBracket => return match self.parse_function() {
                    Ok(invocation) => Progress::Invoke(invocation),
                    Err(error) => Progress::Fail(error),
                },
                Token::RightBracket => return Progress::Fail(
                    ParseError::new("unexpected closing bracket"),
                ),
                // Modifiers
                Token::DoubleUnderscore => self.append_consumed(Node::ToggleItalics),
                Token::DoubleStar => self.append_consumed(Node::ToggleBold),
                Token::Dollar => self.append_consumed(Node::ToggleMath),
                // Comments were skipped already.
                Token::Hashtag => {},
                // Should not happen
                Token::Colon | Token::Equals => return Progress::NoRule,
            },
        }
        Progress::Going
    }

    /// Parse the source into an abstract syntax tree, or nothing if the parser
    /// comes to a token that it has no rule for.
    pub fn try_parse(self) -> (result: Option<ParseResult<SyntaxTree<P::Function>>>)
        requires
            self.wf(),
        ensures
            match result {
                Some(result) => self.may_give(grammar::result_model(result)),
                None => !grammar::parsable(self.cursor(), self.scope()),
            },
    {
        let mut parser = self;
        let ghost scope = self.scope();
        loop
            invariant
                parser.wf(),
                parser.scope() == scope,
                self.scope() == scope,
                grammar::parsable(self.cursor(), scope) ==> grammar::parsable(
                    parser.cursor(),
                    scope,
                ),
                self.comes_to(parser),
            decreases
                    parser.cursor().lexer.src.len() - parser.cursor().lexer.pos,
                    parser.cursor().rank(),
        {
            let ghost before = parser;
            proof {
                parser.tokens.lemma_valid();
                parser.cursor().lemma_step_advances(scope@.dom());
            }
            match parser.step() {
                Progress::End => {
                    assert(before.may_give(Ok(parser.tree@)));
                    return Some(Ok(parser.tree));
                },
                Progress::Going => {
                    assert(before.comes_to(parser));
                },
                Progress::Invoke(invocation) => {
                    let ghost call = before.cursor().step(scope@.dom())->Invoke_0;
                    let Invocation { parser: function, header, body } = invocation;
                    let context = FuncContext { header: &header, body, scope: parser.scope };
                    let returned = function.parse(context);
                    proof {
                        assert(grammar::is_context(context, scope, call));
                        assert(grammar::may_return(scope, call, returned));
                    }
                    match func_node(header, returned) {
                        Ok(node) => {
                            parser.append(node);
                            assert(before.comes_to(parser));
                            assert(grammar::may_return(scope, call, Ok(returned->Ok_0)));
                        },
                        Err(error) => {
                            assert(before.may_give(Err(error@)));
                            return Some(Err(error));
                        },
                    }
                },
                Progress::Fail(error) => {
                    assert(before.may_give(Err(error@)));
                    return Some(Err(error));
                },
                Progress::NoRule => {
                    return None;
                },
            }
        }
    }

    /// Parse the source into an abstract syntax tree.
    pub fn parse(self) -> (result: ParseResult<SyntaxTree<P::Function>>)
        requires
            self.wf(),
            grammar::parsable(self.cursor(), self.scope()),
        ensures
            self.may_give(grammar::result_model(result)),
    {
        match self.try_parse() {
            Some(result) => result,
            None => vstd::pervasive::unreached(),
        }
    }
}

/// Parses source code into a syntax tree using function definitions from a scope.
pub fn parse<P: ParseFunc>(src: &str, scope: &Scope<P>) -> (result: ParseResult<
    SyntaxTree<P::Function>,
>)
    requires
        grammar::parsable(Cursor::start(src@), *scope),
    ensures
        grammar::parses_to(
            Cursor::start(src@),
            *scope,
            Seq::empty(),
            grammar::result_model(result),
        ),
{
    Parser::new(src, scope).parse()
}

/// Parses source code into a syntax tree, or to nothing if the parser comes to a
/// token that it has no rule for.
pub fn try_parse<P: ParseFunc>(src: &str, scope: &Scope<P>) -> (result: Option<
    ParseResult<SyntaxTree<P::Function>>,
>)
    ensures
        match result {
            Some(result) => grammar::parses_to(
                Cursor::start(src@),
                *scope,
                Seq::empty(),
                grammar::result_model(result),
            ),
            None => !grammar::parsable(Cursor::start(src@), *scope),
        },
{
    Parser::new(src, scope).try_parse()
}

} // verus!
