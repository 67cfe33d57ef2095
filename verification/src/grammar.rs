//! The syntactic structure of source code.

use vstd::prelude::*;

use crate::brackets;
use crate::error;
use crate::error::ParseResult;
use crate::func::{FuncContext, ParseFunc, Scope};
use crate::ident;
use crate::lexer::Lexer;
use crate::syntax::{HeaderModel, NodeModel, SyntaxTree, TokenModel};

verus! {

/// The state the parser is in.
#[derive(Debug, Copy, Clone, Eq, PartialEq, Structural)]
pub enum ParserState {
    /// The base state of the parser.
    Body,
    /// We saw one newline already.
    FirstNewline,
    /// We wrote a newline.
    WroteNewline,
}

/// What a token that is no function adds to the tree.
pub enum Leaf {
    /// No node.
    Nothing,
    /// A space if there is not one already.
    Space,
    /// A newline.
    Newline,
    /// The beginning or end of italics.
    ToggleItalics,
    /// The beginning or end of boldface.
    ToggleBold,
    /// The beginning or end of math mode.
    ToggleMath,
    /// A word.
    Text(Seq<char>),
}

/// The nodes with those for a leaf behind them.
pub open spec fn appended<F>(nodes: Seq<NodeModel<F>>, leaf: Leaf) -> Seq<NodeModel<F>> {
    match leaf {
        Leaf::Nothing => nodes,
        Leaf::Space => if nodes.len() > 0 && nodes.last() is Space {
            nodes
        } else {
            nodes.push(NodeModel::Space)
        },
        Leaf::Newline => nodes.push(NodeModel::Newline),
        Leaf::ToggleItalics => nodes.push(NodeModel::ToggleItalics),
        Leaf::ToggleBold => nodes.push(NodeModel::ToggleBold),
        Leaf::ToggleMath => nodes.push(NodeModel::ToggleMath),
        Leaf::Text(word) => nodes.push(NodeModel::Text(word)),
    }
}

/// An invocation of a function: its name and the source code of its body.
pub struct Call {
    pub name: Seq<char>,
    pub body: Option<Seq<char>>,
}

/// A place in the source code together with the state of the parser there.
pub struct Cursor {
    pub lexer: Lexer,
    pub state: ParserState,
}

/// What the parser does at a place.
pub enum Step {
    /// There is nothing left to parse.
    End,
    /// It adds to the tree and goes on at another place.
    Go(Leaf, Cursor),
    /// It has a function parsed and goes on at another place.
    Invoke(Call, Cursor),
    /// It stops with an error.
    Fail(Seq<char>),
    /// It has no rule for the token at the place.
    NoRule,
}

impl Lexer {
    /// The place of the first token from here on that the condition does not
    /// hold of, or the end of the source code.
    pub open spec fn skipped(self, condition: spec_fn(TokenModel) -> bool) -> Lexer
        recommends
            self.valid(),
        decreases self.src.len() - self.pos,
        when self.valid()
    {
        proof {
            self.lemma_step_advances();
        }
        match self.step() {
            Some((token, behind)) => if condition(token) {
                behind.skipped(condition)
            } else {
                self
            },
            None => self,
        }
    }

    /// Skipping tokens leads to a valid place, which is not in front of this
    /// one.
    pub proof fn lemma_skipped(self, condition: spec_fn(TokenModel) -> bool)
        requires
            self.valid(),
        ensures
            self.skipped(condition).valid(),
            self.skipped(condition).src == self.src,
            self.pos <= self.skipped(condition).pos,
        decreases self.src.len() - self.pos,
    {
        self.lemma_step_advances();
        if let Some((token, behind)) = self.step() {
            if condition(token) {
                behind.lemma_skipped(condition);
            }
        }
    }

    /// The place behind the next newline from here on, or the end of the
    /// source code.
    pub open spec fn next_line(self) -> Lexer {
        let newline = self.skipped(|token: TokenModel| !(token is Newline));
        match newline.step() {
            Some((_, behind)) => behind,
            None => newline,
        }
    }

    /// The next line is a valid place behind this one, unless this is the end
    /// of the source code.
    pub proof fn lemma_next_line(self)
        requires
            self.valid(),
        ensures
            self.next_line().valid(),
            self.next_line().src == self.src,
            self.pos <= self.next_line().pos,
            self.pos < self.src.len() ==> self.pos < self.next_line().pos,
    {
        let condition = |token: TokenModel| !(token is Newline);
        self.lemma_skipped(condition);
        self.skipped(condition).lemma_step_advances();
    }

    /// What the parser does behind the left bracket of a function. The scope
    /// knows the functions with the given names.
    pub open spec fn function(self, names: Set<Seq<char>>) -> Step {
        match self.step() {
            Some((TokenModel::Text(word), behind_name)) => if !ident::identifier(word) {
                Step::Fail("invalid identifier"@)
            } else {
                match behind_name.step() {
                    Some((TokenModel::RightBracket, behind_header)) => if !names.contains(word) {
                        Step::Fail(error::unknown_function_message(word))
                    } else {
                        behind_header.invocation(word)
                    },
                    _ => Step::Fail("expected closing bracket"@),
                }
            },
            _ => Step::Fail("expected identifier"@),
        }
    }

    /// What the parser does behind the header of a function that the scope
    /// knows. If there is a body, it goes on up to the closing bracket that
    /// belongs to its opening one, and the parser goes on behind that.
    pub open spec fn invocation(self, name: Seq<char>) -> Step {
        match self.step() {
            Some((TokenModel::LeftBracket, inside)) => {
                match brackets::closing_bracket(self.src.skip(inside.pos)) {
                    Some(len) => {
                        let end = inside.pos + len;
                        let body = self.src.subrange(inside.pos, end);
                        let behind = (inside.at(end).step()->0).1;
                        Step::Invoke(
                            Call { name, body: Some(body) },
                            Cursor { lexer: behind, state: ParserState::Body },
                        )
                    },
                    None => Step::Fail("expected closing bracket"@),
                }
            },
            _ => Step::Invoke(
                Call { name, body: None },
                Cursor { lexer: self, state: ParserState::Body },
            ),
        }
    }

    /// Behind the header or the body of an invocation the source code goes on,
    /// and a body ends with a right bracket.
    pub proof fn lemma_invocation(self, name: Seq<char>)
        requires
            self.valid(),
        ensures
            self.invocation(name) matches Step::Invoke(_, next) ==> {
                &&& next.lexer.valid()
                &&& next.lexer.src == self.src
                &&& self.pos <= next.lexer.pos
            },
            self.step() matches Some((TokenModel::LeftBracket, inside)) ==> {
                brackets::closing_bracket(self.src.skip(inside.pos)) matches Some(len) ==> {
                    let place = inside.at(inside.pos + len);
                    &&& 0 <= len
                    &&& place.valid()
                    &&& place.step() matches Some((TokenModel::RightBracket, _))
                }
            },
    {
        self.lemma_step_advances();
        if let Some((TokenModel::LeftBracket, inside)) = self.step() {
            let rest = self.src.skip(inside.pos);
            if let Some(len) = brackets::closing_bracket(rest) {
                brackets::lemma_closing_bracket(rest, len);
                let place = inside.at(inside.pos + len);
                assert(place.src[place.pos] == rest[len]);
                place.lemma_step_advances();
            }
        }
    }
}

impl Cursor {
    /// Where parsing starts.
    pub open spec fn start(src: Seq<char>) -> Cursor {
        Cursor { lexer: Lexer::start(src), state: ParserState::Body }
    }

    /// What the parser does at this place. The scope knows the functions with
    /// the given names.
    ///
    /// One newline is a space, two of them are a newline, and further ones are
    /// a space again. A comment is skipped, together with the newline that ends
    /// it.
    pub open spec fn step(self, names: Set<Seq<char>>) -> Step {
        match self.lexer.step() {
            None => Step::End,
            Some((token, behind)) => {
                // Where the parser goes on in the base state with this token,
                // or behind the comment that it starts.
                let resumed = Cursor {
                    lexer: if token is Hashtag {
                        self.lexer.next_line()
                    } else {
                        self.lexer
                    },
                    state: ParserState::Body,
                };
                let same = Cursor { lexer: behind, ..self };
                match self.state {
                    ParserState::FirstNewline => match token {
                        TokenModel::Newline => Step::Go(
                            Leaf::Newline,
                            Cursor { lexer: behind, state: ParserState::WroteNewline },
                        ),
                        TokenModel::Space => Step::Go(Leaf::Space, same),
                        _ => Step::Go(Leaf::Space, resumed),
                    },
                    ParserState::WroteNewline => match token {
                        TokenModel::Newline => Step::Go(Leaf::Space, same),
                        TokenModel::Space => Step::Go(Leaf::Space, same),
                        _ => Step::Go(Leaf::Nothing, resumed),
                    },
                    ParserState::Body => match token {
                        TokenModel::Space => Step::Go(Leaf::Space, same),
                        TokenModel::Newline => Step::Go(
                            Leaf::Nothing,
                            Cursor { lexer: behind, state: ParserState::FirstNewline },
                        ),
                        TokenModel::Text(word) => Step::Go(Leaf::Text(word), same),
                        TokenModel::LeftBracket => behind.function(names),
                        TokenModel::RightBracket => Step::Fail("unexpected closing bracket"@),
                        TokenModel::DoubleUnderscore => Step::Go(Leaf::ToggleItalics, same),
                        TokenModel::DoubleStar => Step::Go(Leaf::ToggleBold, same),
                        TokenModel::Dollar => Step::Go(Leaf::ToggleMath, same),
                        TokenModel::Colon => Step::NoRule,
                        TokenModel::Equals => Step::NoRule,
                        TokenModel::Hashtag => Step::Go(Leaf::Nothing, resumed),
                    },
                }
            },
        }
    }

    /// How many steps the parser may make before it reads a token.
    pub open spec fn rank(self) -> nat {
        if self.state == ParserState::Body {
            0
        } else {
            1
        }
    }

    /// Every step of the parser reads a token or returns to the base state.
    pub proof fn lemma_step_advances(self, names: Set<Seq<char>>)
        requires
            self.lexer.valid(),
        ensures
            self.step(names) matches Step::Go(_, next) ==> {
                &&& next.lexer.valid()
                &&& next.lexer.src == self.lexer.src
                &&& self.lexer.pos < next.lexer.pos || (self.lexer.pos == next.lexer.pos
                    && next.rank() < self.rank())
            },
            self.step(names) matches Step::Invoke(call, next) ==> {
                &&& names.contains(call.name)
                &&& next.lexer.valid()
                &&& next.lexer.src == self.lexer.src
                &&& self.lexer.pos < next.lexer.pos
            },
    {
        self.lexer.lemma_step_advances();
        if let Some((token, behind)) = self.lexer.step() {
            self.lexer.lemma_next_line();
            behind.lemma_step_advances();
            if let Some((TokenModel::Text(word), behind_name)) = behind.step() {
                behind_name.lemma_step_advances();
                if let Some((TokenModel::RightBracket, behind_header)) = behind_name.step() {
                    behind_header.lemma_invocation(word);
                }
            }
        }
    }
}

impl Cursor {
    /// Whether the condition holds here and of every place that the parser
    /// comes to from here on, if the functions can be parsed.
    pub open spec fn always(
        self,
        names: Set<Seq<char>>,
        condition: spec_fn(Cursor) -> bool,
    ) -> bool
        recommends
            self.lexer.valid(),
        decreases self.lexer.src.len() - self.lexer.pos, self.rank(),
        when self.lexer.valid()
    {
        proof {
            self.lemma_step_advances(names);
        }
        &&& condition(self)
        &&& match self.step(names) {
            Step::Go(_, next) => next.always(names, condition),
            Step::Invoke(_, next) => next.always(names, condition),
            _ => true,
        }
    }

    /// Whether a comment starts here.
    pub open spec fn is_comment(self) -> bool {
        self.lexer.step() matches Some((TokenModel::Hashtag, _))
    }
}

/// Whether this is the context for parsing an invocation in a scope.
pub open spec fn is_context<P>(context: FuncContext<P>, scope: Scope<P>, call: Call) -> bool {
    &&& context.header@ == HeaderModel::bare(call.name)
    &&& match context.body {
        Some(body) => call.body == Some(body@),
        None => call.body is None,
    }
    &&& *context.scope == scope
}

/// Whether the parser that the scope has for an invoked function may return
/// this result for the invocation.
pub open spec fn may_return<P: ParseFunc>(
    scope: Scope<P>,
    call: Call,
    result: ParseResult<P::Function>,
) -> bool {
    exists|context: FuncContext<P>|
        is_context(context, scope, call) && #[trigger] call_ensures(
            P::parse,
            (&scope@[call.name], context),
            result,
        )
}

/// Whether the parser that the scope has for an invoked function may succeed
/// with the invocation.
pub open spec fn may_succeed<P: ParseFunc>(scope: Scope<P>, call: Call) -> bool {
    exists|body: P::Function| #[trigger] may_return(scope, call, Ok(body))
}

/// Whether there is a rule for every token that the parser may come to from a
/// place on. It does not come to those behind a function that it gets an error
/// for.
///
/// The parser has no rule for a colon or an equals sign. These are tokens in
/// headers only, so it comes to one only if a header was started in a comment
/// and not finished there.
pub open spec fn parsable<P: ParseFunc>(cursor: Cursor, scope: Scope<P>) -> bool
    recommends
        cursor.lexer.valid(),
    decreases cursor.lexer.src.len() - cursor.lexer.pos, cursor.rank(),
    when cursor.lexer.valid()
{
    proof {
        cursor.lemma_step_advances(scope@.dom());
    }
    match cursor.step(scope@.dom()) {
        Step::End => true,
        Step::Go(_, next) => parsable(next, scope),
        Step::Invoke(call, next) => may_succeed(scope, call) ==> parsable(next, scope),
        Step::Fail(_) => true,
        Step::NoRule => false,
    }
}

/// The nodes of a tree or the message of an error.
pub open spec fn result_model<F>(result: ParseResult<SyntaxTree<F>>) -> Result<
    Seq<NodeModel<F>>,
    Seq<char>,
> {
    match result {
        Ok(tree) => Ok(tree@),
        Err(error) => Err(error@),
    }
}

/// Whether parsing from a place on, with the given nodes in front of it, may
/// give this result. It is the only one unless it depends on what the parsers
/// of the invoked functions return: an error of theirs is the result, and what
/// they parse the invocation to becomes part of a node.
pub open spec fn parses_to<P: ParseFunc>(
    cursor: Cursor,
    scope: Scope<P>,
    nodes: Seq<NodeModel<P::Function>>,
    result: Result<Seq<NodeModel<P::Function>>, Seq<char>>,
) -> bool
    recommends
        cursor.lexer.valid(),
    decreases cursor.lexer.src.len() - cursor.lexer.pos, cursor.rank(),
    when cursor.lexer.valid()
{
    proof {
        cursor.lemma_step_advances(scope@.dom());
    }
    match cursor.step(scope@.dom()) {
        Step::End => result == Ok::<Seq<NodeModel<P::Function>>, Seq<char>>(nodes),
        Step::Go(leaf, next) => parses_to(next, scope, appended(nodes, leaf), result),
        Step::Invoke(call, next) => exists|returned: ParseResult<P::Function>| #[trigger]
            may_return(scope, call, returned) && match returned {
                Ok(body) => parses_to(
                    next,
                    scope,
                    nodes.push(NodeModel::Func(HeaderModel::bare(call.name), body)),
                    result,
                ),
                Err(error) => result == Err::<Seq<NodeModel<P::Function>>, Seq<char>>(error@),
            },
        Step::Fail(message) => result == Err::<Seq<NodeModel<P::Function>>, Seq<char>>(message),
        Step::NoRule => false,
    }
}

} // verus!
