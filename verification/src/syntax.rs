//! Tokens and syntax trees.

use std::collections::HashMap;

use vstd::prelude::*;

verus! {

/// A logical unit of the incoming text stream.
#[derive(Debug, Copy, Clone, Eq, PartialEq)]
pub enum Token<'s> {
    /// One or more whitespace (non-newline) codepoints.
    Space,
    /// A line feed (either `\n` or `\r\n`).
    Newline,
    /// A left bracket: `[`.
    LeftBracket,
    /// A right bracket: `]`.
    RightBracket,
    /// A colon (`:`) indicating the beginning of function arguments.
    Colon,
    /// An equals (`=`) sign assigning a function argument a value.
    Equals,
    /// Two underscores, indicating text in _italics_.
    DoubleUnderscore,
    /// Two stars, indicating **bold** text.
    DoubleStar,
    /// A dollar sign, indicating mathematical content.
    Dollar,
    /// A hashtag starting a comment.
    Hashtag,
    /// Everything else just is text.
    Text(&'s str),
}

/// The token as a mathematical value: texts are sequences of characters.
pub enum TokenModel {
    Space,
    Newline,
    LeftBracket,
    RightBracket,
    Colon,
    Equals,
    DoubleUnderscore,
    DoubleStar,
    Dollar,
    Hashtag,
    Text(Seq<char>),
}

impl<'s> View for Token<'s> {
    type V = TokenModel;

    open spec fn view(&self) -> TokenModel {
        match *self {
            Token::Space => TokenModel::Space,
            Token::Newline => TokenModel::Newline,
            Token::LeftBracket => TokenModel::LeftBracket,
            Token::RightBracket => TokenModel::RightBracket,
            Token::Colon => TokenModel::Colon,
            Token::Equals => TokenModel::Equals,
            Token::DoubleUnderscore => TokenModel::DoubleUnderscore,
            Token::DoubleStar => TokenModel::DoubleStar,
            Token::Dollar => TokenModel::Dollar,
            Token::Hashtag => TokenModel::Hashtag,
            Token::Text(word) => TokenModel::Text(word@),
        }
    }
}

/// The models of a sequence of tokens.
pub open spec fn token_models(tokens: Seq<Token>) -> Seq<TokenModel> {
    tokens.map_values(|token: Token| token@)
}

/// A potentially unevaluated expression, the value of a function argument.
/// The parser reads no arguments yet, so it makes no such value.
#[derive(Debug, Copy, Clone, PartialEq)]
pub struct Expression;

/// Contains header information of a function invocation.
#[derive(Debug, PartialEq)]
pub struct FuncHeader {
    /// The name of the function.
    pub name: String,
    /// The positional arguments.
    pub args: Vec<Expression>,
    /// The keyword arguments.
    pub kwargs: HashMap<String, Expression>,
}

/// The header as a mathematical value.
pub struct HeaderModel {
    pub name: Seq<char>,
    pub args: Seq<Expression>,
    pub kwargs: Map<String, Expression>,
}

impl HeaderModel {
    /// The header of a function that is called by its name, without arguments.
    pub open spec fn bare(name: Seq<char>) -> HeaderModel {
        HeaderModel { name, args: Seq::empty(), kwargs: Map::empty() }
    }
}

impl View for FuncHeader {
    type V = HeaderModel;

    open spec fn view(&self) -> HeaderModel {
        HeaderModel { name: self.name@, args: self.args@, kwargs: self.kwargs@ }
    }
}

impl FuncHeader {
    /// Create the header of a function that is called without arguments.
    pub fn new(name: String) -> (header: FuncHeader)
        ensures
            header@ == HeaderModel::bare(name@),
    {
        FuncHeader { name, args: vec![], kwargs: HashMap::new() }
    }
}

/// An invocation of a function, with the function that its body was parsed to.
#[derive(Debug, PartialEq)]
pub struct FuncCall<F> {
    pub header: FuncHeader,
    pub body: F,
}

/// A node in the syntax tree.
#[derive(Debug, PartialEq)]
pub enum Node<F> {
    /// Whitespace between other nodes.
    Space,
    /// A line feed.
    Newline,
    /// Indicates that italics were enabled/disabled.
    ToggleItalics,
    /// Indicates that boldface was enabled/disabled.
    ToggleBold,
    /// Indicates that math mode was enabled/disabled.
    ToggleMath,
    /// Literal text.
    Text(String),
    /// A function invocation.
    Func(FuncCall<F>),
}

/// The node as a mathematical value: texts are sequences of characters.
pub enum NodeModel<F> {
    Space,
    Newline,
    ToggleItalics,
    ToggleBold,
    ToggleMath,
    Text(Seq<char>),
    Func(HeaderModel, F),
}

impl<F> View for Node<F> {
    type V = NodeModel<F>;

    open spec fn view(&self) -> NodeModel<F> {
        match *self {
            Node::Space => NodeModel::Space,
            Node::Newline => NodeModel::Newline,
            Node::ToggleItalics => NodeModel::ToggleItalics,
            Node::ToggleBold => NodeModel::ToggleBold,
            Node::ToggleMath => NodeModel::ToggleMath,
            Node::Text(word) => NodeModel::Text(word@),
            Node::Func(call) => NodeModel::Func(call.header@, call.body),
        }
    }
}

/// A tree representation of the source.
#[derive(Debug, PartialEq)]
pub struct SyntaxTree<F> {
    /// The children.
    pub nodes: Vec<Node<F>>,
}

impl<F> View for SyntaxTree<F> {
    type V = Seq<NodeModel<F>>;

    open spec fn view(&self) -> Seq<NodeModel<F>> {
        self.nodes@.map_values(|node: Node<F>| node@)
    }
}

impl<F> SyntaxTree<F> {
    /// Create an empty syntax tree.
    pub fn new() -> (tree: SyntaxTree<F>)
        ensures
            tree@ == Seq::<NodeModel<F>>::empty(),
    {
        SyntaxTree { nodes: vec![] }
    }
}

} // verus!
