use std::collections::HashMap;

use typeset_parsing::syntax::Node::{Func as F, Newline as N, Space as S};
use typeset_parsing::syntax::{FuncCall, FuncHeader, Node, SyntaxTree};
use typeset_parsing::{parse, FuncContext, ParseError, ParseFunc, ParseResult, Scope};

/// A testing function which just parses it's body into a syntax tree.
#[derive(Debug, PartialEq)]
struct TreeFn(Tree);

/// A testing function without a body.
#[derive(Debug, PartialEq)]
struct BodylessFn;

/// What an invocation of one of the testing functions is parsed to.
#[derive(Debug, PartialEq)]
enum TestFn {
    Tree(TreeFn),
    Bodyless(BodylessFn),
}

/// The parsers of the testing functions.
#[derive(Debug)]
enum TestParser {
    Tree,
    Bodyless,
}

type Tree = SyntaxTree<TestFn>;
type TestScope = Scope<TestParser>;

impl ParseFunc for TestParser {
    type Function = TestFn;

    fn parse(&self, context: FuncContext<'_, TestParser>) -> ParseResult<TestFn> {
        match self {
            TestParser::Tree => {
                if let Some(src) = context.body {
                    parse(src, context.scope).map(|tree| TestFn::Tree(TreeFn(tree)))
                } else {
                    Err(ParseError::new("expected body for tree fn"))
                }
            }
            TestParser::Bodyless => {
                if context.body.is_none() {
                    Ok(TestFn::Bodyless(BodylessFn))
                } else {
                    Err(ParseError::new("unexpected body for bodyless fn"))
                }
            }
        }
    }
}

/// Test if the source code parses into the syntax tree.
fn test(src: &str, tree: Tree) {
    assert_eq!(parse(src, &TestScope::new()).unwrap(), tree);
}

/// Test with a scope containing function definitions.
fn test_scoped(scope: &TestScope, src: &str, tree: Tree) {
    assert_eq!(parse(src, scope).unwrap(), tree);
}

/// Test if the source parses into the error.
fn test_err(src: &str, err: &str) {
    assert_eq!(parse(src, &TestScope::new()).unwrap_err().to_string(), err);
}

/// Test with a scope if the source parses into the error.
fn test_err_scoped(scope: &TestScope, src: &str, err: &str) {
    assert_eq!(parse(src, scope).unwrap_err().to_string(), err);
}

/// Create a text node.
#[allow(non_snake_case)]
fn T(s: &str) -> Node<TestFn> {
    Node::Text(s.to_owned())
}

/// Shortcut to create a syntax tree.
fn tree(nodes: Vec<Node<TestFn>>) -> Tree {
    SyntaxTree { nodes }
}

/// Shortcut to create a function.
fn func(name: &str, body: Option<Tree>) -> FuncCall<TestFn> {
    FuncCall {
        header: FuncHeader {
            name: name.to_string(),
            args: vec![],
            kwargs: HashMap::new(),
        },
        body: match body {
            Some(tree) => TestFn::Tree(TreeFn(tree)),
            None => TestFn::Bodyless(BodylessFn),
        },
    }
}

/// Parse the basic cases.
#[test]
fn parse_base() {
    test("", tree(vec![]));
    test("Hello World!", tree(vec![T("Hello"), S, T("World!")]));
}

/// Test whether newlines generate the correct whitespace.
#[test]
fn parse_newlines_whitespace() {
    test("Hello\nWorld", tree(vec![T("Hello"), S, T("World")]));
    test("Hello \n World", tree(vec![T("Hello"), S, T("World")]));
    test("Hello\n\nWorld", tree(vec![T("Hello"), N, T("World")]));
    test("Hello \n\nWorld", tree(vec![T("Hello"), S, N, T("World")]));
    test("Hello\n\n  World", tree(vec![T("Hello"), N, S, T("World")]));
    test("Hello \n \n \n  World", tree(vec![T("Hello"), S, N, S, T("World")]));
    test("Hello\n \n\n  World", tree(vec![T("Hello"), S, N, S, T("World")]));
}

/// Parse things dealing with functions.
#[test]
fn parse_functions() {
    let mut scope = TestScope::new();
    scope.add("test", TestParser::Bodyless);
    scope.add("end", TestParser::Bodyless);
    scope.add("modifier", TestParser::Tree);
    scope.add("func", TestParser::Tree);

    test_scoped(&scope, "[test]", tree(vec![F(func("test", None))]));
    test_scoped(
        &scope,
        "This is an [modifier][example] of a function invocation.",
        tree(vec![
            T("This"), S, T("is"), S, T("an"), S,
            F(func("modifier", Some(tree(vec![T("example")])))), S,
            T("of"), S, T("a"), S, T("function"), S, T("invocation."),
        ]),
    );
    test_scoped(
        &scope,
        "[func][Hello][modifier][Here][end]",
        tree(vec![
            F(func("func", Some(tree(vec![T("Hello")])))),
            F(func("modifier", Some(tree(vec![T("Here")])))),
            F(func("end", None)),
        ]),
    );
    test_scoped(&scope, "[func][]", tree(vec![F(func("func", Some(tree(vec![]))))]));
    test_scoped(
        &scope,
        "[modifier][[func][call]] outside",
        tree(vec![
            F(func(
                "modifier",
                Some(tree(vec![F(func("func", Some(tree(vec![T("call")]))))])),
            )),
            S,
            T("outside"),
        ]),
    );
}

/// Tests if the parser handles non-ASCII stuff correctly.
#[test]
fn parse_unicode() {
    let mut scope = TestScope::new();
    scope.add("func", TestParser::Bodyless);
    scope.add("bold", TestParser::Tree);
    test_scoped(&scope, "[func] ⺐.", tree(vec![F(func("func", None)), S, T("⺐.")]));
    test_scoped(
        &scope,
        "[bold][Hello 🌍!]",
        tree(vec![F(func("bold", Some(tree(vec![T("Hello"), S, T("🌍!")]))))]),
    );
}

/// Tests whether errors get reported correctly.
#[test]
fn parse_errors() {
    let mut scope = TestScope::new();
    scope.add("hello", TestParser::Tree);

    test_err("No functions here]", "unexpected closing bracket");
    test_err_scoped(&scope, "[hello][world", "expected closing bracket");
    test_err("[hello world", "expected closing bracket");
    test_err("[ no-name][Why?]", "expected identifier");
}
