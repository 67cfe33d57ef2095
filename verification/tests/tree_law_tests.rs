use typeset_parsing::error::ParseError;
use typeset_parsing::parser::{check_name, func_node, Parser};
use typeset_parsing::syntax::Node::{
    Newline as N, Space as S, ToggleBold as B, ToggleItalics as I, ToggleMath as M,
};
use typeset_parsing::syntax::{FuncCall, FuncHeader, Node, SyntaxTree, Token};
use typeset_parsing::{parse, try_parse, FuncContext, ParseFunc, ParseResult, Scope};

/// What an invocation is parsed to here: its name, its body and how many
/// parsers the scope has for the names `a` and `b`.
#[derive(Debug, PartialEq)]
struct Echo {
    name: String,
    body: Option<String>,
    known: usize,
}

/// Parses invocations of functions that have to have a body, that must not have
/// one and that may have one.
#[derive(Debug, PartialEq)]
enum EchoParser {
    WithBody,
    WithoutBody,
    Both,
}

impl ParseFunc for EchoParser {
    type Function = Echo;

    fn parse(&self, context: FuncContext<'_, EchoParser>) -> ParseResult<Echo> {
        match (self, context.body) {
            (EchoParser::WithBody, None) => Err(ParseError::new("no body")),
            (EchoParser::WithoutBody, Some(_)) => Err(ParseError::new(String::from("a body"))),
            (_, body) => {
                let names = ["a", "b"];
                assert!(context.header.args.is_empty());
                assert!(context.header.kwargs.is_empty());
                Ok(Echo {
                    name: context.header.name.clone(),
                    body: body.map(|body| body.to_owned()),
                    known: names
                        .iter()
                        .filter(|name| context.scope.get_parser(name).is_some())
                        .count(),
                })
            }
        }
    }
}

/// A scope with three functions.
fn scope() -> Scope<EchoParser> {
    let mut scope = Scope::new();
    scope.add("a", EchoParser::WithBody);
    scope.add("b", EchoParser::WithoutBody);
    scope.add("größe", EchoParser::Both);
    scope
}

/// A text node.
#[allow(non_snake_case)]
fn T(word: &str) -> Node<Echo> {
    Node::Text(word.to_owned())
}

/// A function node.
#[allow(non_snake_case)]
fn F(name: &str, body: Option<&str>) -> Node<Echo> {
    Node::Func(FuncCall {
        header: FuncHeader::new(name.to_owned()),
        body: Echo {
            name: name.to_owned(),
            body: body.map(|body| body.to_owned()),
            known: 2,
        },
    })
}

/// Test if the source code parses into the nodes, with both parsing functions.
fn test(src: &str, nodes: Vec<Node<Echo>>) {
    let tree = SyntaxTree { nodes };
    assert_eq!(parse(src, &scope()).unwrap(), tree);
    assert_eq!(try_parse(src, &scope()).unwrap().unwrap(), tree);
}

/// Test if the source code parses into the error, with both parsing functions.
fn test_err(src: &str, message: &str) {
    assert_eq!(parse(src, &scope()).unwrap_err().to_string(), message);
    assert_eq!(try_parse(src, &scope()).unwrap().unwrap_err().to_string(), message);
}

/// Test if the parser has no rule for a token of the source code.
fn test_no_rule(src: &str) {
    assert!(try_parse(src, &scope()).is_none());
}

/// No two spaces stand next to each other.
#[test]
fn spaces_stand_apart() {
    test("a  \n  b", vec![T("a"), S, T("b")]);
    test("a \n#c\n b", vec![T("a"), S, T("b")]);
    test(" \n ", vec![S]);
}

/// However many newlines there are, there is one in the tree.
#[test]
fn newlines_stand_apart() {
    test("x\n\n\n\ny", vec![T("x"), N, S, T("y")]);
    test("x\n\ny\n\nz", vec![T("x"), N, T("y"), N, T("z")]);
    test("\n\n", vec![N]);
    test("x\n", vec![T("x")]);
}

/// Behind a comment that follows a newline there can be another newline.
#[test]
fn newlines_around_a_comment() {
    test("x\n\n#c\n\n\ny", vec![T("x"), N, N, T("y")]);
}

/// Both kinds of line ends count.
#[test]
fn newlines_of_two_characters() {
    test("x\r\ny", vec![T("x"), S, T("y")]);
    test("x\r\n\r\ny", vec![T("x"), N, T("y")]);
}

/// A comment is skipped, with the newline that ends it.
#[test]
fn comments() {
    test("#x", vec![]);
    test("#", vec![]);
    test("x # y", vec![T("x"), S]);
    test("x # y\nz", vec![T("x"), S, T("z")]);
    test("x#y\nz", vec![T("x"), T("z")]);
    test("# one\n# two\nx", vec![T("x")]);
    test("[b] # y\n\n\nz", vec![F("b", None), S, N, T("z")]);
    test("x\n# comment\ny", vec![T("x"), S, T("y")]);
    test("x\n\n# comment\ny", vec![T("x"), N, T("y")]);
    test("\n# one\n# two", vec![S]);
    test("\n# one\n\n# two", vec![S]);
    test("x\n#[y]\n:", vec![T("x"), S, T(":")]);
    test("# ] **\n**", vec![B]);
}

/// There are no rules for what an unfinished header in a comment makes of the
/// text behind it.
#[test]
fn tokens_without_a_rule() {
    test_no_rule("x\n#[y\n:");
    test_no_rule("x\n#[y\n=");
    test_no_rule("#[\n:");
    test_no_rule("[b]\n#[\n:");
}

/// Behind an error the parser does not come to a token without a rule.
#[test]
fn errors_in_front_of_tokens_without_a_rule() {
    test_err("[a]\n#[\n:", "no body");
    test_err("[b][x]\n#[\n:", "a body");
    test_err("]\n#[\n:", "unexpected closing bracket");
    test_err("[nope]\n#[\n:", "unknown function: 'nope'");
}

/// Headers that are finished in a comment, or have no colon behind it, do no
/// harm.
#[test]
fn headers_in_comments() {
    test("#[x][y]\n:=", vec![T(":=")]);
    test("#[x: [y][z\n:=", vec![T(":=")]);
    test("#[x]", vec![]);
    test("#[x\ny", vec![T("y")]);
}

/// A hashtag behind an error or in a body starts no comment.
#[test]
fn hashtags_that_are_not_come_to() {
    test_err("]#", "unexpected closing bracket");
    test("[a][#]", vec![F("a", Some("#"))]);
    test("[a][#]x", vec![F("a", Some("#")), T("x")]);
}

/// Words and modifiers stay as they are.
#[test]
fn plain_text() {
    test("x **y** __z__ $1$ \\[e\\]", vec![
        T("x"), S, B, T("y"), B, S, I, T("z"), I, S, M, T("1"), M, S, T("["), T("e"), T("]"),
    ]);
    test("a:b=c", vec![T("a:b=c")]);
}

/// Functions come with their names and bodies.
#[test]
fn functions() {
    test("[b]", vec![F("b", None)]);
    test("[größe][ä]ö", vec![F("größe", Some("ä")), T("ö")]);
    test("[größe]", vec![F("größe", None)]);
    test("[größe] [b]", vec![F("größe", None), S, F("b", None)]);
    test("x\n[b]\n\n[b]", vec![T("x"), S, F("b", None), N, F("b", None)]);
    test("[b]:=", vec![F("b", None), T(":=")]);
}

/// A function with a body adds a node in front of what is behind it.
#[test]
fn functions_in_front() {
    for rest in ["", " x", "\n\ny", ":=", "[b] z"] {
        let src = format!("[a][#x [y]]{}", rest);
        let mut nodes = vec![F("a", Some("#x [y]"))];
        nodes.extend(parse(rest, &scope()).unwrap().nodes);
        test(&src, nodes);
    }
    for rest in ["]", "[nope]", "[a][", "[a]"] {
        let src = format!("[a][]{}", rest);
        test_err(&src, &parse(rest, &scope()).unwrap_err().to_string());
    }
}

/// Parts with whitespace between them are parsed to their trees with one node
/// between them.
#[test]
fn joined_parts() {
    let parts = ["x", "x\\", "[b]", "[a][]", "**y*", "__", "#c\nz", "u [a][v]w"];
    for first in parts {
        for second in ["x", "[b]", "[a][:]", "*y", "_", ":=", "x\n\ny "] {
            for between in [" ", "\n", "\n\n"] {
                let src = format!("{}{}{}", first, between, second);
                let mut nodes = parse(first, &scope()).unwrap().nodes;
                nodes.push(if between == "\n\n" { N } else { S });
                nodes.extend(parse(second, &scope()).unwrap().nodes);
                test(&src, nodes);
            }
        }
    }
}

/// Appending a space twice is appending it once.
#[test]
fn spaces_are_appended_once() {
    let scope = scope();
    let mut parser = Parser::new("x", &scope);
    parser.append_space();
    parser.append_space();
    assert_eq!(parser.parse().unwrap().nodes, vec![S, T("x")]);
}

/// A body goes on up to the bracket that closes it.
#[test]
fn bodies() {
    test("[a][x [y][z] [ ] w]v", vec![F("a", Some("x [y][z] [ ] w")), T("v")]);
    test("[a][]", vec![F("a", Some(""))]);
    test("[a][🌍]**[a][]", vec![F("a", Some("🌍")), B, F("a", Some(""))]);
    test("[a][:]:", vec![F("a", Some(":")), T(":")]);
    test_err("[a][x\\]y]", "unexpected closing bracket");
}

/// Every error of the parser.
#[test]
fn errors_of_the_parser() {
    test_err("x]", "unexpected closing bracket");
    test_err("[b]]", "unexpected closing bracket");
    test_err("[", "expected identifier");
    test_err("[]", "expected identifier");
    test_err("[ b]", "expected identifier");
    test_err("[[b]]", "expected identifier");
    test_err("[1st]", "invalid identifier");
    test_err("[a-b", "invalid identifier");
    test_err("[\\[", "invalid identifier");
    test_err("[b", "expected closing bracket");
    test_err("[b: x=1]", "expected closing bracket");
    test_err("[a][", "expected closing bracket");
    test_err("[a][x[y]", "expected closing bracket");
    test_err("[nope]", "unknown function: 'nope'");
    test_err("[nope][", "unknown function: 'nope'");
    test_err("[größer]", "unknown function: 'größer'");
}

/// Errors of functions are handed on.
#[test]
fn errors_of_functions() {
    test_err("[a] ]", "no body");
    test_err("x [b][y] z", "a body");
}

/// The same source code in the same scope gives the same result.
#[test]
fn parsing_is_deterministic() {
    let scope = scope();
    let src = "x\n\n[a][y] __z__ [b]";
    assert_eq!(parse(src, &scope).unwrap(), parse(src, &scope).unwrap());
}

/// A scope has one parser for a name, the one that was added last.
#[test]
fn scopes() {
    let mut scope = Scope::new();
    assert!(scope.get_parser("a").is_none());
    scope.add("a", EchoParser::WithBody);
    scope.add("b", EchoParser::Both);
    scope.add("a", EchoParser::WithoutBody);
    assert_eq!(scope.get_parser("a"), Some(&EchoParser::WithoutBody));
    assert_eq!(scope.get_parser("b"), Some(&EchoParser::Both));
    assert!(scope.get_parser("").is_none());
}

/// The name of a function from a token.
#[test]
fn names_of_functions() {
    assert_eq!(check_name(Some(Token::Text("x")), true).unwrap(), "x");
    assert_eq!(
        check_name(Some(Token::Text("x")), false).unwrap_err().to_string(),
        "invalid identifier"
    );
    assert_eq!(check_name(Some(Token::Colon), true).unwrap_err().to_string(), "expected identifier");
    assert_eq!(check_name(None, true).unwrap_err().to_string(), "expected identifier");
}

/// The node of a function from what its parser returned.
#[test]
fn nodes_of_functions() {
    let node = func_node(FuncHeader::new("f".to_owned()), Ok(7)).unwrap();
    assert_eq!(node, Node::Func(FuncCall { header: FuncHeader::new("f".to_owned()), body: 7 }));
    let error = func_node::<u8>(FuncHeader::new("f".to_owned()), Err(ParseError::new("no")));
    assert_eq!(error.unwrap_err().to_string(), "no");
}

/// Errors keep their message.
#[test]
fn messages_of_errors() {
    assert_eq!(ParseError::new("one").to_string(), "one");
    assert_eq!(ParseError::new(String::from("two")).to_string(), "two");
    assert_eq!(ParseError::unknown_function("f").to_string(), "unknown function: 'f'");
}
