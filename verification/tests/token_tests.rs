use typeset_parsing::syntax::Token;
use typeset_parsing::syntax::Token::{
    Colon as C, Dollar as D, DoubleStar as DS, DoubleUnderscore as DU, Equals as E, Hashtag as H,
    LeftBracket as L, Newline as N, RightBracket as R, Space as S, Text as T,
};
use typeset_parsing::Tokens;

/// Test if the source code tokenizes to the tokens.
fn test(src: &str, tokens: Vec<Token>) {
    assert_eq!(Tokens::new(src).collect(), tokens);
}

/// Tokenizes the basic building blocks.
#[test]
fn tokenize_base() {
    test("", vec![]);
    test("Hallo", vec![T("Hallo")]);
    test("[", vec![L]);
    test("]", vec![R]);
    test("$", vec![D]);
    test("#", vec![H]);
    test("**", vec![DS]);
    test("__", vec![DU]);
    test("\n", vec![N]);
}

/// This test looks if LF- and CRLF-style newlines get both identified correctly
#[test]
fn tokenize_whitespace_newlines() {
    test(" \t", vec![S]);
    test(
        "First line\r\nSecond line\nThird line\n",
        vec![
            T("First"), S, T("line"), N, T("Second"), S, T("line"), N,
            T("Third"), S, T("line"), N,
        ],
    );
    test("Hello \n ", vec![T("Hello"), S, N, S]);
    test("Dense\nTimes", vec![T("Dense"), N, T("Times")]);
}

/// Tests if escaping with backslash works as it should.
#[test]
fn tokenize_escape() {
    test(r"\[", vec![T("[")]);
    test(r"\]", vec![T("]")]);
    test(r"\#", vec![T("#")]);
    test(r"\$", vec![T("$")]);
    test(r"\**", vec![T("*"), T("*")]);
    test(r"\*", vec![T("*")]);
    test(r"\__", vec![T("_"), T("_")]);
    test(r"\_", vec![T("_")]);
    test(r"\hello", vec![T("\\"), T("hello")]);
}

/// Tokenizes some more realistic examples.
#[test]
fn tokenize_examples() {
    test(
        r"
            [function][
                Test [italic][example]!
            ]
        ",
        vec![
            N, S, L, T("function"), R, L, N, S, T("Test"), S, L, T("italic"), R, L,
            T("example"), R, T("!"), N, S, R, N, S,
        ],
    );

    test(
        r"
            [page: size=A4]
            [font: size=12pt]

            Das ist ein Beispielsatz mit **fetter** Schrift.
        ",
        vec![
            N, S, L, T("page"), C, S, T("size"), E, T("A4"), R, N, S,
            L, T("font"), C, S, T("size"), E, T("12pt"), R, N, N, S,
            T("Das"), S, T("ist"), S, T("ein"), S, T("Beispielsatz"), S, T("mit"), S,
            DS, T("fetter"), DS, S, T("Schrift."), N, S,
        ],
    );
}

/// This test checks whether the colon and equals symbols get parsed correctly
/// depending on the context: Either in a function header or in a body.
#[test]
fn tokenize_symbols_context() {
    test(
        "[func: key=value][Answer: 7]",
        vec![
            L, T("func"), C, S, T("key"), E, T("value"), R, L,
            T("Answer:"), S, T("7"), R,
        ],
    );
    test(
        "[[n: k=v]:x][:[=]]:=",
        vec![
            L, L, T("n"), C, S, T("k"), E, T("v"), R, C, T("x"), R,
            L, T(":"), L, E, R, R, T(":="),
        ],
    );
    test(
        "[hi: k=[func][body] v=1][hello]",
        vec![
            L, T("hi"), C, S, T("k"), E, L, T("func"), R, L, T("body"), R, S,
            T("v"), E, T("1"), R, L, T("hello"), R,
        ],
    );
    test(
        "[func: __key__=value]",
        vec![L, T("func"), C, S, T("__key__"), E, T("value"), R],
    );
}

/// This test has a special look at the double underscore syntax, because
/// per Unicode standard they are not separate words and thus harder to parse
/// than the stars.
#[test]
fn tokenize_double_underscore() {
    test(
        "he__llo__world_ _ __ Now this_ is__ special!",
        vec![
            T("he"), DU, T("llo"), DU, T("world_"), S, T("_"), S, DU, S, T("Now"), S,
            T("this_"), S, T("is"), DU, S, T("special!"),
        ],
    );
}

/// This test is for checking if non-ASCII characters get parsed correctly.
#[test]
fn tokenize_unicode() {
    test(
        "[document][Hello 🌍!]",
        vec![L, T("document"), R, L, T("Hello"), S, T("🌍!"), R],
    );
    test("[f]⺐.", vec![L, T("f"), R, T("⺐.")]);
}
