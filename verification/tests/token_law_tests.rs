use typeset_parsing::brackets::find_closing_bracket;
use typeset_parsing::chars::PeekableChars;
use typeset_parsing::ident::is_identifier;
use typeset_parsing::peekable::PeekableTokens;
use typeset_parsing::syntax::Token;
use typeset_parsing::syntax::Token::{
    Colon as C, Dollar as D, DoubleStar as DS, DoubleUnderscore as DU, Equals as E, Hashtag as H,
    LeftBracket as L, Newline as N, RightBracket as R, Space as S, Text as T,
};
use typeset_parsing::text;
use typeset_parsing::tokens::is_newline_char;
use typeset_parsing::{tokenize, Tokens};

/// Test if the source code tokenizes to the tokens.
fn test(src: &str, tokens: Vec<Token>) {
    assert_eq!(tokenize(src).collect(), tokens);
}

/// Behind a function the state of what surrounds it is back.
#[test]
fn functions_restore_the_surrounding_state() {
    test("[f][**]**", vec![L, T("f"), R, L, DS, R, DS]);
    test("[f: [g][:**]:]:", vec![
        L, T("f"), C, S, L, T("g"), R, L, T(":"), DS, R, C, R, T(":"),
    ]);
    test("[[[[a]]]]:", vec![L, L, L, L, T("a"), R, R, R, R, T(":")]);
    test("[a][[b][[c][:]]]:=", vec![
        L, T("a"), R, L, L, T("b"), R, L, L, T("c"), R, L, T(":"), R, R, R, T(":="),
    ]);
}

/// Closing brackets without an opening one leave the tokenizer in the body.
#[test]
fn surplus_closing_brackets_stay_in_the_body() {
    test("]]:**", vec![R, R, T(":"), DS]);
}

/// Only a bracket directly behind a header opens a body.
#[test]
fn bodies_follow_headers_directly() {
    test("[f] [g:]", vec![L, T("f"), R, S, L, T("g"), C, R]);
    test("[f][g:]", vec![L, T("f"), R, L, T("g:"), R]);
    test("[f]", vec![L, T("f"), R]);
    test("[f]:", vec![L, T("f"), R, T(":")]);
}

/// Every kind of newline is one token, in bodies and in headers.
#[test]
fn newlines_of_all_kinds() {
    test("\u{c}\u{85}\u{2028}\u{2029}\r\n\r\n\n\r", vec![N, N, N, N, N, N, N, N]);
    test("[a\r\nb]", vec![L, T("a"), N, T("b"), R]);
    test("a\rb", vec![T("a"), N, T("b")]);
    assert!(is_newline_char('\u{2028}'));
    assert!(!is_newline_char(' '));
    assert!(!is_newline_char('\u{b}'));
}

/// What a backslash escapes is text, and a backslash that escapes nothing too.
#[test]
fn backslashes() {
    test("\\", vec![T("\\")]);
    test("\\\\", vec![T("\\")]);
    test("\\\\[", vec![T("\\"), L]);
    test("[\\:]", vec![L, T("\\"), C, R]);
    test("[\\[]", vec![L, T("["), R]);
    test("\\ä", vec![T("\\"), T("ä")]);
    test("\\\n", vec![T("\\"), N]);
}

/// Some characters are tokens in headers only and some in bodies only.
#[test]
fn tokens_depend_on_the_context() {
    test("a:b=c [a:b=c]", vec![
        T("a:b=c"), S, L, T("a"), C, T("b"), E, T("c"), R,
    ]);
    test("a**b [a**b__]", vec![T("a"), DS, T("b"), S, L, T("a**b__"), R]);
    test("*a a* _", vec![T("*a"), S, T("a*"), S, T("_")]);
    test("***", vec![DS, T("*")]);
    test("___", vec![DU, T("_")]);
    test("a$b#c", vec![T("a"), D, T("b"), H, T("c")]);
}

/// Words go on as far as they can, and whitespace is one space.
#[test]
fn words_and_spaces_are_maximal() {
    test("ab\\]c", vec![T("ab"), T("]"), T("c")]);
    test("a \t  b\t", vec![T("a"), S, T("b"), S]);
    test("ä\u{a0}ö", vec![T("ä\u{a0}ö")]);
}

/// A copy of a token stream goes its own way.
#[test]
fn clones_are_independent() {
    let mut tokens = Tokens::new("[[a]:b]:c");
    assert_eq!(tokens.next(), Some(L));
    assert_eq!(tokens.next(), Some(L));
    let copy = tokens.clone();
    assert_eq!(tokens.next(), Some(T("a")));
    assert_eq!(tokens.next(), Some(R));
    let late = tokens.clone();
    assert_eq!(copy.collect(), vec![T("a"), R, C, T("b"), R, T(":c")]);
    assert_eq!(late.collect(), vec![C, T("b"), R, T(":c")]);
    assert_eq!(tokens.collect(), vec![C, T("b"), R, T(":c")]);
}

/// At the end there is nothing left, however often one asks.
#[test]
fn the_end_stays_the_end() {
    let mut tokens = tokenize("[f]");
    for _ in 0..3 {
        assert!(tokens.next().is_some());
    }
    assert_eq!(tokens.next(), None);
    assert_eq!(tokens.next(), None);
    assert_eq!(tokens.current_index(), None);
}

/// Going to another place keeps the state.
#[test]
fn going_to_a_place_keeps_the_state() {
    let mut tokens = tokenize("[ä: b] c:d");
    assert_eq!(tokens.current_index(), Some(0));
    assert_eq!(tokens.next(), Some(L));
    assert_eq!(tokens.next(), Some(T("ä")));
    assert_eq!(tokens.current_index(), Some(3));
    tokens.goto(8);
    assert_eq!(tokens.collect(), vec![T("c"), C, T("d")]);
}

/// Peeking at a token does not take it.
#[test]
fn peeking_at_tokens() {
    let mut tokens = PeekableTokens::new(tokenize("a [b"));
    assert_eq!(tokens.current_index(), Some(0));
    assert_eq!(tokens.peek(), Some(T("a")));
    assert_eq!(tokens.peek(), Some(T("a")));
    assert_eq!(tokens.current_index(), Some(0));
    assert_eq!(tokens.next(), Some(T("a")));
    assert_eq!(tokens.current_index(), Some(1));
    assert_eq!(tokens.next(), Some(S));
    assert_eq!(tokens.current_index(), Some(2));
    assert_eq!(tokens.peek(), Some(L));
    tokens.goto(3);
    assert_eq!(tokens.peek(), Some(T("b")));
    assert_eq!(tokens.next(), Some(T("b")));
    assert_eq!(tokens.peek(), None);
    assert_eq!(tokens.current_index(), None);
    assert_eq!(tokens.next(), None);
}

/// A jump drops the token that was peeked at.
#[test]
fn jumping_after_peeking() {
    let mut tokens = PeekableTokens::new(tokenize("a b"));
    assert_eq!(tokens.peek(), Some(T("a")));
    tokens.goto(2);
    assert_eq!(tokens.current_index(), Some(2));
    assert_eq!(tokens.next(), Some(T("b")));
    assert_eq!(tokens.next(), None);
}

/// Characters come with their byte positions, and two of them can be seen in
/// advance.
#[test]
fn peeking_at_characters() {
    let mut chars = PeekableChars::new("a🌍ßb");
    assert_eq!(chars.peek_second(), Some((1, '🌍')));
    assert_eq!(chars.peek(), Some((0, 'a')));
    assert_eq!(chars.current_index(), Some(0));
    assert_eq!(chars.next(), Some((0, 'a')));
    assert_eq!(chars.peek(), Some((1, '🌍')));
    assert_eq!(chars.peek_second(), Some((5, 'ß')));
    chars.goto(5);
    assert_eq!(chars.next(), Some((5, 'ß')));
    assert_eq!(chars.next(), Some((7, 'b')));
    assert_eq!(chars.peek_second(), None);
    assert_eq!(chars.next(), None);
    chars.goto(0);
    assert_eq!(chars.next(), Some((0, 'a')));
    chars.goto(8);
    assert_eq!(chars.peek(), None);
}

/// The first unbalanced closing bracket, as a byte position.
#[test]
fn closing_brackets() {
    assert_eq!(find_closing_bracket(""), None);
    assert_eq!(find_closing_bracket("]"), Some(0));
    assert_eq!(find_closing_bracket("a]"), Some(1));
    assert_eq!(find_closing_bracket("[a]"), None);
    assert_eq!(find_closing_bracket("[a]]b]"), Some(3));
    assert_eq!(find_closing_bracket("[[a][b]] ] ]"), Some(9));
    assert_eq!(find_closing_bracket("🌍[ä]]"), Some(8));
    assert_eq!(find_closing_bracket("[[]"), None);
}

/// Identifiers go by the Unicode properties.
#[test]
fn identifiers() {
    assert!(is_identifier("func"));
    assert!(is_identifier("a_1"));
    assert!(is_identifier("größe"));
    assert!(is_identifier("名前"));
    assert!(is_identifier("a\u{b7}"));
    assert!(is_identifier("Z"));
    assert!(!is_identifier(""));
    assert!(!is_identifier("1a"));
    assert!(!is_identifier("_a"));
    assert!(!is_identifier("a-b"));
    assert!(!is_identifier("\u{b7}a"));
    assert!(!is_identifier("🌍"));
    assert!(!is_identifier("a🌍"));
    assert!(!is_identifier("a:"));
    assert!(!is_identifier("\u{85}"));
    assert!(!is_identifier("a\u{85}"));
    assert!(!is_identifier("a\u{2028}"));
    assert!(!is_identifier("a\u{2029}"));
}

/// Positions and widths in UTF-8.
#[test]
fn text_positions() {
    assert_eq!(text::len_utf8('a'), 1);
    assert_eq!(text::len_utf8('\u{7f}'), 1);
    assert_eq!(text::len_utf8('\u{80}'), 2);
    assert_eq!(text::len_utf8('ß'), 2);
    assert_eq!(text::len_utf8('⺐'), 3);
    assert_eq!(text::len_utf8('\u{ffff}'), 3);
    assert_eq!(text::len_utf8('🌍'), 4);
    assert_eq!(text::split("aß🌍", 3), ("aß", "🌍"));
    assert_eq!(text::slice("aß🌍b", 1, 7), "ß🌍");
    assert_eq!(text::slice("ab", 1, 1), "");
    assert_eq!(text::byte_len("aß🌍"), 7);
}
