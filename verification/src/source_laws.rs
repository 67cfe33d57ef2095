//! What source code is parsed to, form by form.

use vstd::prelude::*;

use crate::brackets;
use crate::error;
use crate::error::ParseResult;
use crate::func::{FuncContext, ParseFunc, Scope};
use crate::grammar;
use crate::grammar::{Call, Cursor, Leaf, ParserState, Step};
use crate::ident;
use crate::lexer;
use crate::lexer::{Lexer, TokensState};
use crate::part_laws;
use crate::syntax::{Expression, HeaderModel, Node, NodeModel, SyntaxTree, TokenModel};
use crate::token_laws;
use crate::tree_laws;

verus! {

/// Whether a place is one where text can stand: not directly behind a header. It
/// is in a body unless a header was started in a comment.
pub open spec fn is_text_place(place: Lexer) -> bool {
    token_laws::is_place(place) && place.state != TokensState::MaybeBody
}

/// The parser in its base state at a place.
pub open spec fn at(place: Lexer) -> Cursor {
    Cursor { lexer: place, state: ParserState::Body }
}

/// Whether parsing from one place on, with some nodes in front of it, gives the
/// same results as parsing from another place on with other nodes.
pub open spec fn leads_to<P: ParseFunc>(
    from: Cursor,
    nodes: Seq<NodeModel<P::Function>>,
    to: Cursor,
    after: Seq<NodeModel<P::Function>>,
    scope: Scope<P>,
) -> bool {
    &&& forall|result: Result<Seq<NodeModel<P::Function>>, Seq<char>>| #[trigger]
        grammar::parses_to(from, scope, nodes, result) <==> grammar::parses_to(
            to,
            scope,
            after,
            result,
        )
    &&& grammar::parsable(from, scope) <==> grammar::parsable(to, scope)
}

/// Whether parsing from a place on gives one error, whatever stands in front.
pub open spec fn fails_with<P: ParseFunc>(
    from: Cursor,
    nodes: Seq<NodeModel<P::Function>>,
    message: Seq<char>,
    scope: Scope<P>,
) -> bool {
    &&& forall|result: Result<Seq<NodeModel<P::Function>>, Seq<char>>| #[trigger]
        grammar::parses_to(from, scope, nodes, result) <==> result == Err::<
            Seq<NodeModel<P::Function>>,
            Seq<char>,
        >(message)
    &&& grammar::parsable(from, scope)
}

/// The nodes with a space at the end, which is not doubled.
pub open spec fn spaced<F>(nodes: Seq<NodeModel<F>>) -> Seq<NodeModel<F>> {
    if nodes.len() > 0 && nodes.last() is Space {
        nodes
    } else {
        nodes.push(NodeModel::Space)
    }
}

/// A step that adds to the nodes leads on.
proof fn lemma_go<P: ParseFunc>(
    from: Cursor,
    nodes: Seq<NodeModel<P::Function>>,
    leaf: Leaf,
    to: Cursor,
    scope: Scope<P>,
)
    requires
        from.lexer.valid(),
        from.step(scope@.dom()) == Step::Go(leaf, to),
    ensures
        leads_to(from, nodes, to, grammar::appended(nodes, leaf), scope),
{
    from.lemma_step_advances(scope@.dom());
    assert forall|result: Result<Seq<NodeModel<P::Function>>, Seq<char>>| #[trigger]
        grammar::parses_to(from, scope, nodes, result) <==> grammar::parses_to(
            to,
            scope,
            grammar::appended(nodes, leaf),
            result,
        ) by {}
}

/// A step that fails gives its error.
proof fn lemma_fail<P: ParseFunc>(
    from: Cursor,
    nodes: Seq<NodeModel<P::Function>>,
    message: Seq<char>,
    scope: Scope<P>,
)
    requires
        from.lexer.valid(),
        from.step(scope@.dom()) == Step::Fail(message),
    ensures
        fails_with(from, nodes, message, scope),
{
    assert forall|result: Result<Seq<NodeModel<P::Function>>, Seq<char>>| #[trigger]
        grammar::parses_to(from, scope, nodes, result) <==> result == Err::<
            Seq<NodeModel<P::Function>>,
            Seq<char>,
        >(message) by {}
}

/// At the end of the source code the tree is what was parsed so far.
pub proof fn law_end<P: ParseFunc>(
    place: Lexer,
    state: ParserState,
    nodes: Seq<NodeModel<P::Function>>,
    scope: Scope<P>,
    result: Result<Seq<NodeModel<P::Function>>, Seq<char>>,
)
    requires
        token_laws::is_place(place),
        place.pos == place.src.len(),
    ensures
        grammar::parses_to(Cursor { lexer: place, state }, scope, nodes, result) <==> result == Ok::<
            Seq<NodeModel<P::Function>>,
            Seq<char>,
        >(nodes),
        grammar::parsable(Cursor { lexer: place, state }, scope),
{
}

/// Parsing source code is parsing from its first character on, with no nodes in
/// front.
pub proof fn law_source<P: ParseFunc>(
    src: Seq<char>,
    scope: Scope<P>,
    result: Result<Seq<NodeModel<P::Function>>, Seq<char>>,
)
    ensures
        Cursor::start(src) == at(Lexer::start(src)),
        tree_laws::source_parses_to(src, scope, result) <==> grammar::parses_to(
            at(Lexer::start(src)),
            scope,
            Seq::empty(),
            result,
        ),
{
}

/// Words end where they are said to.
proof fn lemma_word_ends_at(src: Seq<char>, i: int, end: int, state: TokensState)
    requires
        0 <= i <= end <= src.len(),
        forall|k: int| i <= k < end ==> #[trigger] token_laws::is_in_word(src, k, state),
        end < src.len() ==> !token_laws::is_in_word(src, end, state),
    ensures
        lexer::word_end(src, i, state) == end,
    decreases end - i,
{
    if i < end {
        assert(token_laws::is_in_word(src, i, state));
        lemma_word_ends_at(src, i + 1, end, state);
    }
}

/// Whitespace ends where it is said to.
proof fn lemma_blanks_end_at(src: Seq<char>, i: int, end: int)
    requires
        0 <= i <= end <= src.len(),
        forall|k: int| i <= k < end ==> #[trigger] src[k] == ' ' || src[k] == '\t',
        end < src.len() ==> src[end] != ' ' && src[end] != '\t',
    ensures
        lexer::blank_end(src, i) == end,
    decreases end - i,
{
    if i < end {
        assert(src[i] == ' ' || src[i] == '\t');
        lemma_blanks_end_at(src, i + 1, end);
    }
}

/// A word is parsed to a text, as far as it goes.
pub proof fn law_word<P: ParseFunc>(
    place: Lexer,
    end: int,
    nodes: Seq<NodeModel<P::Function>>,
    scope: Scope<P>,
)
    requires
        is_text_place(place),
        place.pos < end <= place.src.len(),
        forall|i: int|
            place.pos <= i < end ==> #[trigger] token_laws::is_in_word(place.src, i, place.state),
        end < place.src.len() ==> !token_laws::is_in_word(place.src, end, place.state),
    ensures
        leads_to(
            at(place),
            nodes,
            at(Lexer { pos: end, ..place }),
            nodes.push(NodeModel::Text(place.src.subrange(place.pos, end))),
            scope,
        ),
{
    assert(token_laws::is_in_word(place.src, place.pos, place.state));
    lemma_word_ends_at(place.src, place.pos + 1, end, place.state);
    let text = place.src.subrange(place.pos, end);
    lemma_go(at(place), nodes, Leaf::Text(text), at(Lexer { pos: end, ..place }), scope);
}

/// A character that a backslash escapes is parsed to a text of its own, and a
/// backslash that escapes nothing is one itself.
pub proof fn law_backslash<P: ParseFunc>(
    place: Lexer,
    nodes: Seq<NodeModel<P::Function>>,
    scope: Scope<P>,
)
    requires
        is_text_place(place),
        place.pos < place.src.len(),
        place.src[place.pos] == '\\',
    ensures
        ({
            let behind = place.pos + 1;
            let c = place.src[behind];
            if behind < place.src.len() && (c == '[' || c == ']' || c == '$' || c == '#' || c
                == '\\' || c == '*' || c == '_') {
                leads_to(
                    at(place),
                    nodes,
                    at(Lexer { pos: behind + 1, ..place }),
                    nodes.push(NodeModel::Text(seq![c])),
                    scope,
                )
            } else {
                leads_to(
                    at(place),
                    nodes,
                    at(Lexer { pos: behind, ..place }),
                    nodes.push(NodeModel::Text(seq!['\\'])),
                    scope,
                )
            }
        }),
{
    token_laws::law_escape(place);
    let (token, next) = place.step()->0;
    lemma_go(at(place), nodes, Leaf::Text(token->Text_0), at(next), scope);
}

/// Dollar signs, and in bodies double stars and double underscores, are parsed to
/// modifiers, whatever stands around them.
pub proof fn law_modifiers<P: ParseFunc>(
    place: Lexer,
    nodes: Seq<NodeModel<P::Function>>,
    scope: Scope<P>,
)
    requires
        is_text_place(place),
        place.pos < place.src.len(),
    ensures
        ({
            let c = place.src[place.pos];
            let doubled = place.state == TokensState::Body && place.pos + 1 < place.src.len()
                && place.src[place.pos + 1] == c;
            let behind = Lexer { pos: place.pos + 1, ..place };
            let behind_both = Lexer { pos: place.pos + 2, ..place };
            &&& c == '*' && doubled ==> leads_to(
                at(place),
                nodes,
                at(behind_both),
                nodes.push(NodeModel::ToggleBold),
                scope,
            )
            &&& c == '_' && doubled ==> leads_to(
                at(place),
                nodes,
                at(behind_both),
                nodes.push(NodeModel::ToggleItalics),
                scope,
            )
            &&& c == '$' ==> leads_to(
                at(place),
                nodes,
                at(behind),
                nodes.push(NodeModel::ToggleMath),
                scope,
            )
        }),
{
    let c = place.src[place.pos];
    let doubled = place.state == TokensState::Body && place.pos + 1 < place.src.len()
        && place.src[place.pos + 1] == c;
    let behind = Lexer { pos: place.pos + 1, ..place };
    let behind_both = Lexer { pos: place.pos + 2, ..place };
    if c == '*' && doubled {
        lemma_go(at(place), nodes, Leaf::ToggleBold, at(behind_both), scope);
    }
    if c == '_' && doubled {
        lemma_go(at(place), nodes, Leaf::ToggleItalics, at(behind_both), scope);
    }
    if c == '$' {
        lemma_go(at(place), nodes, Leaf::ToggleMath, at(behind), scope);
    }
}

/// A closing bracket outside of a function is an error.
pub proof fn law_stray_bracket<P: ParseFunc>(
    place: Lexer,
    nodes: Seq<NodeModel<P::Function>>,
    scope: Scope<P>,
)
    requires
        is_text_place(place),
        place.pos < place.src.len(),
        place.src[place.pos] == ']',
    ensures
        fails_with(at(place), nodes, "unexpected closing bracket"@, scope),
{
    lemma_fail(at(place), nodes, "unexpected closing bracket"@, scope);
}

/// Whether a character ends a line.
pub open spec fn ends_line(c: char) -> bool {
    c == '\u{000a}' || c == '\u{000d}' || c == '\u{000c}' || c == '\u{0085}' || c == '\u{2028}' || c
        == '\u{2029}'
}

/// Whether the part of a text between two indices is the end of a line: one
/// character, or a carriage return together with a line feed.
pub open spec fn is_line_end(src: Seq<char>, start: int, end: int) -> bool {
    &&& 0 <= start < src.len()
    &&& ends_line(src[start])
    &&& end == if src[start] == '\r' && start + 1 < src.len() && src[start + 1] == '\n' {
        start + 2
    } else {
        start + 1
    }
}

/// Whether the part of a text between two indices consists of spaces and tabs.
pub open spec fn is_blank_run(src: Seq<char>, start: int, end: int) -> bool {
    &&& 0 <= start <= end <= src.len()
    &&& forall|i: int| start <= i < end ==> #[trigger] src[i] == ' ' || src[i] == '\t'
}

/// Whether the part of a text between two indices consists of spaces, tabs and
/// ends of lines.
pub open spec fn is_gap(src: Seq<char>, start: int, end: int) -> bool {
    &&& 0 <= start <= end <= src.len()
    &&& forall|i: int|
        start <= i < end ==> #[trigger] src[i] == ' ' || src[i] == '\t' || ends_line(src[i])
}

/// Whether no whitespace stands at an index, or the text ends there.
pub open spec fn is_solid_at(src: Seq<char>, i: int) -> bool {
    i < src.len() ==> src[i] != ' ' && src[i] != '\t' && !ends_line(src[i])
}

/// Spaces and tabs make a space in every state of the parser.
proof fn lemma_blanks<P: ParseFunc>(
    place: Lexer,
    state: ParserState,
    end: int,
    nodes: Seq<NodeModel<P::Function>>,
    scope: Scope<P>,
)
    requires
        is_text_place(place),
        place.pos < end,
        is_blank_run(place.src, place.pos, end),
        end < place.src.len() ==> place.src[end] != ' ' && place.src[end] != '\t',
    ensures
        leads_to(
            Cursor { lexer: place, state },
            nodes,
            Cursor { lexer: Lexer { pos: end, ..place }, state },
            spaced(nodes),
            scope,
        ),
{
    lemma_blanks_end_at(place.src, place.pos + 1, end);
    assert(place.src[place.pos] == ' ' || place.src[place.pos] == '\t');
    lemma_go(
        Cursor { lexer: place, state },
        nodes,
        Leaf::Space,
        Cursor { lexer: Lexer { pos: end, ..place }, state },
        scope,
    );
}

/// Spaces and tabs are parsed to one space, if there is not one already.
pub proof fn law_spaces<P: ParseFunc>(
    place: Lexer,
    end: int,
    nodes: Seq<NodeModel<P::Function>>,
    scope: Scope<P>,
)
    requires
        is_text_place(place),
        place.pos < end,
        is_blank_run(place.src, place.pos, end),
        end < place.src.len() ==> place.src[end] != ' ' && place.src[end] != '\t',
    ensures
        leads_to(at(place), nodes, at(Lexer { pos: end, ..place }), spaced(nodes), scope),
{
    lemma_blanks(place, ParserState::Body, end, nodes, scope);
}

/// The end of a line is a newline token.
proof fn lemma_line_end(place: Lexer, end: int)
    requires
        is_text_place(place),
        is_line_end(place.src, place.pos, end),
    ensures
        place.step() == Some((TokenModel::Newline, Lexer { pos: end, ..place })),
{
}

/// Once a newline was written, all further whitespace makes a space.
proof fn lemma_further_gap<P: ParseFunc>(
    place: Lexer,
    end: int,
    nodes: Seq<NodeModel<P::Function>>,
    scope: Scope<P>,
)
    requires
        is_text_place(place),
        place.pos < end,
        is_gap(place.src, place.pos, end),
        is_solid_at(place.src, end),
    ensures
        leads_to(
            Cursor { lexer: place, state: ParserState::WroteNewline },
            nodes,
            Cursor { lexer: Lexer { pos: end, ..place }, state: ParserState::WroteNewline },
            spaced(nodes),
            scope,
        ),
    decreases end - place.pos,
{
    let src = place.src;
    let here = Cursor { lexer: place, state: ParserState::WroteNewline };
    let c = src[place.pos];
    assert(c == ' ' || c == '\t' || ends_line(c));
    token_laws::law_kinds(place);
    token_laws::law_extents(place);
    token_laws::law_contexts(place);
    let next = (place.step()->0).1;
    if end < next.pos {
        if c == ' ' || c == '\t' {
            assert(src[end] == ' ' || src[end] == '\t');
        }
    }
    assert(next =~= Lexer { pos: next.pos, ..place });
    lemma_go(
        here,
        nodes,
        Leaf::Space,
        Cursor { lexer: next, state: ParserState::WroteNewline },
        scope,
    );
    if next.pos < end {
        lemma_further_gap(next, end, spaced(nodes), scope);
    }
}

/// Where whitespace ends, the parser goes on in its base state.
proof fn lemma_leave<P: ParseFunc>(
    place: Lexer,
    state: ParserState,
    nodes: Seq<NodeModel<P::Function>>,
    scope: Scope<P>,
)
    requires
        is_text_place(place),
        is_solid_at(place.src, place.pos),
    ensures
        leads_to(
            Cursor { lexer: place, state },
            nodes,
            at(place),
            if state == ParserState::FirstNewline && place.pos < place.src.len() {
                spaced(nodes)
            } else {
                nodes
            },
            scope,
        ),
{
    let names = scope@.dom();
    let here = Cursor { lexer: place, state };
    let after = if state == ParserState::FirstNewline && place.pos < place.src.len() {
        spaced(nodes)
    } else {
        nodes
    };
    if place.pos < place.src.len() && state != ParserState::Body {
        token_laws::law_kinds(place);
        let leaf = if state == ParserState::FirstNewline {
            Leaf::Space
        } else {
            Leaf::Nothing
        };
        if place.src[place.pos] == '#' {
            let next = at(place.next_line());
            place.lemma_next_line();
            lemma_go(here, nodes, leaf, next, scope);
            lemma_go(at(place), after, Leaf::Nothing, next, scope);
            assert forall|result: Result<Seq<NodeModel<P::Function>>, Seq<char>>| #[trigger]
                grammar::parses_to(here, scope, nodes, result) <==> grammar::parses_to(
                    at(place),
                    scope,
                    after,
                    result,
                ) by {
                assert(grammar::parses_to(here, scope, nodes, result) == grammar::parses_to(
                    next,
                    scope,
                    after,
                    result,
                ));
                assert(grammar::parses_to(at(place), scope, after, result) == grammar::parses_to(
                    next,
                    scope,
                    after,
                    result,
                ));
            }
        } else {
            lemma_go(here, nodes, leaf, at(place), scope);
        }
    }
}

/// The end of one line, with spaces and tabs around it or without, is parsed to
/// one space, if there is not one already. Only at the end of the source code it
/// is parsed to nothing if there is nothing around it.
pub proof fn law_line_break<P: ParseFunc>(
    place: Lexer,
    line_end: int,
    next_line: int,
    end: int,
    nodes: Seq<NodeModel<P::Function>>,
    scope: Scope<P>,
)
    requires
        is_text_place(place),
        is_blank_run(place.src, place.pos, line_end),
        is_line_end(place.src, line_end, next_line),
        is_blank_run(place.src, next_line, end),
        is_solid_at(place.src, end),
    ensures
        leads_to(
            at(place),
            nodes,
            at(Lexer { pos: end, ..place }),
            if place.pos < line_end || next_line < end || end < place.src.len() {
                spaced(nodes)
            } else {
                nodes
            },
            scope,
        ),
{
    let at_line_end = Lexer { pos: line_end, ..place };
    let at_next_line = Lexer { pos: next_line, ..place };
    let at_end = Lexer { pos: end, ..place };
    let led = if place.pos < line_end {
        spaced(nodes)
    } else {
        nodes
    };
    if place.pos < line_end {
        lemma_blanks(place, ParserState::Body, line_end, nodes, scope);
    }
    lemma_line_end(at_line_end, next_line);
    lemma_go(
        at(at_line_end),
        led,
        Leaf::Nothing,
        Cursor { lexer: at_next_line, state: ParserState::FirstNewline },
        scope,
    );
    let spread = if next_line < end {
        spaced(led)
    } else {
        led
    };
    if next_line < end {
        lemma_blanks(at_next_line, ParserState::FirstNewline, end, led, scope);
    }
    lemma_leave(at_end, ParserState::FirstNewline, spread, scope);
}

/// Two or more ends of lines, with spaces and tabs around them or without, are
/// parsed to one newline. There is a space in front of it if there is one in
/// front of the second end of a line, and a space behind it if there is any
/// whitespace behind that.
pub proof fn law_paragraph_break<P: ParseFunc>(
    place: Lexer,
    first_end: int,
    second_line: int,
    second_end: int,
    third_line: int,
    end: int,
    nodes: Seq<NodeModel<P::Function>>,
    scope: Scope<P>,
)
    requires
        is_text_place(place),
        is_blank_run(place.src, place.pos, first_end),
        is_line_end(place.src, first_end, second_line),
        is_blank_run(place.src, second_line, second_end),
        is_line_end(place.src, second_end, third_line),
        is_gap(place.src, third_line, end),
        is_solid_at(place.src, end),
    ensures
        ({
            let led = if place.pos < first_end || second_line < second_end {
                spaced(nodes)
            } else {
                nodes
            };
            leads_to(
                at(place),
                nodes,
                at(Lexer { pos: end, ..place }),
                if third_line < end {
                    led.push(NodeModel::Newline).push(NodeModel::Space)
                } else {
                    led.push(NodeModel::Newline)
                },
                scope,
            )
        }),
{
    let at_first_end = Lexer { pos: first_end, ..place };
    let at_second_line = Lexer { pos: second_line, ..place };
    let at_second_end = Lexer { pos: second_end, ..place };
    let at_third_line = Lexer { pos: third_line, ..place };
    let at_end = Lexer { pos: end, ..place };
    let led = if place.pos < first_end {
        spaced(nodes)
    } else {
        nodes
    };
    if place.pos < first_end {
        lemma_blanks(place, ParserState::Body, first_end, nodes, scope);
    }
    lemma_line_end(at_first_end, second_line);
    lemma_go(
        at(at_first_end),
        led,
        Leaf::Nothing,
        Cursor { lexer: at_second_line, state: ParserState::FirstNewline },
        scope,
    );
    let spread = if second_line < second_end {
        spaced(led)
    } else {
        led
    };
    if second_line < second_end {
        lemma_blanks(at_second_line, ParserState::FirstNewline, second_end, led, scope);
    }
    lemma_line_end(at_second_end, third_line);
    let broken = spread.push(NodeModel::Newline);
    lemma_go(
        Cursor { lexer: at_second_end, state: ParserState::FirstNewline },
        spread,
        Leaf::Newline,
        Cursor { lexer: at_third_line, state: ParserState::WroteNewline },
        scope,
    );
    let after = if third_line < end {
        broken.push(NodeModel::Space)
    } else {
        broken
    };
    if third_line < end {
        lemma_further_gap(at_third_line, end, broken, scope);
        assert(spaced(broken) == after);
    }
    lemma_leave(at_end, ParserState::WroteNewline, after, scope);
}

/// Wherever it is read, a text is parsed to a text, modifiers to modifiers, and
/// a closing bracket to an error. For colons and equals signs there is no rule.
pub proof fn law_token_nodes<P: ParseFunc>(
    place: Lexer,
    nodes: Seq<NodeModel<P::Function>>,
    scope: Scope<P>,
)
    requires
        token_laws::is_place(place),
    ensures
        place.step() matches Some((token, behind)) ==> match token {
            TokenModel::Text(word) => leads_to(
                at(place),
                nodes,
                at(behind),
                nodes.push(NodeModel::Text(word)),
                scope,
            ),
            TokenModel::DoubleUnderscore => leads_to(
                at(place),
                nodes,
                at(behind),
                nodes.push(NodeModel::ToggleItalics),
                scope,
            ),
            TokenModel::DoubleStar => leads_to(
                at(place),
                nodes,
                at(behind),
                nodes.push(NodeModel::ToggleBold),
                scope,
            ),
            TokenModel::Dollar => leads_to(
                at(place),
                nodes,
                at(behind),
                nodes.push(NodeModel::ToggleMath),
                scope,
            ),
            TokenModel::Space => leads_to(at(place), nodes, at(behind), spaced(nodes), scope),
            TokenModel::RightBracket => fails_with(
                at(place),
                nodes,
                "unexpected closing bracket"@,
                scope,
            ),
            TokenModel::Colon | TokenModel::Equals => {
                &&& !grammar::parsable(at(place), scope)
                &&& forall|result: Result<Seq<NodeModel<P::Function>>, Seq<char>>|
                    !#[trigger] grammar::parses_to(at(place), scope, nodes, result)
            },
            _ => true,
        },
{
    if let Some((token, behind)) = place.step() {
        match token {
            TokenModel::Text(word) => {
                lemma_go(at(place), nodes, Leaf::Text(word), at(behind), scope);
            },
            TokenModel::DoubleUnderscore => {
                lemma_go(at(place), nodes, Leaf::ToggleItalics, at(behind), scope);
            },
            TokenModel::DoubleStar => {
                lemma_go(at(place), nodes, Leaf::ToggleBold, at(behind), scope);
            },
            TokenModel::Dollar => {
                lemma_go(at(place), nodes, Leaf::ToggleMath, at(behind), scope);
            },
            TokenModel::Space => {
                lemma_go(at(place), nodes, Leaf::Space, at(behind), scope);
            },
            TokenModel::RightBracket => {
                lemma_fail(at(place), nodes, "unexpected closing bracket"@, scope);
            },
            _ => {},
        }
    }
}

/// The next line starts behind the next end of a line, or it is the end of the
/// source code. All the tokens up to there are read.
pub proof fn law_next_line(place: Lexer) -> (line_end: int)
    requires
        token_laws::is_place(place),
    ensures
        place.next_line().src == place.src,
        place.pos <= line_end <= place.src.len(),
        forall|i: int| place.pos <= i < line_end ==> !ends_line(#[trigger] place.src[i]),
        if line_end < place.src.len() {
            is_line_end(place.src, line_end, place.next_line().pos)
        } else {
            place.next_line().pos == place.src.len()
        },
        match place.step() {
            Some((TokenModel::Newline, behind)) => place.next_line() == behind,
            Some((_, behind)) => place.next_line() == behind.next_line(),
            None => place.next_line() == place,
        },
    decreases place.src.len() - place.pos,
{
    place.lemma_step_advances();
    if let Some((token, behind)) = place.step() {
        token_laws::law_kinds(place);
        token_laws::law_extents(place);
        if token is Newline {
            place.pos
        } else {
            token_laws::law_text(place);
            let line_end = law_next_line(behind);
            assert forall|i: int| place.pos <= i < line_end implies !ends_line(
                #[trigger] place.src[i],
            ) by {
                if i < behind.pos && token is Text && place.src[place.pos] != '\\' {
                    assert(token_laws::is_in_word(
                        place.src,
                        i,
                        token_laws::reading_state(place),
                    ));
                }
                if i < behind.pos && place.src[place.pos] == '\\' {
                    token_laws::law_escape(place);
                }
            }
            line_end
        }
    } else {
        place.pos
    }
}

/// A comment without brackets is parsed to nothing, up to the end of the line
/// and including it.
pub proof fn law_comment_line<P: ParseFunc>(
    place: Lexer,
    line_end: int,
    next_line: int,
    nodes: Seq<NodeModel<P::Function>>,
    scope: Scope<P>,
)
    requires
        is_text_place(place),
        place.pos < line_end <= place.src.len(),
        place.src[place.pos] == '#',
        forall|i: int|
            place.pos <= i < line_end ==> !ends_line(#[trigger] place.src[i]) && place.src[i] != '['
                && place.src[i] != ']',
        if line_end < place.src.len() {
            is_line_end(place.src, line_end, next_line)
        } else {
            next_line == place.src.len()
        },
    ensures
        leads_to(at(place), nodes, at(Lexer { pos: next_line, ..place }), nodes, scope),
{
    lemma_comment_line(place, line_end, next_line);
    lemma_go(at(place), nodes, Leaf::Nothing, at(place.next_line()), scope);
}

proof fn lemma_comment_line(place: Lexer, line_end: int, next_line: int)
    requires
        is_text_place(place),
        place.pos <= line_end <= place.src.len(),
        forall|i: int|
            place.pos <= i < line_end ==> !ends_line(#[trigger] place.src[i]) && place.src[i] != '['
                && place.src[i] != ']',
        if line_end < place.src.len() {
            is_line_end(place.src, line_end, next_line)
        } else {
            next_line == place.src.len()
        },
    ensures
        place.next_line() == (Lexer { pos: next_line, ..place }),
    decreases line_end - place.pos,
{
    let found = law_next_line(place);
    place.lemma_step_advances();
    token_laws::law_contexts(place);
    token_laws::law_extents(place);
    if let Some((token, behind)) = place.step() {
        token_laws::law_kinds(place);
        if place.pos < line_end {
            let c = place.src[place.pos];
            assert(!ends_line(c) && c != '[' && c != ']');
            assert(behind =~= Lexer { pos: behind.pos, ..place });
            if line_end < behind.pos {
                assert(ends_line(place.src[line_end]));
                token_laws::law_text(place);
                if token is Text && c != '\\' {
                    assert(token_laws::is_in_word(place.src, line_end, place.state));
                }
                if c == '\\' {
                    token_laws::law_escape(place);
                }
            }
            lemma_comment_line(behind, line_end, next_line);
        }
    }
}

/// What a word is a name of a function by: it starts with a letter, which beyond
/// ASCII is what has the property `XID_Start`, and goes on with letters, digits
/// and underscores, which beyond ASCII is what has the property `XID_Continue`.
/// The separators of lines are none of these.
pub proof fn law_identifier(word: Seq<char>)
    ensures
        ident::identifier(word) <==> {
            &&& word.len() > 0
            &&& ({
                let c = word[0];
                ||| 'a' <= c <= 'z'
                ||| 'A' <= c <= 'Z'
                ||| {
                    &&& c > '\u{7f}'
                    &&& ident::xid_start(c)
                    &&& c != '\u{0085}' && c != '\u{2028}' && c != '\u{2029}'
                }
            })
            &&& forall|i: int|
                0 < i < word.len() ==> ({
                    let c = #[trigger] word[i];
                    ||| 'a' <= c <= 'z'
                    ||| 'A' <= c <= 'Z'
                    ||| '0' <= c <= '9'
                    ||| c == '_'
                    ||| {
                        &&& c > '\u{7f}'
                        &&& ident::xid_continue(c)
                        &&& c != '\u{0085}' && c != '\u{2028}' && c != '\u{2029}'
                    }
                })
        },
{
    if word.len() > 0 && ident::identifier(word) {
        assert forall|i: int| 0 < i < word.len() implies ident::continues_identifier(
            #[trigger] word[i],
        ) by {}
    }
    if word.len() > 0 && ident::starts_identifier(word[0]) && !ident::identifier(word) {
        let i = choose|i: int| 1 <= i < word.len() && !ident::continues_identifier(
            #[trigger] word[i],
        );
        assert(0 < i < word.len() && !ident::continues_identifier(word[i]));
    }
}

/// Every character of an identifier belongs to a word in headers.
proof fn lemma_identifier_in_word(src: Seq<char>, start: int, end: int)
    requires
        0 <= start < end <= src.len(),
        ident::identifier(src.subrange(start, end)),
    ensures
        forall|i: int|
            start <= i < end ==> #[trigger] token_laws::is_in_word(src, i, TokensState::Function),
{
    let word = src.subrange(start, end);
    assert forall|i: int| start <= i < end implies #[trigger] token_laws::is_in_word(
        src,
        i,
        TokensState::Function,
    ) by {
        assert(src[i] == word[i - start]);
        if i == start {
            assert(ident::starts_identifier(word[0]));
        } else {
            assert(ident::continues_identifier(word[i - start]));
        }
    }
}

/// Whether a function is invoked at a place, by the word between its left bracket
/// and an index.
pub open spec fn is_named_at(place: Lexer, end: int) -> bool {
    &&& is_text_place(place)
    &&& place.pos + 1 < end <= place.src.len()
    &&& place.src[place.pos] == '['
    &&& forall|i: int|
        place.pos < i < end ==> #[trigger] token_laws::is_in_word(
            place.src,
            i,
            TokensState::Function,
        )
    &&& end < place.src.len() ==> !token_laws::is_in_word(place.src, end, TokensState::Function)
}

/// The name of the function that is invoked at a place.
pub open spec fn name_at(place: Lexer, end: int) -> Seq<char> {
    place.src.subrange(place.pos + 1, end)
}

/// The place behind the left bracket of a header.
spec fn inside(place: Lexer) -> Lexer {
    Lexer {
        pos: place.pos + 1,
        state: TokensState::Function,
        stack: place.stack.push(place.state),
        ..place
    }
}

/// The place behind the name in a header.
spec fn behind_name(place: Lexer, end: int) -> Lexer {
    Lexer { pos: end, ..inside(place) }
}

/// The place behind the header.
spec fn behind_header(place: Lexer, end: int) -> Lexer {
    Lexer { pos: end + 1, state: TokensState::MaybeBody, ..inside(place) }
}

proof fn lemma_name(place: Lexer, end: int)
    requires
        is_named_at(place, end),
    ensures
        place.step() == Some((TokenModel::LeftBracket, inside(place))),
        inside(place).valid(),
        inside(place).step() == Some(
            (TokenModel::Text(name_at(place, end)), behind_name(place, end)),
        ),
        end < place.src.len() && place.src[end] == ']' ==> behind_name(place, end).step() == Some(
            (TokenModel::RightBracket, behind_header(place, end)),
        ),
        end < place.src.len() && place.src[end] != ']' ==> !(behind_name(
            place,
            end,
        ).step() matches Some((TokenModel::RightBracket, _))),
        behind_header(place, end).unswitched() == (Lexer { pos: end + 1, ..place }),
{
    assert(token_laws::is_in_word(place.src, place.pos + 1, TokensState::Function));
    lemma_word_ends_at(place.src, place.pos + 2, end, TokensState::Function);
    assert(place.stack.push(place.state).drop_last() =~= place.stack);
}

/// A left bracket has to have a name behind it.
pub proof fn law_missing_name<P: ParseFunc>(
    place: Lexer,
    nodes: Seq<NodeModel<P::Function>>,
    scope: Scope<P>,
)
    requires
        is_text_place(place),
        place.pos < place.src.len(),
        place.src[place.pos] == '[',
        place.pos + 1 < place.src.len() ==> place.src[place.pos + 1] != '\\'
            && !token_laws::is_in_word(place.src, place.pos + 1, TokensState::Function),
    ensures
        fails_with(at(place), nodes, "expected identifier"@, scope),
{
    lemma_fail(at(place), nodes, "expected identifier"@, scope);
}

/// The name of a function has to be an identifier, in which nothing is escaped.
pub proof fn law_invalid_name<P: ParseFunc>(
    place: Lexer,
    end: int,
    nodes: Seq<NodeModel<P::Function>>,
    scope: Scope<P>,
)
    requires
        ({
            ||| is_named_at(place, end) && !ident::identifier(name_at(place, end))
            ||| {
                &&& is_text_place(place)
                &&& place.pos + 1 < place.src.len()
                &&& place.src[place.pos] == '['
                &&& place.src[place.pos + 1] == '\\'
            }
        }),
    ensures
        fails_with(at(place), nodes, "invalid identifier"@, scope),
{
    if is_named_at(place, end) && !ident::identifier(name_at(place, end)) {
        lemma_name(place, end);
    } else {
        assert(place.step() == Some((TokenModel::LeftBracket, inside(place))));
        token_laws::law_escape(inside(place));
        let word = (inside(place).step()->0).0->Text_0;
        assert(!ident::starts_identifier(word[0]));
    }
    lemma_fail(at(place), nodes, "invalid identifier"@, scope);
}

/// Behind the name of a function its header has to be closed.
pub proof fn law_open_header<P: ParseFunc>(
    place: Lexer,
    end: int,
    nodes: Seq<NodeModel<P::Function>>,
    scope: Scope<P>,
)
    requires
        is_named_at(place, end),
        ident::identifier(name_at(place, end)),
        end < place.src.len() ==> place.src[end] != ']',
    ensures
        fails_with(at(place), nodes, "expected closing bracket"@, scope),
{
    lemma_name(place, end);
    lemma_fail(at(place), nodes, "expected closing bracket"@, scope);
}

/// A function that is invoked has to be known, whatever stands behind its header.
pub proof fn law_unknown_function<P: ParseFunc>(
    place: Lexer,
    end: int,
    nodes: Seq<NodeModel<P::Function>>,
    scope: Scope<P>,
)
    requires
        is_named_at(place, end),
        ident::identifier(name_at(place, end)),
        end < place.src.len(),
        place.src[end] == ']',
        !scope@.dom().contains(name_at(place, end)),
    ensures
        fails_with(
            at(place),
            nodes,
            "unknown function: '"@ + name_at(place, end) + "'"@,
            scope,
        ),
{
    lemma_name(place, end);
    lemma_fail(at(place), nodes, "unknown function: '"@ + name_at(place, end) + "'"@, scope);
}

/// The body of a function has to be closed.
pub proof fn law_open_body<P: ParseFunc>(
    place: Lexer,
    end: int,
    nodes: Seq<NodeModel<P::Function>>,
    scope: Scope<P>,
)
    requires
        is_named_at(place, end),
        ident::identifier(name_at(place, end)),
        scope@.dom().contains(name_at(place, end)),
        end + 1 < place.src.len(),
        place.src[end] == ']',
        place.src[end + 1] == '[',
        brackets::closing_bracket(place.src.skip(end + 2)) is None,
    ensures
        fails_with(at(place), nodes, "expected closing bracket"@, scope),
{
    lemma_name(place, end);
    lemma_fail(at(place), nodes, "expected closing bracket"@, scope);
}

/// Whether parsing gives what it does with an invocation: what the parser of the
/// function returns for the name and the body becomes a node, or is the error,
/// and parsing goes on at another place.
pub open spec fn parses_call<P: ParseFunc>(
    from: Cursor,
    nodes: Seq<NodeModel<P::Function>>,
    name: Seq<char>,
    body: Option<Seq<char>>,
    to: Cursor,
    scope: Scope<P>,
) -> bool {
    let call = Call { name, body };
    &&& forall|result: Result<Seq<NodeModel<P::Function>>, Seq<char>>| #[trigger]
        grammar::parses_to(from, scope, nodes, result) <==> exists|
            returned: ParseResult<P::Function>,
        | #[trigger]
            grammar::may_return(scope, call, returned) && match returned {
                Ok(function) => grammar::parses_to(
                    to,
                    scope,
                    nodes.push(
                        NodeModel::Func(
                            HeaderModel { name, args: Seq::empty(), kwargs: Map::empty() },
                            function,
                        ),
                    ),
                    result,
                ),
                Err(error) => result == Err::<Seq<NodeModel<P::Function>>, Seq<char>>(error@),
            }
    &&& grammar::parsable(from, scope) <==> (exists|function: P::Function| #[trigger]
        grammar::may_return(scope, call, Ok(function))) ==> grammar::parsable(to, scope)
}

/// A function with a body is parsed to one node, and parsing goes on behind the
/// bracket that closes the body.
pub proof fn law_call_with_body<P: ParseFunc>(
    place: Lexer,
    end: int,
    len: int,
    nodes: Seq<NodeModel<P::Function>>,
    scope: Scope<P>,
)
    requires
        is_named_at(place, end),
        ident::identifier(name_at(place, end)),
        scope@.dom().contains(name_at(place, end)),
        end + 1 < place.src.len(),
        place.src[end] == ']',
        place.src[end + 1] == '[',
        brackets::closing_bracket(place.src.skip(end + 2)) == Some(len),
    ensures
        parses_call(
            at(place),
            nodes,
            name_at(place, end),
            Some(place.src.subrange(end + 2, end + 2 + len)),
            at(Lexer { pos: end + 3 + len, ..place }),
            scope,
        ),
{
    let name = name_at(place, end);
    let begin = end + 2;
    let to = Lexer { pos: end + 3 + len, ..place };
    lemma_name(place, end);
    brackets::lemma_found(place.src.skip(begin));
    assert(place.src[begin + len] == place.src.skip(begin)[len]);
    let in_body = Lexer { pos: begin, state: TokensState::Body, ..behind_header(place, end) };
    assert(behind_header(place, end).step() == Some((TokenModel::LeftBracket, in_body)));
    assert(place.stack.push(place.state).drop_last() =~= place.stack);
    assert(in_body.at(begin + len).step() == Some((TokenModel::RightBracket, to)));
    let call = Call { name, body: Some(place.src.subrange(begin, begin + len)) };
    lemma_invoke(at(place), nodes, call, at(to), scope);
}

/// A function without a body is parsed to one node, and parsing goes on directly
/// behind its header, whatever stands there.
pub proof fn law_call_without_body<P: ParseFunc>(
    place: Lexer,
    end: int,
    nodes: Seq<NodeModel<P::Function>>,
    scope: Scope<P>,
)
    requires
        is_named_at(place, end),
        ident::identifier(name_at(place, end)),
        scope@.dom().contains(name_at(place, end)),
        end < place.src.len(),
        place.src[end] == ']',
        end + 1 < place.src.len() ==> place.src[end + 1] != '[',
    ensures
        parses_call(
            at(place),
            nodes,
            name_at(place, end),
            None,
            at(Lexer { pos: end + 1, ..place }),
            scope,
        ),
{
    let name = name_at(place, end);
    let behind = behind_header(place, end);
    let to = Lexer { pos: end + 1, ..place };
    let call = Call { name, body: None };
    lemma_name(place, end);
    assert(behind.valid());
    if behind.pos < behind.src.len() {
        token_laws::law_kinds(behind);
    }
    lemma_invoke(at(place), nodes, call, at(behind), scope);
    assert forall|after: Seq<NodeModel<P::Function>>| #[trigger]
        leads_to(at(behind), after, at(to), after, scope) by {
        law_behind_header(behind, after, scope);
    }
    assert forall|result: Result<Seq<NodeModel<P::Function>>, Seq<char>>| #[trigger]
        grammar::parses_to(at(place), scope, nodes, result) <==> exists|
            returned: ParseResult<P::Function>,
        | #[trigger]
            grammar::may_return(scope, call, returned) && match returned {
                Ok(function) => grammar::parses_to(
                    at(to),
                    scope,
                    nodes.push(
                        NodeModel::Func(
                            HeaderModel { name, args: Seq::empty(), kwargs: Map::empty() },
                            function,
                        ),
                    ),
                    result,
                ),
                Err(error) => result == Err::<Seq<NodeModel<P::Function>>, Seq<char>>(error@),
            } by {
        assert forall|function: P::Function|
            grammar::parses_to(
                at(behind),
                scope,
                #[trigger] nodes.push(NodeModel::Func(HeaderModel::bare(name), function)),
                result,
            ) <==> grammar::parses_to(
                at(to),
                scope,
                nodes.push(NodeModel::Func(HeaderModel::bare(name), function)),
                result,
            ) by {
            let after = nodes.push(NodeModel::Func(HeaderModel::bare(name), function));
            assert(leads_to(at(behind), after, at(to), after, scope));
        }
    }
    assert(leads_to(at(behind), nodes, at(to), nodes, scope));
}

proof fn lemma_invoke<P: ParseFunc>(
    from: Cursor,
    nodes: Seq<NodeModel<P::Function>>,
    call: Call,
    to: Cursor,
    scope: Scope<P>,
)
    requires
        from.lexer.valid(),
        from.step(scope@.dom()) == Step::Invoke(call, to),
    ensures
        parses_call(from, nodes, call.name, call.body, to, scope),
{
    from.lemma_step_advances(scope@.dom());
    assert forall|result: Result<Seq<NodeModel<P::Function>>, Seq<char>>| #[trigger]
        grammar::parses_to(from, scope, nodes, result) <==> exists|
            returned: ParseResult<P::Function>,
        | #[trigger]
            grammar::may_return(scope, call, returned) && match returned {
                Ok(function) => grammar::parses_to(
                    to,
                    scope,
                    nodes.push(
                        NodeModel::Func(
                            HeaderModel {
                                name: call.name,
                                args: Seq::empty(),
                                kwargs: Map::empty(),
                            },
                            function,
                        ),
                    ),
                    result,
                ),
                Err(error) => result == Err::<Seq<NodeModel<P::Function>>, Seq<char>>(error@),
            } by {}
}

/// A place behind a header that no body follows, as a place in what surrounds
/// the function.
pub open spec fn surrounded(place: Lexer) -> Lexer {
    Lexer {
        state: token_laws::reading_state(place),
        stack: token_laws::reading_stack(place),
        ..place
    }
}

/// Behind a header that no body follows, parsing goes on as in what surrounds
/// the function.
pub proof fn law_behind_header<P: ParseFunc>(
    place: Lexer,
    nodes: Seq<NodeModel<P::Function>>,
    scope: Scope<P>,
)
    requires
        token_laws::is_place(place),
        place.state == TokensState::MaybeBody,
        place.pos < place.src.len() ==> place.src[place.pos] != '[',
    ensures
        leads_to(
            at(place),
            nodes,
            at(surrounded(place)),
            nodes,
            scope,
        ),
{
    let to = surrounded(place);
    let names = scope@.dom();
    assert(to.valid());
    assert(place.step() == to.step());
    if place.pos < place.src.len() {
        let a = law_next_line(place);
        let b = law_next_line(to);
        assert(at(place).step(names) == at(to).step(names));
    }
    assert forall|result: Result<Seq<NodeModel<P::Function>>, Seq<char>>| #[trigger]
        grammar::parses_to(at(place), scope, nodes, result) <==> grammar::parses_to(
            at(to),
            scope,
            nodes,
            result,
        ) by {}
}

/// Outside of all functions, parsing adds to the nodes in front what the rest of
/// the source code alone is parsed to, unless a space would be doubled.
pub proof fn law_rest_alone<P: ParseFunc>(
    place: Lexer,
    front: Seq<NodeModel<P::Function>>,
    scope: Scope<P>,
    result: Result<Seq<NodeModel<P::Function>>, Seq<char>>,
)
    requires
        is_text_place(place),
        place.state == TokensState::Body,
        place.stack.len() == 0,
        front.len() > 0 && front.last() is Space ==> place.pos < place.src.len() && is_solid_at(
            place.src,
            place.pos,
        ) && place.src[place.pos] != '#',
    ensures
        grammar::parses_to(at(place), scope, front, result) <==> part_laws::parses_behind(
            front,
            place.src.skip(place.pos),
            scope,
            result,
        ),
        grammar::parsable(at(place), scope) <==> grammar::parsable(
            at(Lexer::start(place.src.skip(place.pos))),
            scope,
        ),
{
    let rest = place.src.skip(place.pos);
    let start = Cursor::start(rest);
    let none = Seq::<NodeModel<P::Function>>::empty();
    assert(place.stack =~= Seq::<TokensState>::empty());
    assert(front + none =~= front);
    if place.pos < place.src.len() {
        assert(rest[0] == place.src[place.pos]);
        token_laws::law_kinds(start.lexer);
    }
    part_laws::lemma_rest_parsable(at(place), start, place.pos, scope);
    if part_laws::parses_behind(front, rest, scope, result) {
        let behind = choose|behind: Result<Seq<NodeModel<P::Function>>, Seq<char>>| #[trigger]
            tree_laws::source_parses_to(rest, scope, behind) && result == part_laws::prepended(
                front,
                behind,
            );
        part_laws::lemma_rest_parses(at(place), start, place.pos, scope, front, none, behind);
    }
    if grammar::parses_to(at(place), scope, front, result) {
        let len = front.len() as int;
        let behind: Result<Seq<NodeModel<P::Function>>, Seq<char>> = match result {
            Ok(tree) => Ok(tree.skip(len)),
            Err(message) => Err(message),
        };
        if let Ok(tree) = result {
            tree_laws::lemma_nodes_stay(at(place), scope, front, tree);
            assert(tree =~= front + tree.skip(len));
        }
        assert(result == part_laws::prepended(front, behind));
        part_laws::lemma_rest_parses(at(place), start, place.pos, scope, front, none, behind);
        assert(tree_laws::source_parses_to(rest, scope, behind));
    }
}

/// The source code that invokes a function without a body, and more behind it.
pub open spec fn called(name: Seq<char>, rest: Seq<char>) -> Seq<char> {
    seq!['['] + name + seq![']'] + rest
}

/// A function without a body in front of some source code adds one node in front
/// of the tree that this source code is parsed to, whatever it starts with other
/// than a left bracket. An error of the source code is handed on, and so is one
/// of the function.
pub proof fn law_bodyless_in_front<P: ParseFunc>(
    name: Seq<char>,
    rest: Seq<char>,
    scope: Scope<P>,
    result: Result<Seq<NodeModel<P::Function>>, Seq<char>>,
)
    requires
        ident::identifier(name),
        scope@.dom().contains(name),
        rest.len() > 0 ==> rest[0] != '[',
    ensures
        grammar::parsable(Cursor::start(called(name, rest)), scope) <==> (grammar::may_succeed(
            scope,
            Call { name, body: None },
        ) ==> grammar::parsable(Cursor::start(rest), scope)),
        tree_laws::source_parses_to(called(name, rest), scope, result) <==> exists|
            returned: ParseResult<P::Function>,
        | #[trigger]
            grammar::may_return(scope, Call { name, body: None }, returned)
                && part_laws::parses_behind_function(name, returned, rest, scope, result),
{
    let src = called(name, rest);
    let place = Lexer::start(src);
    let none = Seq::<NodeModel<P::Function>>::empty();
    let end = 1 + name.len() as int;
    let to = Lexer { pos: end + 1, ..place };
    let call = Call { name, body: None };
    assert(src.subrange(1, end) =~= name);
    lemma_identifier_in_word(src, 1, end);
    assert(src[0] == '[' && src[end] == ']');
    assert(rest.len() > 0 ==> src[end + 1] == rest[0]);
    assert(is_named_at(place, end));
    law_call_without_body(place, end, none, scope);
    assert(src.skip(end + 1) =~= rest);
    assert forall|function: P::Function, r: Result<Seq<NodeModel<P::Function>>, Seq<char>>|
        #[trigger] grammar::parses_to(
            at(to),
            scope,
            none.push(NodeModel::Func(HeaderModel::bare(name), function)),
            r,
        ) <==> part_laws::parses_behind(
            seq![NodeModel::Func(HeaderModel::bare(name), function)],
            rest,
            scope,
            r,
        ) by {
        let front = none.push(NodeModel::Func(HeaderModel::bare(name), function));
        assert(front =~= seq![NodeModel::Func(HeaderModel::bare(name), function)]);
        law_rest_alone(to, front, scope, r);
    }
    law_rest_alone(to, none, scope, result);
    assert(tree_laws::source_parses_to(src, scope, result) == grammar::parses_to(
        at(place),
        scope,
        none,
        result,
    ));
    if tree_laws::source_parses_to(src, scope, result) {
        let returned = choose|returned: ParseResult<P::Function>| #[trigger]
            grammar::may_return(scope, call, returned) && match returned {
                Ok(function) => grammar::parses_to(
                    at(to),
                    scope,
                    none.push(NodeModel::Func(HeaderModel::bare(name), function)),
                    result,
                ),
                Err(error) => result == Err::<Seq<NodeModel<P::Function>>, Seq<char>>(error@),
            };
        assert(part_laws::parses_behind_function(name, returned, rest, scope, result));
    }
    if exists|returned: ParseResult<P::Function>| #[trigger]
        grammar::may_return(scope, call, returned) && part_laws::parses_behind_function(
            name,
            returned,
            rest,
            scope,
            result,
        ) {
        let returned = choose|returned: ParseResult<P::Function>| #[trigger]
            grammar::may_return(scope, call, returned) && part_laws::parses_behind_function(
                name,
                returned,
                rest,
                scope,
                result,
            );
        if let Ok(function) = returned {
            assert(grammar::parses_to(
                at(to),
                scope,
                none.push(NodeModel::Func(HeaderModel::bare(name), function)),
                result,
            ));
        }
    }
}

/// Every word of ASCII letters, digits and underscores that starts with a letter
/// is the name of a function. If it is known, invoking it is no error of the
/// parser: the result is what the parser of the function returns.
pub proof fn law_simple_name<P: ParseFunc>(
    name: Seq<char>,
    scope: Scope<P>,
    result: Result<Seq<NodeModel<P::Function>>, Seq<char>>,
)
    requires
        name.len() > 0,
        'a' <= name[0] <= 'z' || 'A' <= name[0] <= 'Z',
        forall|i: int|
            0 <= i < name.len() ==> {
                ||| 'a' <= #[trigger] name[i] <= 'z'
                ||| 'A' <= name[i] <= 'Z'
                ||| '0' <= name[i] <= '9'
                ||| name[i] == '_'
            },
        scope@.dom().contains(name),
    ensures
        ident::identifier(name),
        grammar::parsable(Cursor::start(seq!['['] + name + seq![']']), scope),
        tree_laws::source_parses_to(seq!['['] + name + seq![']'], scope, result) <==> exists|
            returned: ParseResult<P::Function>,
        | #[trigger]
            grammar::may_return(scope, Call { name, body: None }, returned) && match returned {
                Ok(function) => result == Ok::<Seq<NodeModel<P::Function>>, Seq<char>>(
                    seq![
                        NodeModel::Func(
                            HeaderModel { name, args: Seq::empty(), kwargs: Map::empty() },
                            function,
                        ),
                    ],
                ),
                Err(error) => result == Err::<Seq<NodeModel<P::Function>>, Seq<char>>(error@),
            },
{
    let rest = Seq::<char>::empty();
    let none = Seq::<NodeModel<P::Function>>::empty();
    law_identifier(name);
    assert(called(name, rest) =~= seq!['['] + name + seq![']']);
    law_bodyless_in_front(name, rest, scope, result);
    assert forall|front: Seq<NodeModel<P::Function>>| #[trigger]
        part_laws::parses_behind(front, rest, scope, result) <==> result == Ok::<
            Seq<NodeModel<P::Function>>,
            Seq<char>,
        >(front) by {
        assert(front + none =~= front);
        assert(tree_laws::source_parses_to(rest, scope, Ok(none)));
    }
    assert forall|returned: ParseResult<P::Function>| #[trigger]
        part_laws::parses_behind_function(name, returned, rest, scope, result) == match returned {
            Ok(function) => result == Ok::<Seq<NodeModel<P::Function>>, Seq<char>>(
                seq![
                    NodeModel::Func(
                        HeaderModel { name, args: Seq::empty(), kwargs: Map::empty() },
                        function,
                    ),
                ],
            ),
            Err(error) => result == Err::<Seq<NodeModel<P::Function>>, Seq<char>>(error@),
        } by {}
}

/// What the parser of a function is handed: the name, no arguments, the body if
/// there is one, and the scope, which has the parser for the name.
pub proof fn law_invocation<P: ParseFunc>(
    scope: Scope<P>,
    name: Seq<char>,
    body: Option<Seq<char>>,
    returned: ParseResult<P::Function>,
)
    ensures
        grammar::may_return(scope, Call { name, body }, returned) <==> exists|
            context: FuncContext<P>,
        | #[trigger]
            call_ensures(P::parse, (&scope@[name], context), returned) && {
                &&& context.header.name@ == name
                &&& context.header.args@.len() == 0
                &&& context.header.kwargs@ == Map::<String, Expression>::empty()
                &&& *context.scope == scope
                &&& context.body is Some == body is Some
                &&& body matches Some(body) ==> context.body->0@ == body
            },
{
    let call = Call { name, body };
    assert forall|context: FuncContext<P>|
        context.header.args@.len() == 0 implies #[trigger] context.header.args@ =~= Seq::empty() by {}
    if exists|context: FuncContext<P>| #[trigger]
        call_ensures(P::parse, (&scope@[name], context), returned) && {
            &&& context.header.name@ == name
            &&& context.header.args@.len() == 0
            &&& context.header.kwargs@ == Map::<String, Expression>::empty()
            &&& *context.scope == scope
            &&& context.body is Some == body is Some
            &&& body matches Some(body) ==> context.body->0@ == body
        } {
        let context = choose|context: FuncContext<P>| #[trigger]
            call_ensures(P::parse, (&scope@[name], context), returned) && {
                &&& context.header.name@ == name
                &&& context.header.args@.len() == 0
                &&& context.header.kwargs@ == Map::<String, Expression>::empty()
                &&& *context.scope == scope
                &&& context.body is Some == body is Some
                &&& body matches Some(body) ==> context.body->0@ == body
            };
        assert(grammar::is_context(context, scope, call));
    }
}

/// The model of a tree is its nodes in order, with the characters of the texts
/// and the headers and functions of the calls.
pub proof fn law_tree_model<F>(tree: SyntaxTree<F>, i: int)
    requires
        0 <= i < tree.nodes@.len(),
    ensures
        tree@.len() == tree.nodes@.len(),
        match tree.nodes@[i] {
            Node::Space => tree@[i] is Space,
            Node::Newline => tree@[i] is Newline,
            Node::ToggleItalics => tree@[i] is ToggleItalics,
            Node::ToggleBold => tree@[i] is ToggleBold,
            Node::ToggleMath => tree@[i] is ToggleMath,
            Node::Text(word) => tree@[i] == NodeModel::<F>::Text(word@),
            Node::Func(call) => tree@[i] matches NodeModel::Func(header, body) && {
                &&& header.name == call.header.name@
                &&& header.args == call.header.args@
                &&& header.kwargs == call.header.kwargs@
                &&& body == call.body
            },
        },
{
}

/// A tree without nodes has an empty model.
pub proof fn law_empty_tree_model<F>(tree: SyntaxTree<F>)
    ensures
        tree@.len() == tree.nodes@.len(),
{
}

/// The model of a result is that of the tree, or the message of the error.
pub proof fn law_result_model<F>(result: ParseResult<SyntaxTree<F>>)
    ensures
        match result {
            Ok(tree) => grammar::result_model(result) == Ok::<Seq<NodeModel<F>>, Seq<char>>(tree@),
            Err(error) => grammar::result_model(result) == Err::<Seq<NodeModel<F>>, Seq<char>>(
                error.message()@,
            ),
        },
{
}

/// A function that is called by its name has no arguments.
pub proof fn law_bare_header(name: Seq<char>)
    ensures
        HeaderModel::bare(name).name == name,
        HeaderModel::bare(name).args.len() == 0,
        HeaderModel::bare(name).kwargs == Map::<String, Expression>::empty(),
{
}

/// What the parser says of a function that is not known holds its name.
pub proof fn law_unknown_function_message(name: Seq<char>)
    ensures
        error::unknown_function_message(name) == "unknown function: '"@ + name + "'"@,
{
}

} // verus!
