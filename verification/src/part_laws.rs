//! What holds of source code that is put together from parts.

use vstd::prelude::*;

use crate::brackets;
use crate::error::ParseResult;
use crate::func::{ParseFunc, Scope};
use crate::grammar;
use crate::grammar::{Call, Cursor, Leaf, ParserState, Step};
use crate::ident;
use crate::lexer;
use crate::lexer::{Lexer, TokensState};
use crate::syntax::{HeaderModel, NodeModel, TokenModel};
use crate::tree_laws;

verus! {

/// Whether a place is one in a rest of its source code that starts at an index,
/// with the same surroundings.
pub open spec fn is_in_rest(place: Lexer, in_rest: Lexer, start: int) -> bool {
    &&& 0 <= start <= place.src.len()
    &&& in_rest.src == place.src.skip(start)
    &&& place.pos == start + in_rest.pos
    &&& place.state == in_rest.state
    &&& place.stack == in_rest.stack
}

/// Words and whitespace end at the same place in a rest of the text.
proof fn lemma_rest_ends(src: Seq<char>, start: int, i: int, state: TokensState)
    requires
        0 <= start <= src.len(),
        0 <= i <= src.len() - start,
    ensures
        lexer::word_end(src, start + i, state) == start + lexer::word_end(
            src.skip(start),
            i,
            state,
        ),
        lexer::blank_end(src, start + i) == start + lexer::blank_end(src.skip(start), i),
    decreases src.len() - start - i,
{
    if i < src.len() - start {
        lemma_rest_ends(src, start, i + 1, state);
        assert(src.skip(start)[i] == src[start + i]);
        assert(i + 1 < src.len() - start ==> src.skip(start)[i + 1] == src[start + i + 1]);
    }
}

/// The tokens of a rest of the text are those of the text from there on.
proof fn lemma_rest_step(place: Lexer, in_rest: Lexer, start: int)
    requires
        in_rest.valid(),
        is_in_rest(place, in_rest, start),
    ensures
        match in_rest.step() {
            Some((token, next_in_rest)) => {
                &&& place.step() matches Some((same, next))
                &&& same == token
                &&& is_in_rest(next, next_in_rest, start)
            },
            None => place.step() is None,
        },
{
    let i = in_rest.pos;
    if i < in_rest.src.len() {
        let state = if place.state == TokensState::MaybeBody {
            place.unswitched().state
        } else {
            place.state
        };
        lemma_rest_ends(place.src, start, i + 1, state);
        lexer::lemma_ends(in_rest.src, i + 1, state);
        let end = lexer::word_end(in_rest.src, i + 1, state);
        assert(place.src.subrange(start + i, start + end) =~= in_rest.src.subrange(i, end));
        assert(in_rest.src[i] == place.src[start + i]);
        assert(i + 1 < in_rest.src.len() ==> in_rest.src[i + 1] == place.src[start + i + 1]);
    }
}

proof fn lemma_rest_skipped(
    place: Lexer,
    in_rest: Lexer,
    start: int,
    condition: spec_fn(TokenModel) -> bool,
)
    requires
        place.valid(),
        in_rest.valid(),
        is_in_rest(place, in_rest, start),
    ensures
        is_in_rest(place.skipped(condition), in_rest.skipped(condition), start),
    decreases in_rest.src.len() - in_rest.pos,
{
    lemma_rest_step(place, in_rest, start);
    place.lemma_step_advances();
    in_rest.lemma_step_advances();
    if let Some((token, next_in_rest)) = in_rest.step() {
        if condition(token) {
            lemma_rest_skipped((place.step()->0).1, next_in_rest, start, condition);
        }
    }
}

proof fn lemma_rest_next_line(place: Lexer, in_rest: Lexer, start: int)
    requires
        place.valid(),
        in_rest.valid(),
        is_in_rest(place, in_rest, start),
    ensures
        is_in_rest(place.next_line(), in_rest.next_line(), start),
{
    let condition = |token: TokenModel| !(token is Newline);
    lemma_rest_skipped(place, in_rest, start, condition);
    in_rest.lemma_skipped(condition);
    lemma_rest_step(place.skipped(condition), in_rest.skipped(condition), start);
}

/// Whether two steps of the parser are the same, but for the front of the text
/// that is missing in the rest.
spec fn is_step_in_rest(step: Step, in_rest: Step, start: int) -> bool {
    match in_rest {
        Step::Go(leaf, next_in_rest) => {
            &&& step matches Step::Go(same, next)
            &&& same == leaf
            &&& is_in_rest(next.lexer, next_in_rest.lexer, start)
            &&& next.state == next_in_rest.state
        },
        Step::Invoke(call, next_in_rest) => {
            &&& step matches Step::Invoke(same, next)
            &&& same == call
            &&& is_in_rest(next.lexer, next_in_rest.lexer, start)
            &&& next.state == next_in_rest.state
        },
        _ => step == in_rest,
    }
}

proof fn lemma_rest_invocation(place: Lexer, in_rest: Lexer, start: int, name: Seq<char>)
    requires
        place.valid(),
        in_rest.valid(),
        is_in_rest(place, in_rest, start),
    ensures
        is_step_in_rest(place.invocation(name), in_rest.invocation(name), start),
{
    lemma_rest_step(place, in_rest, start);
    in_rest.lemma_step_advances();
    in_rest.lemma_invocation(name);
    if let Some((TokenModel::LeftBracket, inside)) = in_rest.step() {
        let begin = start + inside.pos;
        assert(place.src.skip(begin) =~= in_rest.src.skip(inside.pos));
        if let Some(len) = brackets::closing_bracket(place.src.skip(begin)) {
            brackets::lemma_found(place.src.skip(begin));
            assert(place.src.subrange(begin, begin + len) =~= in_rest.src.subrange(
                inside.pos,
                inside.pos + len,
            ));
            let inside_place = (place.step()->0).1;
            lemma_rest_step(inside_place.at(begin + len), inside.at(inside.pos + len), start);
        }
    }
}

/// The parser does the same in a rest of the text as in the text.
proof fn lemma_rest_cursor(
    cursor: Cursor,
    in_rest: Cursor,
    start: int,
    names: Set<Seq<char>>,
)
    requires
        cursor.lexer.valid(),
        in_rest.lexer.valid(),
        is_in_rest(cursor.lexer, in_rest.lexer, start),
        cursor.state == in_rest.state,
    ensures
        is_step_in_rest(cursor.step(names), in_rest.step(names), start),
{
    lemma_rest_step(cursor.lexer, in_rest.lexer, start);
    lemma_rest_next_line(cursor.lexer, in_rest.lexer, start);
    cursor.lexer.lemma_step_advances();
    in_rest.lexer.lemma_step_advances();
    if let Some((TokenModel::LeftBracket, inside)) = in_rest.lexer.step() {
        let inside_place = (cursor.lexer.step()->0).1;
        lemma_rest_step(inside_place, inside, start);
        inside.lemma_step_advances();
        inside_place.lemma_step_advances();
        if let Some((TokenModel::Text(word), behind_name)) = inside.step() {
            let behind_name_place = (inside_place.step()->0).1;
            lemma_rest_step(behind_name_place, behind_name, start);
            behind_name.lemma_step_advances();
            behind_name_place.lemma_step_advances();
            if let Some((TokenModel::RightBracket, behind_header)) = behind_name.step() {
                lemma_rest_invocation(
                    (behind_name_place.step()->0).1,
                    behind_header,
                    start,
                    word,
                );
            }
        }
    }
}

pub proof fn lemma_rest_parsable<P: ParseFunc>(
    cursor: Cursor,
    in_rest: Cursor,
    start: int,
    scope: Scope<P>,
)
    requires
        cursor.lexer.valid(),
        in_rest.lexer.valid(),
        is_in_rest(cursor.lexer, in_rest.lexer, start),
        cursor.state == in_rest.state,
    ensures
        grammar::parsable(cursor, scope) == grammar::parsable(in_rest, scope),
    decreases in_rest.lexer.src.len() - in_rest.lexer.pos, in_rest.rank(),
{
    let names = scope@.dom();
    lemma_rest_cursor(cursor, in_rest, start, names);
    cursor.lemma_step_advances(names);
    in_rest.lemma_step_advances(names);
    match in_rest.step(names) {
        Step::Go(_, next) => {
            lemma_rest_parsable(cursor.step(names)->Go_1, next, start, scope);
        },
        Step::Invoke(_, next) => {
            lemma_rest_parsable(cursor.step(names)->Invoke_1, next, start, scope);
        },
        _ => {},
    }
}

/// A result with nodes in front of the tree, if it is one.
pub open spec fn prepended<F>(
    front: Seq<NodeModel<F>>,
    result: Result<Seq<NodeModel<F>>, Seq<char>>,
) -> Result<Seq<NodeModel<F>>, Seq<char>> {
    match result {
        Ok(tree) => Ok(front + tree),
        Err(message) => Err(message),
    }
}

/// Whether nodes that are parsed to from a place on stay the same with the
/// front before them: a space is not left out because the front ends with one.
pub open spec fn is_apart<F>(front: Seq<NodeModel<F>>, nodes: Seq<NodeModel<F>>, cursor: Cursor) -> bool {
    ||| front.len() == 0
    ||| !(front.last() is Space)
    ||| nodes.len() > 0
    ||| cursor.state == ParserState::Body && (cursor.lexer.step() matches Some((token, _))
        && tree_laws::is_solid_token(token))
}

/// Parsing a rest of the text gives what parsing the text from there on adds to
/// the nodes in front.
pub proof fn lemma_rest_parses<P: ParseFunc>(
    cursor: Cursor,
    in_rest: Cursor,
    start: int,
    scope: Scope<P>,
    front: Seq<NodeModel<P::Function>>,
    nodes: Seq<NodeModel<P::Function>>,
    result: Result<Seq<NodeModel<P::Function>>, Seq<char>>,
)
    requires
        cursor.lexer.valid(),
        in_rest.lexer.valid(),
        is_in_rest(cursor.lexer, in_rest.lexer, start),
        cursor.state == in_rest.state,
        is_apart(front, nodes, in_rest),
    ensures
        grammar::parses_to(in_rest, scope, nodes, result) <==> grammar::parses_to(
            cursor,
            scope,
            front + nodes,
            prepended(front, result),
        ),
    decreases in_rest.lexer.src.len() - in_rest.lexer.pos, in_rest.rank(),
{
    let names = scope@.dom();
    lemma_rest_cursor(cursor, in_rest, start, names);
    cursor.lemma_step_advances(names);
    in_rest.lemma_step_advances(names);
    let longer = prepended(front, result);
    match in_rest.step(names) {
        Step::End => {
            if let Ok(tree) = result {
                if front + tree == front + nodes {
                    assert(tree =~= (front + tree).skip(front.len() as int));
                    assert(nodes =~= (front + nodes).skip(front.len() as int));
                }
            }
        },
        Step::Go(leaf, next) => {
            let after = grammar::appended(nodes, leaf);
            assert(grammar::appended(front + nodes, leaf) =~= front + after);
            lemma_rest_parses(cursor.step(names)->Go_1, next, start, scope, front, after, result);
        },
        Step::Invoke(call, next) => {
            let next_place = cursor.step(names)->Invoke_1;
            if grammar::parses_to(in_rest, scope, nodes, result) {
                let returned = tree_laws::lemma_returned(in_rest, scope, nodes, result);
                if let Ok(body) = returned {
                    let node = NodeModel::Func(HeaderModel::bare(call.name), body);
                    assert((front + nodes).push(node) =~= front + nodes.push(node));
                    lemma_rest_parses(
                        next_place,
                        next,
                        start,
                        scope,
                        front,
                        nodes.push(node),
                        result,
                    );
                }
            }
            if grammar::parses_to(cursor, scope, front + nodes, longer) {
                let returned = tree_laws::lemma_returned(cursor, scope, front + nodes, longer);
                if let Ok(body) = returned {
                    let node = NodeModel::Func(HeaderModel::bare(call.name), body);
                    assert((front + nodes).push(node) =~= front + nodes.push(node));
                    lemma_rest_parses(
                        next_place,
                        next,
                        start,
                        scope,
                        front,
                        nodes.push(node),
                        result,
                    );
                }
            }
        },
        _ => {},
    }
}

/// The source code that invokes a function with a body, and more behind it.
pub open spec fn invoked(name: Seq<char>, body: Seq<char>, rest: Seq<char>) -> Seq<char> {
    seq!['['] + name + seq![']', '['] + body + seq![']'] + rest
}

/// A closing bracket is also found if the text goes on.
pub proof fn lemma_closing_bracket_stays(chars: Seq<char>, more: Seq<char>)
    requires
        brackets::closing_bracket(chars) is Some,
    ensures
        brackets::closing_bracket(chars + more) == brackets::closing_bracket(chars),
{
    let i = brackets::closing_bracket(chars)->0;
    assert(brackets::is_closing_bracket(chars, i));
    assert((chars + more).take(i + 1) =~= chars.take(i + 1));
    assert forall|j: int| 0 <= j <= i implies brackets::depth(#[trigger] (chars + more).take(j))
        >= 0 by {
        assert((chars + more).take(j) =~= chars.take(j));
    }
    brackets::lemma_closing_bracket(chars + more, i);
}

/// Words in headers go on over all that can be in an identifier.
proof fn lemma_identifier_end(src: Seq<char>, i: int, end: int)
    requires
        1 <= i <= end < src.len(),
        src[end] == ']',
        forall|k: int| i <= k < end ==> ident::continues_identifier(#[trigger] src[k]),
    ensures
        lexer::word_end(src, i, TokensState::Function) == end,
    decreases end - i,
{
    if i < end {
        assert(ident::continues_identifier(src[i]));
        assert(!lexer::ends_word(src, i, TokensState::Function));
        lemma_identifier_end(src, i + 1, end);
    }
}

/// What the parser does with an invocation at the start of the source code.
proof fn lemma_invoked(
    name: Seq<char>,
    body: Seq<char>,
    rest: Seq<char>,
    names: Set<Seq<char>>,
) -> (next: Cursor)
    requires
        ident::identifier(name),
        names.contains(name),
        brackets::closing_bracket(body.push(']')) == Some(body.len() as int),
    ensures
        Cursor::start(invoked(name, body, rest)).step(names) == Step::Invoke(
            Call { name, body: Some(body) },
            next,
        ),
        next.state == ParserState::Body,
        is_in_rest(next.lexer, Lexer::start(rest), 4 + name.len() as int + body.len()),
        next.lexer.valid(),
{
    let src = invoked(name, body, rest);
    let start = Cursor::start(src);
    let header_end = 1 + name.len() as int;
    let begin = header_end + 2;
    let end = begin + body.len();
    start.lemma_step_advances(names);

    // The left bracket.
    let inside = (start.lexer.step()->0).1;
    assert(start.lexer.step() == Some((TokenModel::LeftBracket, inside)));
    assert(inside.stack =~= seq![TokensState::Body]);

    // The name.
    assert(src.subrange(1, header_end) =~= name);
    assert forall|k: int| 2 <= k < header_end implies ident::continues_identifier(
        #[trigger] src[k],
    ) by {
        assert(src[k] == name[k - 1]);
    }
    assert(src[1] == name[0]);
    assert(src[header_end] == ']');
    assert(!lexer::ends_word(src, 1, TokensState::Function));
    lemma_identifier_end(src, 2, header_end);
    let behind_name = inside.at(header_end);
    assert(inside.step() == Some((TokenModel::Text(name), behind_name)));

    // The end of the header.
    let behind_header = behind_name.at(header_end + 1).within(TokensState::MaybeBody);
    assert(behind_name.step() == Some((TokenModel::RightBracket, behind_header)));

    // The body.
    assert(src[header_end + 1] == '[');
    let in_body = behind_header.at(begin).within(TokensState::Body);
    assert(behind_header.step() == Some((TokenModel::LeftBracket, in_body)));
    assert(src.skip(begin) =~= body.push(']') + rest);
    lemma_closing_bracket_stays(body.push(']'), rest);
    assert(src.subrange(begin, end) =~= body);
    assert(src[end] == ']');
    let next = Cursor { lexer: Lexer::start(src).at(end + 1), state: ParserState::Body };
    assert(seq![TokensState::Body].drop_last() =~= Seq::<TokensState>::empty());
    assert(in_body.at(end).step() == Some((TokenModel::RightBracket, next.lexer)));
    assert(src.skip(end + 1) =~= rest);
    next
}

/// Whether a result is that of a source code with nodes in front of the tree.
pub open spec fn parses_behind<P: ParseFunc>(
    front: Seq<NodeModel<P::Function>>,
    src: Seq<char>,
    scope: Scope<P>,
    result: Result<Seq<NodeModel<P::Function>>, Seq<char>>,
) -> bool {
    exists|behind: Result<Seq<NodeModel<P::Function>>, Seq<char>>| #[trigger]
        tree_laws::source_parses_to(src, scope, behind) && result == prepended(front, behind)
}

/// Whether a result is that of some source code behind a function, by what the
/// parser of the function returned.
pub open spec fn parses_behind_function<P: ParseFunc>(
    name: Seq<char>,
    returned: ParseResult<P::Function>,
    rest: Seq<char>,
    scope: Scope<P>,
    result: Result<Seq<NodeModel<P::Function>>, Seq<char>>,
) -> bool {
    match returned {
        Ok(function) => parses_behind(
            seq![NodeModel::Func(HeaderModel::bare(name), function)],
            rest,
            scope,
            result,
        ),
        Err(error) => result == Err::<Seq<NodeModel<P::Function>>, Seq<char>>(error@),
    }
}

/// A function with a body in front of some source code adds one node in front
/// of the tree that this source code is parsed to. An error of the source code
/// is handed on, and so is one of the function.
pub proof fn law_function_in_front<P: ParseFunc>(
    name: Seq<char>,
    body: Seq<char>,
    rest: Seq<char>,
    scope: Scope<P>,
    result: Result<Seq<NodeModel<P::Function>>, Seq<char>>,
)
    requires
        ident::identifier(name),
        scope@.dom().contains(name),
        brackets::closing_bracket(body.push(']')) == Some(body.len() as int),
    ensures
        grammar::parsable(Cursor::start(invoked(name, body, rest)), scope) <==> (
        grammar::may_succeed(scope, Call { name, body: Some(body) }) ==> grammar::parsable(
            Cursor::start(rest),
            scope,
        )),
        tree_laws::source_parses_to(invoked(name, body, rest), scope, result) <==> exists|
            returned: ParseResult<P::Function>,
        | #[trigger]
            grammar::may_return(scope, Call { name, body: Some(body) }, returned)
                && parses_behind_function(name, returned, rest, scope, result),
{
    let names = scope@.dom();
    let src = invoked(name, body, rest);
    let call = Call { name, body: Some(body) };
    let start = Cursor::start(src);
    let next = lemma_invoked(name, body, rest, names);
    let len = 4 + name.len() as int + body.len();
    lemma_rest_parsable(next, Cursor::start(rest), len, scope);
    if tree_laws::source_parses_to(src, scope, result) {
        let returned = tree_laws::lemma_returned(start, scope, Seq::empty(), result);
        if let Ok(function) = returned {
            let node = NodeModel::Func(HeaderModel::bare(name), function);
            lemma_behind(next, len, rest, scope, node, result);
        }
    }
    if exists|returned: ParseResult<P::Function>| #[trigger]
        grammar::may_return(scope, call, returned) && parses_behind_function(
            name,
            returned,
            rest,
            scope,
            result,
        ) {
        let returned = choose|returned: ParseResult<P::Function>| #[trigger]
            grammar::may_return(scope, call, returned) && parses_behind_function(
                name,
                returned,
                rest,
                scope,
                result,
            );
        if let Ok(function) = returned {
            let node = NodeModel::Func(HeaderModel::bare(name), function);
            lemma_behind(next, len, rest, scope, node, result);
        }
    }
}

/// Behind a function parsing goes on as in the rest of the source code alone.
proof fn lemma_behind<P: ParseFunc>(
    next: Cursor,
    start: int,
    rest: Seq<char>,
    scope: Scope<P>,
    node: NodeModel<P::Function>,
    result: Result<Seq<NodeModel<P::Function>>, Seq<char>>,
)
    requires
        next.lexer.valid(),
        next.state == ParserState::Body,
        is_in_rest(next.lexer, Lexer::start(rest), start),
        !(node is Space),
    ensures
        grammar::parses_to(next, scope, Seq::empty().push(node), result) <==> parses_behind(
            seq![node],
            rest,
            scope,
            result,
        ),
{
    let front = seq![node];
    let none = Seq::<NodeModel<P::Function>>::empty();
    assert(none.push(node) =~= front + none);
    assert(front + none =~= front);
    if parses_behind(front, rest, scope, result) {
        let behind = choose|behind: Result<Seq<NodeModel<P::Function>>, Seq<char>>| #[trigger]
            tree_laws::source_parses_to(rest, scope, behind) && result == prepended(front, behind);
        lemma_rest_parses(next, Cursor::start(rest), start, scope, front, none, behind);
    }
    if grammar::parses_to(next, scope, front, result) {
        let behind: Result<Seq<NodeModel<P::Function>>, Seq<char>> = match result {
            Ok(tree) => Ok(tree.skip(1)),
            Err(message) => Err(message),
        };
        if let Ok(tree) = result {
            tree_laws::lemma_nodes_stay(next, scope, front, tree);
            assert(tree =~= front + tree.skip(1));
        }
        assert(result == prepended(front, behind));
        lemma_rest_parses(next, Cursor::start(rest), start, scope, front, none, behind);
        assert(tree_laws::source_parses_to(rest, scope, behind));
    }
}

/// If the parsers of the functions are deterministic, a function with a body in
/// front of some source code is parsed to one node in front of its tree, and an
/// error of the source code is handed on.
pub proof fn law_function_node<P: ParseFunc>(
    name: Seq<char>,
    body: Seq<char>,
    rest: Seq<char>,
    scope: Scope<P>,
    function: P::Function,
    behind: Result<Seq<NodeModel<P::Function>>, Seq<char>>,
    result: Result<Seq<NodeModel<P::Function>>, Seq<char>>,
)
    requires
        ident::identifier(name),
        scope@.dom().contains(name),
        brackets::closing_bracket(body.push(']')) == Some(body.len() as int),
        tree_laws::is_deterministic(scope),
        grammar::may_return(scope, Call { name, body: Some(body) }, Ok(function)),
        tree_laws::source_parses_to(rest, scope, behind),
        tree_laws::source_parses_to(invoked(name, body, rest), scope, result),
    ensures
        result == prepended(seq![NodeModel::Func(HeaderModel::bare(name), function)], behind),
{
    let front = seq![NodeModel::Func(HeaderModel::bare(name), function)];
    let expected = prepended(front, behind);
    law_function_in_front(name, body, rest, scope, expected);
    assert(parses_behind(front, rest, scope, expected));
    assert(tree_laws::source_parses_to(invoked(name, body, rest), scope, expected));
    tree_laws::law_deterministic(invoked(name, body, rest), scope, result, expected);
}

/// Whether a character is whitespace or a newline.
pub open spec fn is_whitespace(c: char) -> bool {
    lexer::is_blank(c) || lexer::is_newline(c)
}

/// Whether a place is one in a front of its source code, with the same
/// surroundings. Behind the front there is whitespace, and not already at its
/// end.
spec fn is_in_front(place: Lexer, in_front: Lexer) -> bool {
    let len = in_front.src.len() as int;
    &&& len < place.src.len()
    &&& in_front.src == place.src.take(len)
    &&& is_whitespace(place.src[len])
    &&& len > 0 ==> !is_whitespace(in_front.src.last())
    &&& place.pos == in_front.pos
    &&& place.state == in_front.state
    &&& place.stack == in_front.stack
}

/// Words in front of whitespace end where they would without it, and so does
/// whitespace that something stands behind.
proof fn lemma_front_ends(src: Seq<char>, len: int, i: int, state: TokensState)
    requires
        0 <= i <= len < src.len(),
        is_whitespace(src[len]),
        len > 0 ==> !is_whitespace(src[len - 1]),
    ensures
        lexer::word_end(src, i, state) == lexer::word_end(src.take(len), i, state),
        i < len ==> lexer::blank_end(src, i) == lexer::blank_end(src.take(len), i),
    decreases len - i,
{
    if i < len {
        lemma_front_ends(src, len, i + 1, state);
        assert(src.take(len)[i] == src[i]);
        assert(i + 1 < len ==> src.take(len)[i + 1] == src[i + 1]);
        assert(lexer::ends_word(src, i, state) == lexer::ends_word(src.take(len), i, state));
    }
}

/// The tokens of a front of the text are those of the text.
proof fn lemma_front_step(place: Lexer, in_front: Lexer)
    requires
        in_front.valid(),
        is_in_front(place, in_front),
    ensures
        match in_front.step() {
            Some((token, next_in_front)) => {
                &&& place.step() matches Some((same, next))
                &&& same == token
                &&& is_in_front(next, next_in_front)
            },
            None => place.step() matches Some((token, _)) && (token is Space || token is Newline),
        },
{
    let i = in_front.pos;
    let len = in_front.src.len() as int;
    if i < len {
        let state = if place.state == TokensState::MaybeBody {
            place.unswitched().state
        } else {
            place.state
        };
        lemma_front_ends(place.src, len, i + 1, state);
        lexer::lemma_ends(in_front.src, i + 1, state);
        let end = lexer::word_end(in_front.src, i + 1, state);
        assert(place.src.subrange(i, end) =~= in_front.src.subrange(i, end));
        assert(in_front.src[i] == place.src[i]);
        assert(i + 1 < len ==> in_front.src[i + 1] == place.src[i + 1]);
    }
}

/// Whether the comment that starts at a place, if there is one, is ended by a
/// newline, and no function is invoked in it.
pub open spec fn comment_ends(cursor: Cursor) -> bool {
    cursor.is_comment() ==> cursor.lexer.skipped(
        |token: TokenModel| !(token is Newline || token is LeftBracket),
    ).step() matches Some((TokenModel::Newline, _))
}

/// A comment that ends in the front of the text ends at the same place in the
/// text.
proof fn lemma_front_next_line(place: Lexer, in_front: Lexer)
    requires
        place.valid(),
        in_front.valid(),
        is_in_front(place, in_front),
        in_front.skipped(
            |token: TokenModel| !(token is Newline || token is LeftBracket),
        ).step() matches Some((TokenModel::Newline, _)),
    ensures
        is_in_front(place.next_line(), in_front.next_line()),
        in_front.next_line().pos > 0,
        is_whitespace(in_front.src[in_front.next_line().pos - 1]),
    decreases in_front.src.len() - in_front.pos,
{
    lemma_front_step(place, in_front);
    place.lemma_step_advances();
    in_front.lemma_step_advances();
    if let Some((token, next_in_front)) = in_front.step() {
        if !(token is Newline || token is LeftBracket) {
            lemma_front_next_line((place.step()->0).1, next_in_front);
        }
    }
}

proof fn lemma_front_invocation(place: Lexer, in_front: Lexer, name: Seq<char>)
    requires
        place.valid(),
        in_front.valid(),
        is_in_front(place, in_front),
    ensures
        in_front.invocation(name) matches Step::Invoke(call, next_in_front) ==> {
            &&& place.invocation(name) matches Step::Invoke(same, next)
            &&& same == call
            &&& is_in_front(next.lexer, next_in_front.lexer)
            &&& next.state == next_in_front.state
        },
{
    lemma_front_step(place, in_front);
    in_front.lemma_step_advances();
    in_front.lemma_invocation(name);
    if let Some((TokenModel::LeftBracket, inside)) = in_front.step() {
        let len = in_front.src.len() as int;
        let inside_place = (place.step()->0).1;
        let rest = in_front.src.skip(inside.pos);
        if let Some(end) = brackets::closing_bracket(rest) {
            assert(place.src.skip(inside.pos) =~= rest + place.src.skip(len));
            lemma_closing_bracket_stays(rest, place.src.skip(len));
            brackets::lemma_found(rest);
            assert(place.src.subrange(inside.pos, inside.pos + end) =~= in_front.src.subrange(
                inside.pos,
                inside.pos + end,
            ));
            lemma_front_step(inside_place.at(inside.pos + end), inside.at(inside.pos + end));
        }
    }
}

/// The parser does the same in a front of the text as in the text.
proof fn lemma_front_cursor(cursor: Cursor, in_front: Cursor, names: Set<Seq<char>>)
    requires
        cursor.lexer.valid(),
        in_front.lexer.valid(),
        is_in_front(cursor.lexer, in_front.lexer),
        cursor.state == in_front.state,
        comment_ends(in_front),
    ensures
        in_front.step(names) matches Step::Go(leaf, next_in_front) ==> {
            &&& cursor.step(names) matches Step::Go(same, next)
            &&& same == leaf
            &&& is_in_front(next.lexer, next_in_front.lexer)
            &&& next.state == next_in_front.state
        },
        in_front.step(names) matches Step::Invoke(call, next_in_front) ==> {
            &&& cursor.step(names) matches Step::Invoke(same, next)
            &&& same == call
            &&& is_in_front(next.lexer, next_in_front.lexer)
            &&& next.state == next_in_front.state
        },
{
    lemma_front_step(cursor.lexer, in_front.lexer);
    cursor.lexer.lemma_step_advances();
    in_front.lexer.lemma_step_advances();
    if in_front.is_comment() {
        lemma_front_next_line(cursor.lexer, in_front.lexer);
    }
    if let Some((TokenModel::LeftBracket, inside)) = in_front.lexer.step() {
        let inside_place = (cursor.lexer.step()->0).1;
        lemma_front_step(inside_place, inside);
        inside.lemma_step_advances();
        inside_place.lemma_step_advances();
        if let Some((TokenModel::Text(word), behind_name)) = inside.step() {
            let behind_name_place = (inside_place.step()->0).1;
            lemma_front_step(behind_name_place, behind_name);
            behind_name.lemma_step_advances();
            behind_name_place.lemma_step_advances();
            if let Some((TokenModel::RightBracket, behind_header)) = behind_name.step() {
                lemma_front_invocation((behind_name_place.step()->0).1, behind_header, word);
            }
        }
    }
}

/// Whether the parser is in the base state and the last node is no space, unless
/// there is whitespace in front of the place.
spec fn is_settled<F>(cursor: Cursor, nodes: Seq<NodeModel<F>>) -> bool {
    cursor.state != ParserState::Body || (nodes.len() > 0 && nodes.last() is Space) ==> {
        &&& cursor.lexer.pos > 0
        &&& is_whitespace(cursor.lexer.src[cursor.lexer.pos - 1])
    }
}

/// Tokens that are whitespace end with a character that is.
proof fn lemma_whitespace_token(place: Lexer)
    requires
        place.valid(),
    ensures
        place.step() matches Some((token, next)) ==> token is Space || token is Newline
            ==> is_whitespace(place.src[next.pos - 1]),
{
    if place.pos < place.src.len() && lexer::is_blank(place.src[place.pos]) {
        lemma_blank_run(place.src, place.pos + 1);
    }
}

proof fn lemma_blank_run(src: Seq<char>, i: int)
    requires
        0 < i <= src.len(),
        lexer::is_blank(src[i - 1]),
    ensures
        i <= lexer::blank_end(src, i) <= src.len(),
        lexer::is_blank(src[lexer::blank_end(src, i) - 1]),
    decreases src.len() - i,
{
    if i < src.len() && lexer::is_blank(src[i]) {
        lemma_blank_run(src, i + 1);
    }
}

/// What the parser does keeps it settled.
proof fn lemma_settled<F>(cursor: Cursor, names: Set<Seq<char>>, nodes: Seq<NodeModel<F>>)
    requires
        cursor.lexer.valid(),
        is_settled(cursor, nodes),
    ensures
        cursor.step(names) matches Step::Go(leaf, next) ==> cursor.is_comment() || is_settled(
            next,
            grammar::appended(nodes, leaf),
        ),
{
    lemma_whitespace_token(cursor.lexer);
    cursor.lexer.lemma_step_advances();
}

/// Source code with something between two parts of it.
pub open spec fn joined(first: Seq<char>, between: Seq<char>, second: Seq<char>) -> Seq<char> {
    first + between + second
}

/// Whether the parser makes a node of some whitespace between two words: a
/// space or one newline is a space, and two newlines are a newline.
pub open spec fn is_joint<F>(between: Seq<char>, node: NodeModel<F>) -> bool {
    ||| between == seq![' '] && node is Space
    ||| between == seq!['\n'] && node is Space
    ||| between == seq!['\n', '\n'] && node is Newline
}

/// Between two parts of the source code, outside of all functions, the parser
/// adds the node for what is there and goes on with the second part.
proof fn lemma_joint<P: ParseFunc>(
    cursor: Cursor,
    scope: Scope<P>,
    between: Seq<char>,
    second: Seq<char>,
    nodes: Seq<NodeModel<P::Function>>,
    node: NodeModel<P::Function>,
    result: Result<Seq<NodeModel<P::Function>>, Seq<char>>,
) -> (next: Cursor)
    requires
        cursor.lexer.valid(),
        cursor.state == ParserState::Body,
        cursor.lexer.state == TokensState::Body ==> cursor.lexer.stack == Seq::<
            TokensState,
        >::empty(),
        cursor.lexer.state != TokensState::Body ==> cursor.lexer.state == TokensState::MaybeBody
            && cursor.lexer.stack == seq![TokensState::Body],
        cursor.lexer.src.skip(cursor.lexer.pos) == between + second,
        is_joint(between, node),
        second.len() > 0,
        !is_whitespace(second[0]),
        second[0] != '#',
        nodes.len() > 0 ==> !(nodes.last() is Space),
    ensures
        next.lexer.valid(),
        next.state == ParserState::Body,
        is_in_rest(next.lexer, Lexer::start(second), cursor.lexer.pos + between.len()),
        grammar::parsable(cursor, scope) == grammar::parsable(next, scope),
        grammar::parses_to(cursor, scope, nodes, result) == grammar::parses_to(
            next,
            scope,
            nodes.push(node),
            result,
        ),
{
    let names = scope@.dom();
    let src = cursor.lexer.src;
    let pos = cursor.lexer.pos;
    let rest = src.skip(pos);
    assert(seq![TokensState::Body].drop_last() =~= Seq::<TokensState>::empty());
    assert(forall|k: int| 0 <= k < rest.len() ==> #[trigger] rest[k] == src[pos + k]);
    let len = between.len() as int;
    assert(src[pos + len] == rest[len] && rest[len] == second[0]);
    assert(src.skip(pos + len) =~= rest.skip(len));
    assert((between + second).skip(len) =~= second);
    let begin = Lexer::start(src);
    let end = begin.at(pos + len);
    let next = Cursor { lexer: end, state: ParserState::Body };
    assert(end.step() matches Some((token, _)) && tree_laws::is_solid_token(token));
    if between == seq![' '] {
        assert(src[pos] == rest[0]);
        assert(lexer::blank_end(src, pos + 1) == pos + 1);
        assert(cursor.lexer.step() == Some((TokenModel::Space, end)));
        assert(cursor.step(names) == Step::Go(Leaf::Space, next));
    } else {
        assert(src[pos] == rest[0]);
        let behind = begin.at(pos + 1);
        let one = Cursor { lexer: behind, state: ParserState::FirstNewline };
        assert(cursor.lexer.step() == Some((TokenModel::Newline, behind)));
        assert(cursor.step(names) == Step::Go(Leaf::Nothing, one));
        assert(grammar::parses_to(cursor, scope, nodes, result) == grammar::parses_to(
            one,
            scope,
            nodes,
            result,
        ));
        if between == seq!['\n'] {
            assert(one.step(names) == Step::Go(Leaf::Space, next));
        } else {
            assert(src[pos + 1] == rest[1]);
            let two = Cursor { lexer: end, state: ParserState::WroteNewline };
            assert(behind.step() == Some((TokenModel::Newline, end)));
            assert(one.step(names) == Step::Go(Leaf::Newline, two));
            assert(two.step(names) == Step::Go(Leaf::Nothing, next));
            assert(grammar::parses_to(one, scope, nodes, result) == grammar::parses_to(
                two,
                scope,
                nodes.push(node),
                result,
            ));
            assert(grammar::parsable(one, scope) == grammar::parsable(two, scope));
        }
        assert(grammar::parsable(cursor, scope) == grammar::parsable(one, scope));
    }
    next
}

/// Two parts of source code with a space, a newline or two newlines between them
/// are parsed to both trees with a space, a space or a newline between them, and
/// an error of the second part is handed on. At the joint the parts have no
/// whitespace, and the second one starts with no comment. The comments of the
/// first one are ended by a newline in it, and contain no functions.
pub proof fn law_joined<P: ParseFunc>(
    first: Seq<char>,
    between: Seq<char>,
    second: Seq<char>,
    scope: Scope<P>,
    node: NodeModel<P::Function>,
    tree: Seq<NodeModel<P::Function>>,
    result: Result<Seq<NodeModel<P::Function>>, Seq<char>>,
)
    requires
        is_joint(between, node),
        first.len() > 0 ==> !is_whitespace(first.last()),
        first.contains('#') ==> Cursor::start(first).always(
            scope@.dom(),
            |c: Cursor| comment_ends(c),
        ),
        second.len() > 0,
        !is_whitespace(second[0]),
        second[0] != '#',
        tree_laws::source_parses_to(first, scope, Ok(tree)),
        tree_laws::source_parses_to(second, scope, result),
    ensures
        grammar::parsable(Cursor::start(joined(first, between, second)), scope)
            <==> grammar::parsable(Cursor::start(second), scope),
        tree_laws::source_parses_to(
            joined(first, between, second),
            scope,
            prepended(tree.push(node), result),
        ),
        tree_laws::is_deterministic(scope) ==> forall|
            other: Result<Seq<NodeModel<P::Function>>, Seq<char>>,
        | #[trigger]
            tree_laws::source_parses_to(joined(first, between, second), scope, other) ==> other
                == prepended(tree.push(node), result),
{
    let names = scope@.dom();
    let src = joined(first, between, second);
    let start = Cursor::start(src);
    let in_front = Cursor::start(first);
    if !first.contains('#') {
        tree_laws::lemma_no_comments(in_front, names, |c: Cursor| comment_ends(c));
    }
    assert(src.take(first.len() as int) =~= first);
    assert(src[first.len() as int] == between[0]);
    assert(src.skip(first.len() as int) =~= between + second);
    lemma_joined(
        start,
        in_front,
        between,
        second,
        scope,
        Seq::empty(),
        node,
        tree,
        result,
    );
    let expected = prepended(tree.push(node), result);
    if tree_laws::is_deterministic(scope) {
        assert forall|other: Result<Seq<NodeModel<P::Function>>, Seq<char>>| #[trigger]
            tree_laws::source_parses_to(src, scope, other) implies other == expected by {
            tree_laws::law_deterministic(src, scope, other, expected);
        }
    }
}

proof fn lemma_joined<P: ParseFunc>(
    cursor: Cursor,
    in_front: Cursor,
    between: Seq<char>,
    second: Seq<char>,
    scope: Scope<P>,
    nodes: Seq<NodeModel<P::Function>>,
    node: NodeModel<P::Function>,
    tree: Seq<NodeModel<P::Function>>,
    result: Result<Seq<NodeModel<P::Function>>, Seq<char>>,
)
    requires
        cursor.lexer.valid(),
        in_front.lexer.valid(),
        is_in_front(cursor.lexer, in_front.lexer),
        cursor.state == in_front.state,
        cursor.lexer.src.skip(in_front.lexer.src.len() as int) == between + second,
        tree_laws::is_outside(in_front.lexer),
        is_settled(in_front, nodes),
        in_front.always(scope@.dom(), |c: Cursor| comment_ends(c)),
        is_joint(between, node),
        second.len() > 0,
        !is_whitespace(second[0]),
        second[0] != '#',
        grammar::parses_to(in_front, scope, nodes, Ok(tree)),
        tree_laws::source_parses_to(second, scope, result),
    ensures
        grammar::parsable(cursor, scope) == grammar::parsable(Cursor::start(second), scope),
        grammar::parses_to(cursor, scope, nodes, prepended(tree.push(node), result)),
    decreases in_front.lexer.src.len() - in_front.lexer.pos, in_front.rank(),
{
    let names = scope@.dom();
    let expected = prepended(tree.push(node), result);
    let condition = |c: Cursor| comment_ends(c);
    assert(condition(in_front));
    cursor.lemma_step_advances(names);
    in_front.lemma_step_advances(names);
    in_front.lexer.lemma_step_advances();
    lemma_front_cursor(cursor, in_front, names);
    lemma_settled(in_front, names, nodes);
    tree_laws::lemma_outside(in_front.lexer);
    if in_front.is_comment() {
        lemma_front_next_line(cursor.lexer, in_front.lexer);
        tree_laws::lemma_outside_comment(in_front.lexer);
    }
    match in_front.step(names) {
        Step::End => {
            let next = lemma_joint(cursor, scope, between, second, nodes, node, expected);
            let none = Seq::<NodeModel<P::Function>>::empty();
            let front = tree.push(node);
            let start = Cursor::start(second);
            let len = cursor.lexer.pos + between.len();
            assert(front + none =~= front);
            lemma_rest_parsable(next, start, len, scope);
            lemma_rest_parses(next, start, len, scope, front, none, result);
        },
        Step::Go(leaf, next) => {
            lemma_joined(
                cursor.step(names)->Go_1,
                next,
                between,
                second,
                scope,
                grammar::appended(nodes, leaf),
                node,
                tree,
                result,
            );
        },
        Step::Invoke(call, next) => {
            let returned = tree_laws::lemma_returned(in_front, scope, nodes, Ok(tree));
            let nodes = nodes.push(NodeModel::Func(HeaderModel::bare(call.name), returned->Ok_0));
            tree_laws::lemma_outside_function((in_front.lexer.step()->0).1, names);
            lemma_joined(
                cursor.step(names)->Invoke_1,
                next,
                between,
                second,
                scope,
                nodes,
                node,
                tree,
                result,
            );
        },
        _ => {},
    }
}

} // verus!
