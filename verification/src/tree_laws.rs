//! What holds of all syntax trees.

use vstd::prelude::*;

use crate::brackets;
use crate::error;
use crate::error::{ParseError, ParseResult};
use crate::func::{ParseFunc, Scope};
use crate::grammar;
use crate::grammar::{Call, Cursor, Leaf, ParserState, Step};
use crate::ident;
use crate::lexer;
use crate::lexer::{Lexer, TokensState};
use crate::syntax::{HeaderModel, NodeModel, TokenModel};
use crate::token_laws;

verus! {

/// The results of parsing source code in a scope.
pub open spec fn source_parses_to<P: ParseFunc>(
    src: Seq<char>,
    scope: Scope<P>,
    result: Result<Seq<NodeModel<P::Function>>, Seq<char>>,
) -> bool {
    grammar::parses_to(Cursor::start(src), scope, Seq::empty(), result)
}

/// If a function is invoked at a place, this is what its parser returned for
/// parsing to give the result.
pub proof fn lemma_returned<P: ParseFunc>(
    cursor: Cursor,
    scope: Scope<P>,
    nodes: Seq<NodeModel<P::Function>>,
    result: Result<Seq<NodeModel<P::Function>>, Seq<char>>,
) -> (returned: ParseResult<P::Function>)
    requires
        cursor.lexer.valid(),
        cursor.step(scope@.dom()) is Invoke,
        grammar::parses_to(cursor, scope, nodes, result),
    ensures
        cursor.step(scope@.dom()) matches Step::Invoke(call, next) && {
            &&& grammar::may_return(scope, call, returned)
            &&& match returned {
                Ok(body) => grammar::parses_to(
                    next,
                    scope,
                    nodes.push(NodeModel::Func(HeaderModel::bare(call.name), body)),
                    result,
                ),
                Err(error) => result == Err::<Seq<NodeModel<P::Function>>, Seq<char>>(error@),
            }
        },
{
    cursor.lemma_step_advances(scope@.dom());
    let call = cursor.step(scope@.dom())->Invoke_0;
    let next = cursor.step(scope@.dom())->Invoke_1;
    choose|returned: ParseResult<P::Function>| #[trigger]
        grammar::may_return(scope, call, returned) && match returned {
            Ok(body) => grammar::parses_to(
                next,
                scope,
                nodes.push(NodeModel::Func(HeaderModel::bare(call.name), body)),
                result,
            ),
            Err(error) => result == Err::<Seq<NodeModel<P::Function>>, Seq<char>>(error@),
        }
}

/// Whether a property of the place and the nodes so far is kept by a step.
spec fn is_kept<P: ParseFunc>(
    property: spec_fn(Cursor, Seq<NodeModel<P::Function>>) -> bool,
    cursor: Cursor,
    scope: Scope<P>,
    nodes: Seq<NodeModel<P::Function>>,
) -> bool {
    match cursor.step(scope@.dom()) {
        Step::Go(leaf, next) => property(next, grammar::appended(nodes, leaf)),
        Step::Invoke(call, next) => forall|body: P::Function| #[trigger]
            grammar::may_return(scope, call, Ok(body)) ==> property(
                next,
                nodes.push(NodeModel::Func(HeaderModel::bare(call.name), body)),
            ),
        _ => true,
    }
}

/// What holds at the start and is kept by every step holds of the tree.
proof fn lemma_kept<P: ParseFunc>(
    property: spec_fn(Cursor, Seq<NodeModel<P::Function>>) -> bool,
    cursor: Cursor,
    scope: Scope<P>,
    nodes: Seq<NodeModel<P::Function>>,
    tree: Seq<NodeModel<P::Function>>,
)
    requires
        cursor.lexer.valid(),
        property(cursor, nodes),
        forall|c: Cursor, n: Seq<NodeModel<P::Function>>|
            c.lexer.valid() && #[trigger] property(c, n) ==> is_kept(property, c, scope, n),
        grammar::parses_to(cursor, scope, nodes, Ok(tree)),
    ensures
        exists|c: Cursor| #[trigger] property(c, tree),
    decreases cursor.lexer.src.len() - cursor.lexer.pos, cursor.rank(),
{
    cursor.lemma_step_advances(scope@.dom());
    assert(is_kept(property, cursor, scope, nodes));
    match cursor.step(scope@.dom()) {
        Step::Go(leaf, next) => {
            lemma_kept(property, next, scope, grammar::appended(nodes, leaf), tree);
        },
        Step::Invoke(call, next) => {
            let returned = lemma_returned(cursor, scope, nodes, Ok(tree));
            let nodes = nodes.push(NodeModel::Func(HeaderModel::bare(call.name), returned->Ok_0));
            lemma_kept(property, next, scope, nodes, tree);
        },
        _ => {
            assert(property(cursor, tree));
        },
    }
}

/// Appending a space adds one unless there is one at the end already, so doing
/// it once more changes nothing.
pub proof fn law_space_once<F>(nodes: Seq<NodeModel<F>>)
    ensures
        grammar::appended(nodes, Leaf::Space) == if nodes.len() > 0 && nodes.last() is Space {
            nodes
        } else {
            nodes.push(NodeModel::Space)
        },
        grammar::appended(grammar::appended(nodes, Leaf::Space), Leaf::Space) == grammar::appended(
            nodes,
            Leaf::Space,
        ),
{
}

/// No two spaces stand next to each other in a sequence of nodes.
pub open spec fn spaces_apart<F>(nodes: Seq<NodeModel<F>>) -> bool {
    forall|i: int|
        0 <= i && i + 1 < nodes.len() && #[trigger] nodes[i] is Space ==> !(nodes[i + 1] is Space)
}

/// No two spaces stand next to each other in a syntax tree.
pub proof fn law_spaces_apart<P: ParseFunc>(
    src: Seq<char>,
    scope: Scope<P>,
    tree: Seq<NodeModel<P::Function>>,
)
    requires
        source_parses_to(src, scope, Ok(tree)),
    ensures
        spaces_apart(tree),
{
    let property = |c: Cursor, n: Seq<NodeModel<P::Function>>| spaces_apart(n);
    lemma_kept(property, Cursor::start(src), scope, Seq::empty(), tree);
}

/// Whether a node is neither a space nor a newline.
pub open spec fn is_solid<F>(node: NodeModel<F>) -> bool {
    !(node is Space || node is Newline)
}

/// Between any two newlines there is a node that is no whitespace.
pub open spec fn newlines_apart<F>(nodes: Seq<NodeModel<F>>) -> bool {
    forall|i: int, j: int|
        0 <= i < j < nodes.len() && #[trigger] nodes[i] is Newline && #[trigger] nodes[j] is Newline
            ==> exists|k: int| i < k < j && is_solid(#[trigger] nodes[k])
}

/// Whether there is a newline with only whitespace behind it.
spec fn ends_with_newline<F>(nodes: Seq<NodeModel<F>>) -> bool {
    exists|i: int|
        0 <= i < nodes.len() && #[trigger] nodes[i] is Newline && forall|k: int|
            i < k < nodes.len() ==> !is_solid(#[trigger] nodes[k])
}

/// Whether the parser writes a newline from a place on before it comes to
/// anything that is neither whitespace nor a comment.
pub open spec fn writes_newline(cursor: Cursor, names: Set<Seq<char>>) -> bool
    recommends
        cursor.lexer.valid(),
    decreases cursor.lexer.src.len() - cursor.lexer.pos, cursor.rank(),
    when cursor.lexer.valid()
{
    proof {
        cursor.lemma_step_advances(names);
    }
    match cursor.step(names) {
        Step::Go(Leaf::Newline, _) => true,
        Step::Go(Leaf::Space, next) => writes_newline(next, names),
        Step::Go(Leaf::Nothing, next) => writes_newline(next, names),
        _ => false,
    }
}

/// Whether a comment starts at a place that comes after a newline was written,
/// and another newline is written behind the comment.
pub open spec fn newlines_resume(cursor: Cursor, names: Set<Seq<char>>) -> bool {
    &&& cursor.state == ParserState::WroteNewline
    &&& cursor.is_comment()
    &&& writes_newline(cursor, names)
}

/// However many newlines follow each other, with whitespace or without, they
/// are one newline in the syntax tree at most. The only exception is a comment
/// that comes after such newlines and has enough of them behind it.
pub proof fn law_newlines_apart<P: ParseFunc>(
    src: Seq<char>,
    scope: Scope<P>,
    tree: Seq<NodeModel<P::Function>>,
)
    requires
        source_parses_to(src, scope, Ok(tree)),
    ensures
        newlines_apart(tree) <==> Cursor::start(src).always(
            scope@.dom(),
            |c: Cursor| !newlines_resume(c, scope@.dom()),
        ),
{
    let start = Cursor::start(src);
    let condition = |c: Cursor| !newlines_resume(c, scope@.dom());
    if start.always(scope@.dom(), condition) {
        lemma_newlines_apart(start, scope, tree);
    }
    if newlines_apart(tree) {
        lemma_no_resuming(start, scope, Seq::empty(), tree);
    }
}

/// If no newlines resume behind comments, there is something between any two.
proof fn lemma_newlines_apart<P: ParseFunc>(
    start: Cursor,
    scope: Scope<P>,
    tree: Seq<NodeModel<P::Function>>,
)
    requires
        start.lexer.valid(),
        start.always(scope@.dom(), |c: Cursor| !newlines_resume(c, scope@.dom())),
        grammar::parses_to(start, scope, Seq::empty(), Ok(tree)),
    ensures
        newlines_apart(tree),
{
    let names = scope@.dom();
    let condition = |c: Cursor| !newlines_resume(c, scope@.dom());
    let property = |c: Cursor, n: Seq<NodeModel<P::Function>>|
        {
            &&& c.always(names, condition)
            &&& newlines_apart(n)
            &&& ends_with_newline(n) ==> !writes_newline(c, names)
        };
    assert forall|c: Cursor, n: Seq<NodeModel<P::Function>>|
        c.lexer.valid() && #[trigger] property(c, n) implies is_kept(property, c, scope, n) by {
        c.lemma_step_advances(names);
        match c.step(names) {
            Step::Go(leaf, next) => {
                lemma_newlines_appended(n, leaf);
                if leaf is Newline {
                    lemma_quiet(next, scope@.dom());
                }
            },
            Step::Invoke(call, next) => {
                assert forall|body: P::Function| #[trigger]
                    grammar::may_return(scope, call, Ok(body)) implies property(
                    next,
                    n.push(NodeModel::Func(HeaderModel::bare(call.name), body)),
                ) by {
                    lemma_newlines_pushed(
                        n,
                        NodeModel::Func(HeaderModel::bare(call.name), body),
                    );
                }
            },
            _ => {},
        }
    }
    lemma_kept(property, start, scope, Seq::empty(), tree);
}

/// Where a newline was written, another one follows only behind a comment.
proof fn lemma_quiet(cursor: Cursor, names: Set<Seq<char>>)
    requires
        cursor.lexer.valid(),
        cursor.state == ParserState::WroteNewline,
        cursor.always(names, |c: Cursor| !newlines_resume(c, names)),
    ensures
        !writes_newline(cursor, names),
    decreases cursor.lexer.src.len() - cursor.lexer.pos,
{
    let condition = |c: Cursor| !newlines_resume(c, names);
    cursor.lemma_step_advances(names);
    assert(condition(cursor));
    if let Some((token, _)) = cursor.lexer.step() {
        let next = cursor.step(names)->Go_1;
        if token is Newline || token is Space {
            lemma_quiet(next, names);
        } else if !(token is Hashtag) {
            assert(!writes_newline(next, names));
        }
    }
}

/// The nodes that were parsed so far stay at the front of the tree.
pub proof fn lemma_nodes_stay<P: ParseFunc>(
    cursor: Cursor,
    scope: Scope<P>,
    nodes: Seq<NodeModel<P::Function>>,
    tree: Seq<NodeModel<P::Function>>,
)
    requires
        cursor.lexer.valid(),
        grammar::parses_to(cursor, scope, nodes, Ok(tree)),
    ensures
        nodes.is_prefix_of(tree),
{
    let property = |c: Cursor, n: Seq<NodeModel<P::Function>>| nodes.is_prefix_of(n);
    lemma_kept(property, cursor, scope, nodes, tree);
}

/// A newline that is written with only whitespace behind the last one stands in
/// the tree.
proof fn lemma_resumed<P: ParseFunc>(
    cursor: Cursor,
    scope: Scope<P>,
    nodes: Seq<NodeModel<P::Function>>,
    tree: Seq<NodeModel<P::Function>>,
)
    requires
        cursor.lexer.valid(),
        ends_with_newline(nodes),
        writes_newline(cursor, scope@.dom()),
        grammar::parses_to(cursor, scope, nodes, Ok(tree)),
    ensures
        !newlines_apart(tree),
    decreases cursor.lexer.src.len() - cursor.lexer.pos, cursor.rank(),
{
    cursor.lemma_step_advances(scope@.dom());
    let leaf = cursor.step(scope@.dom())->Go_0;
    let next = cursor.step(scope@.dom())->Go_1;
    let after = grammar::appended(nodes, leaf);
    let i = choose|i: int|
        0 <= i < nodes.len() && #[trigger] nodes[i] is Newline && forall|k: int|
            i < k < nodes.len() ==> !is_solid(#[trigger] nodes[k]);
    if leaf is Newline {
        lemma_nodes_stay(next, scope, after, tree);
        assert(after.is_prefix_of(tree));
        let j = nodes.len() as int;
        assert(tree[i] == after[i] && tree[j] == after[j]);
        assert forall|k: int| i < k < j implies !is_solid(#[trigger] tree[k]) by {
            assert(tree[k] == after[k]);
            assert(!is_solid(nodes[k]));
        }
    } else {
        assert(after[i] is Newline);
        assert forall|k: int| i < k < after.len() implies !is_solid(#[trigger] after[k]) by {
            if k < nodes.len() {
                assert(!is_solid(nodes[k]));
            }
        }
        lemma_resumed(next, scope, after, tree);
    }
}

/// If there is something between any two newlines of the tree, none resume
/// behind comments.
proof fn lemma_no_resuming<P: ParseFunc>(
    cursor: Cursor,
    scope: Scope<P>,
    nodes: Seq<NodeModel<P::Function>>,
    tree: Seq<NodeModel<P::Function>>,
)
    requires
        cursor.lexer.valid(),
        cursor.state == ParserState::WroteNewline ==> ends_with_newline(nodes),
        grammar::parses_to(cursor, scope, nodes, Ok(tree)),
        newlines_apart(tree),
    ensures
        cursor.always(scope@.dom(), |c: Cursor| !newlines_resume(c, scope@.dom())),
    decreases cursor.lexer.src.len() - cursor.lexer.pos, cursor.rank(),
{
    cursor.lemma_step_advances(scope@.dom());
    if newlines_resume(cursor, scope@.dom()) {
        lemma_resumed(cursor, scope, nodes, tree);
    }
    match cursor.step(scope@.dom()) {
        Step::Go(leaf, next) => {
            let after = grammar::appended(nodes, leaf);
            lemma_nodes_stay(next, scope, after, tree);
            if next.state == ParserState::WroteNewline {
                if leaf is Newline {
                    assert(after[nodes.len() as int] is Newline);
                } else {
                    let i = choose|i: int|
                        0 <= i < nodes.len() && #[trigger] nodes[i] is Newline && forall|k: int|
                            i < k < nodes.len() ==> !is_solid(#[trigger] nodes[k]);
                    assert(after[i] is Newline);
                    assert forall|k: int| i < k < after.len() implies !is_solid(
                        #[trigger] after[k],
                    ) by {
                        if k < nodes.len() {
                            assert(!is_solid(nodes[k]));
                        }
                    }
                }
                assert(ends_with_newline(after));
            }
            lemma_no_resuming(next, scope, after, tree);
        },
        Step::Invoke(call, next) => {
            let returned = lemma_returned(cursor, scope, nodes, Ok(tree));
            let nodes = nodes.push(NodeModel::Func(HeaderModel::bare(call.name), returned->Ok_0));
            lemma_no_resuming(next, scope, nodes, tree);
        },
        _ => {},
    }
}

proof fn lemma_newlines_pushed<F>(nodes: Seq<NodeModel<F>>, node: NodeModel<F>)
    requires
        newlines_apart(nodes),
        node is Newline ==> !ends_with_newline(nodes),
    ensures
        newlines_apart(nodes.push(node)),
        is_solid(node) ==> !ends_with_newline(nodes.push(node)),
        node is Space ==> ends_with_newline(nodes.push(node)) == ends_with_newline(nodes),
{
    let after = nodes.push(node);
    assert forall|i: int, j: int|
        0 <= i < j < after.len() && #[trigger] after[i] is Newline && #[trigger] after[j] is Newline
            implies exists|k: int| i < k < j && is_solid(#[trigger] after[k]) by {
        if j < nodes.len() {
            let k = choose|k: int| i < k < j && is_solid(#[trigger] nodes[k]);
            assert(is_solid(after[k]));
        } else {
            assert(nodes[i] is Newline);
            let k = choose|k: int| i < k < nodes.len() && is_solid(#[trigger] nodes[k]);
            assert(is_solid(after[k]));
        }
    }
    if ends_with_newline(after) {
        let i = choose|i: int|
            0 <= i < after.len() && #[trigger] after[i] is Newline && forall|k: int|
                i < k < after.len() ==> !is_solid(#[trigger] after[k]);
        assert(!is_solid(after[nodes.len() as int]) || i == nodes.len());
        if i < nodes.len() {
            assert(nodes[i] is Newline);
            assert forall|k: int| i < k < nodes.len() implies !is_solid(#[trigger] nodes[k]) by {
                assert(!is_solid(after[k]));
            }
        }
    }
    if ends_with_newline(nodes) && node is Space {
        let i = choose|i: int|
            0 <= i < nodes.len() && #[trigger] nodes[i] is Newline && forall|k: int|
                i < k < nodes.len() ==> !is_solid(#[trigger] nodes[k]);
        assert(after[i] is Newline);
        assert forall|k: int| i < k < after.len() implies !is_solid(#[trigger] after[k]) by {
            if k < nodes.len() {
                assert(!is_solid(nodes[k]));
            }
        }
    }
}

proof fn lemma_newlines_appended<F>(nodes: Seq<NodeModel<F>>, leaf: Leaf)
    requires
        newlines_apart(nodes),
        leaf is Newline ==> !ends_with_newline(nodes),
    ensures
        newlines_apart(grammar::appended(nodes, leaf)),
        !(leaf is Nothing || leaf is Space || leaf is Newline) ==> !ends_with_newline(
            grammar::appended(nodes, leaf),
        ),
        leaf is Nothing || leaf is Space ==> ends_with_newline(grammar::appended(nodes, leaf))
            == ends_with_newline(nodes),
{
    let after = grammar::appended(nodes, leaf);
    if after.len() > nodes.len() {
        lemma_newlines_pushed(nodes, after.last());
    }
}

/// Whether a function can be in a tree that was parsed in the scope: it is
/// called by its name, which is an identifier that the scope knows, and is what
/// its parser returned for an invocation.
pub open spec fn is_call_in<P: ParseFunc>(
    scope: Scope<P>,
    header: HeaderModel,
    body: P::Function,
) -> bool {
    &&& header == HeaderModel::bare(header.name)
    &&& ident::identifier(header.name)
    &&& scope@.dom().contains(header.name)
    &&& exists|call: Call|
        call.name == header.name && #[trigger] grammar::may_return(scope, call, Ok(body))
}

/// Whether a node can be in a tree that was parsed in the scope: texts are not
/// empty, and functions were invoked.
pub open spec fn is_node_in<P: ParseFunc>(scope: Scope<P>, node: NodeModel<P::Function>) -> bool {
    match node {
        NodeModel::Text(text) => text.len() > 0,
        NodeModel::Func(header, body) => is_call_in(scope, header, body),
        _ => true,
    }
}

/// Invoked functions have a name that is an identifier, texts are not empty.
proof fn lemma_step_names(cursor: Cursor, names: Set<Seq<char>>)
    requires
        cursor.lexer.valid(),
    ensures
        cursor.step(names) matches Step::Invoke(call, _) ==> ident::identifier(call.name)
            && names.contains(call.name),
        cursor.step(names) matches Step::Go(Leaf::Text(text), _) ==> text.len() > 0,
{
    token_laws::law_text(cursor.lexer);
}

/// Every node of a syntax tree is one that can stand in it.
pub proof fn law_nodes<P: ParseFunc>(
    src: Seq<char>,
    scope: Scope<P>,
    tree: Seq<NodeModel<P::Function>>,
)
    requires
        source_parses_to(src, scope, Ok(tree)),
    ensures
        forall|i: int| 0 <= i < tree.len() ==> is_node_in(scope, #[trigger] tree[i]),
{
    let property = |c: Cursor, n: Seq<NodeModel<P::Function>>|
        forall|i: int| 0 <= i < n.len() ==> is_node_in(scope, #[trigger] n[i]);
    assert forall|c: Cursor, n: Seq<NodeModel<P::Function>>|
        c.lexer.valid() && #[trigger] property(c, n) implies is_kept(property, c, scope, n) by {
        lemma_step_names(c, scope@.dom());
        if let Step::Invoke(call, next) = c.step(scope@.dom()) {
            assert forall|body: P::Function| #[trigger]
                grammar::may_return(scope, call, Ok(body)) implies property(
                next,
                n.push(NodeModel::Func(HeaderModel::bare(call.name), body)),
            ) by {
                let header = HeaderModel::bare(call.name);
                let node = NodeModel::Func(header, body);
                assert(is_call_in(scope, header, body));
                assert(is_node_in(scope, node));
                let after = n.push(node);
                assert forall|i: int| 0 <= i < after.len() implies is_node_in(
                    scope,
                    #[trigger] after[i],
                ) by {
                    assert(i < n.len() ==> after[i] == n[i]);
                }
            }
        }
    }
    lemma_kept(property, Cursor::start(src), scope, Seq::empty(), tree);
}

/// Whether this is the message of an error that parsing in the scope can give:
/// one of the parser's own, or one that the parser of a function returned for
/// an invocation.
pub open spec fn is_error_in<P: ParseFunc>(scope: Scope<P>, message: Seq<char>) -> bool {
    ||| message == "unexpected closing bracket"@
    ||| message == "expected closing bracket"@
    ||| message == "expected identifier"@
    ||| message == "invalid identifier"@
    ||| exists|name: Seq<char>|
        ident::identifier(name) && !scope@.dom().contains(name) && message
            == #[trigger] error::unknown_function_message(name)
    ||| exists|call: Call, error: ParseError|
        scope@.dom().contains(call.name) && #[trigger] grammar::may_return(
            scope,
            call,
            Err(error),
        ) && message == error@
}

/// An error is one of the parser's own or that of a function.
pub proof fn law_errors<P: ParseFunc>(src: Seq<char>, scope: Scope<P>, message: Seq<char>)
    requires
        source_parses_to(src, scope, Err(message)),
    ensures
        is_error_in(scope, message),
{
    lemma_errors(Cursor::start(src), scope, Seq::empty(), message);
}

proof fn lemma_errors<P: ParseFunc>(
    cursor: Cursor,
    scope: Scope<P>,
    nodes: Seq<NodeModel<P::Function>>,
    message: Seq<char>,
)
    requires
        cursor.lexer.valid(),
        grammar::parses_to(cursor, scope, nodes, Err(message)),
    ensures
        is_error_in(scope, message),
    decreases cursor.lexer.src.len() - cursor.lexer.pos, cursor.rank(),
{
    cursor.lemma_step_advances(scope@.dom());
    match cursor.step(scope@.dom()) {
        Step::Go(leaf, next) => {
            lemma_errors(next, scope, grammar::appended(nodes, leaf), message);
        },
        Step::Invoke(call, next) => {
            let returned = lemma_returned(cursor, scope, nodes, Err(message));
            match returned {
                Ok(body) => {
                    let nodes = nodes.push(NodeModel::Func(HeaderModel::bare(call.name), body));
                    lemma_errors(next, scope, nodes, message);
                },
                Err(error) => {
                    assert(grammar::may_return(scope, call, Err(error)));
                },
            }
        },
        _ => {},
    }
}

/// Whether the parsers of the scope return one result for every invocation.
pub open spec fn is_deterministic<P: ParseFunc>(scope: Scope<P>) -> bool {
    forall|call: Call, first: ParseResult<P::Function>, second: ParseResult<P::Function>|
        #[trigger] grammar::may_return(scope, call, first) && #[trigger] grammar::may_return(
            scope,
            call,
            second,
        ) ==> first == second
}

/// If the parsers of the functions are deterministic, so is parsing.
pub proof fn law_deterministic<P: ParseFunc>(
    src: Seq<char>,
    scope: Scope<P>,
    first: Result<Seq<NodeModel<P::Function>>, Seq<char>>,
    second: Result<Seq<NodeModel<P::Function>>, Seq<char>>,
)
    requires
        is_deterministic(scope),
        source_parses_to(src, scope, first),
        source_parses_to(src, scope, second),
    ensures
        first == second,
{
    lemma_deterministic(Cursor::start(src), scope, Seq::empty(), first, second);
}

proof fn lemma_deterministic<P: ParseFunc>(
    cursor: Cursor,
    scope: Scope<P>,
    nodes: Seq<NodeModel<P::Function>>,
    first: Result<Seq<NodeModel<P::Function>>, Seq<char>>,
    second: Result<Seq<NodeModel<P::Function>>, Seq<char>>,
)
    requires
        is_deterministic(scope),
        cursor.lexer.valid(),
        grammar::parses_to(cursor, scope, nodes, first),
        grammar::parses_to(cursor, scope, nodes, second),
    ensures
        first == second,
    decreases cursor.lexer.src.len() - cursor.lexer.pos, cursor.rank(),
{
    cursor.lemma_step_advances(scope@.dom());
    match cursor.step(scope@.dom()) {
        Step::Go(leaf, next) => {
            lemma_deterministic(next, scope, grammar::appended(nodes, leaf), first, second);
        },
        Step::Invoke(call, next) => {
            let returned = lemma_returned(cursor, scope, nodes, first);
            let again = lemma_returned(cursor, scope, nodes, second);
            assert(returned == again);
            if let Ok(body) = returned {
                let nodes = nodes.push(NodeModel::Func(HeaderModel::bare(call.name), body));
                lemma_deterministic(next, scope, nodes, first, second);
            }
        },
        _ => {},
    }
}

/// Whether a place lies outside of all functions: in the body at the top level
/// or behind a function there that has no body.
pub open spec fn is_outside(place: Lexer) -> bool {
    ||| place.state == TokensState::Body && place.stack == Seq::<TokensState>::empty()
    ||| {
        &&& place.state == TokensState::MaybeBody
        &&& place.stack == seq![TokensState::Body]
        &&& !lexer::has_char(place.src, place.pos, '[')
    }
}

/// Only a left bracket leads into a function, and colons and equals signs are
/// no tokens outside of functions.
pub proof fn lemma_outside(place: Lexer)
    requires
        place.valid(),
        is_outside(place),
    ensures
        place.step() matches Some((token, next)) ==> {
            &&& !(token is Colon || token is Equals)
            &&& !(token is LeftBracket) ==> is_outside(next)
            &&& token is LeftBracket ==> next.state == TokensState::Function && next.stack
                == seq![TokensState::Body]
        },
{
    assert(Seq::<TokensState>::empty().push(TokensState::Body) =~= seq![TokensState::Body]);
    assert(seq![TokensState::Body].drop_last() =~= Seq::<TokensState>::empty());
}

/// Parsing a function outside of all functions leads outside again.
pub proof fn lemma_outside_function(inside: Lexer, names: Set<Seq<char>>)
    requires
        inside.valid(),
        inside.state == TokensState::Function,
        inside.stack == seq![TokensState::Body],
    ensures
        inside.function(names) matches Step::Invoke(_, next) ==> is_outside(next.lexer),
{
    inside.lemma_step_advances();
    assert(seq![TokensState::Body].drop_last() =~= Seq::<TokensState>::empty());
    if let Some((TokenModel::Text(word), behind_name)) = inside.step() {
        behind_name.lemma_step_advances();
        if let Some((TokenModel::RightBracket, behind_header)) = behind_name.step() {
            behind_header.lemma_invocation(word);
            assert(behind_header.state == TokensState::MaybeBody);
            assert(behind_header.stack == seq![TokensState::Body]);
        }
    }
}

/// The tokens of a comment without a left bracket lead outside of all
/// functions.
pub proof fn lemma_outside_comment(place: Lexer)
    requires
        place.valid(),
        is_outside(place),
        !(place.skipped(
            |token: TokenModel| !(token is Newline || token is LeftBracket),
        ).step() matches Some((TokenModel::LeftBracket, _))),
    ensures
        is_outside(place.next_line()),
    decreases place.src.len() - place.pos,
{
    place.lemma_step_advances();
    lemma_outside(place);
    if let Some((token, next)) = place.step() {
        if !(token is Newline || token is LeftBracket) {
            lemma_outside_comment(next);
        }
    }
}

/// Whether a place is not in a header: in a body or behind a function in one
/// that has no body. Nothing is said of the end of the source code.
spec fn is_in_body(place: Lexer) -> bool {
    place.pos < place.src.len() ==> {
        ||| place.state == TokensState::Body
        ||| {
            &&& place.state == TokensState::MaybeBody
            &&& place.unswitched().state == TokensState::Body
            &&& place.src[place.pos] != '['
        }
    }
}

/// Only brackets lead out of a body, and colons and equals signs are no tokens
/// in one.
proof fn lemma_in_body(place: Lexer)
    requires
        place.valid(),
        is_in_body(place),
    ensures
        place.step() matches Some((token, next)) ==> {
            &&& !(token is Colon || token is Equals)
            &&& !(token is LeftBracket || token is RightBracket) ==> is_in_body(next)
            &&& token is LeftBracket ==> next.state == TokensState::Function && next.stack.len()
                > 0 && next.stack.last() == TokensState::Body
        },
{
}

/// Parsing a function in a body leads into the body again.
proof fn lemma_in_body_function(inside: Lexer, names: Set<Seq<char>>)
    requires
        inside.valid(),
        inside.state == TokensState::Function,
        inside.stack.len() > 0,
        inside.stack.last() == TokensState::Body,
    ensures
        inside.function(names) matches Step::Invoke(_, next) ==> is_in_body(next.lexer),
{
    inside.lemma_step_advances();
    if let Some((TokenModel::Text(word), behind_name)) = inside.step() {
        behind_name.lemma_step_advances();
        if let Some((TokenModel::RightBracket, behind_header)) = behind_name.step() {
            behind_header.lemma_invocation(word);
            assert(behind_header.state == TokensState::MaybeBody);
            assert(behind_header.stack == inside.stack);
        }
    }
}

/// Tokens are skipped up to one that the condition does not hold of.
proof fn lemma_skipped_to(place: Lexer, condition: spec_fn(TokenModel) -> bool)
    requires
        place.valid(),
    ensures
        place.skipped(condition).step() matches Some((token, _)) ==> !condition(token),
    decreases place.src.len() - place.pos,
{
    place.lemma_step_advances();
    if let Some((token, next)) = place.step() {
        if condition(token) {
            lemma_skipped_to(next, condition);
        }
    }
}

/// Behind a newline it is not open whether a function has a body.
proof fn lemma_next_line_state(place: Lexer)
    requires
        place.valid(),
    ensures
        place.next_line().pos < place.src.len() ==> place.next_line().state
            != TokensState::MaybeBody,
{
    let condition = |token: TokenModel| !(token is Newline);
    place.lemma_skipped(condition);
    lemma_skipped_to(place, condition);
    place.skipped(condition).lemma_step_advances();
}

/// Whether the comment that starts at a place, if there is one, leaves no header
/// unfinished.
pub open spec fn is_readable(cursor: Cursor) -> bool {
    cursor.is_comment() ==> cursor.lexer.next_line().state != TokensState::Function
}

/// Source code can be parsed if the comments that the parser comes to leave no
/// headers unfinished.
pub proof fn law_parsable<P: ParseFunc>(src: Seq<char>, scope: Scope<P>)
    requires
        Cursor::start(src).always(scope@.dom(), |c: Cursor| is_readable(c)),
    ensures
        grammar::parsable(Cursor::start(src), scope),
{
    lemma_parsable(Cursor::start(src), scope);
}

proof fn lemma_parsable<P: ParseFunc>(cursor: Cursor, scope: Scope<P>)
    requires
        cursor.lexer.valid(),
        is_in_body(cursor.lexer),
        cursor.always(scope@.dom(), |c: Cursor| is_readable(c)),
    ensures
        grammar::parsable(cursor, scope),
    decreases cursor.lexer.src.len() - cursor.lexer.pos, cursor.rank(),
{
    let names = scope@.dom();
    let condition = |c: Cursor| is_readable(c);
    assert(condition(cursor));
    cursor.lemma_step_advances(names);
    cursor.lexer.lemma_step_advances();
    lemma_in_body(cursor.lexer);
    if cursor.is_comment() {
        cursor.lexer.lemma_next_line();
        lemma_next_line_state(cursor.lexer);
    }
    match cursor.step(names) {
        Step::Go(_, next) => {
            lemma_parsable(next, scope);
        },
        Step::Invoke(_, next) => {
            lemma_in_body_function((cursor.lexer.step()->0).1, names);
            lemma_parsable(next, scope);
        },
        _ => {},
    }
}

/// Source code without hashtags can be parsed.
pub proof fn law_parsable_without_hashtags<P: ParseFunc>(src: Seq<char>, scope: Scope<P>)
    requires
        !src.contains('#'),
    ensures
        grammar::parsable(Cursor::start(src), scope),
{
    lemma_no_comments(Cursor::start(src), scope@.dom(), |c: Cursor| is_readable(c));
    law_parsable(src, scope);
}

/// Source code that cannot be parsed gives no result if the parsers of the
/// functions are deterministic. Otherwise an error of one of them may keep the
/// parser from coming to the token that it has no rule for.
pub proof fn law_not_parsable<P: ParseFunc>(
    src: Seq<char>,
    scope: Scope<P>,
    result: Result<Seq<NodeModel<P::Function>>, Seq<char>>,
)
    requires
        !grammar::parsable(Cursor::start(src), scope),
        is_deterministic(scope),
    ensures
        !source_parses_to(src, scope, result),
{
    lemma_not_parsable(Cursor::start(src), scope, Seq::empty(), result);
}

proof fn lemma_not_parsable<P: ParseFunc>(
    cursor: Cursor,
    scope: Scope<P>,
    nodes: Seq<NodeModel<P::Function>>,
    result: Result<Seq<NodeModel<P::Function>>, Seq<char>>,
)
    requires
        cursor.lexer.valid(),
        !grammar::parsable(cursor, scope),
        is_deterministic(scope),
    ensures
        !grammar::parses_to(cursor, scope, nodes, result),
    decreases cursor.lexer.src.len() - cursor.lexer.pos, cursor.rank(),
{
    cursor.lemma_step_advances(scope@.dom());
    match cursor.step(scope@.dom()) {
        Step::Go(leaf, next) => {
            lemma_not_parsable(next, scope, grammar::appended(nodes, leaf), result);
        },
        Step::Invoke(call, next) => {
            if grammar::parses_to(cursor, scope, nodes, result) {
                let returned = lemma_returned(cursor, scope, nodes, result);
                let body = choose|body: P::Function| #[trigger]
                    grammar::may_return(scope, call, Ok(body));
                assert(returned == Ok::<P::Function, ParseError>(body));
                let after = nodes.push(NodeModel::Func(HeaderModel::bare(call.name), body));
                lemma_not_parsable(next, scope, after, result);
            }
        },
        _ => {},
    }
}

/// In source code without hashtags the parser comes to no comments.
pub proof fn lemma_no_comments(
    cursor: Cursor,
    names: Set<Seq<char>>,
    condition: spec_fn(Cursor) -> bool,
)
    requires
        cursor.lexer.valid(),
        !cursor.lexer.src.contains('#'),
        forall|c: Cursor| !c.is_comment() ==> #[trigger] condition(c),
    ensures
        cursor.always(names, condition),
    decreases cursor.lexer.src.len() - cursor.lexer.pos, cursor.rank(),
{
    cursor.lemma_step_advances(names);
    if cursor.is_comment() {
        assert(cursor.lexer.src[cursor.lexer.pos] == '#');
    }
    match cursor.step(names) {
        Step::Go(_, next) => {
            lemma_no_comments(next, names, condition);
        },
        Step::Invoke(_, next) => {
            lemma_no_comments(next, names, condition);
        },
        _ => {},
    }
}

/// Whether the parser finds no error of its own from a place on.
pub open spec fn is_correct(cursor: Cursor, names: Set<Seq<char>>) -> bool {
    cursor.always(
        names,
        |c: Cursor| !(c.step(names) is Fail || c.step(names) is NoRule),
    )
}

/// Source code in which the parser finds no error is parsed to a tree if the
/// parsers of the functions return no errors.
pub proof fn law_success<P: ParseFunc>(
    src: Seq<char>,
    scope: Scope<P>,
    result: Result<Seq<NodeModel<P::Function>>, Seq<char>>,
)
    requires
        is_correct(Cursor::start(src), scope@.dom()),
        forall|call: Call, error: ParseError|
            !#[trigger] grammar::may_return(scope, call, Err(error)),
        source_parses_to(src, scope, result),
    ensures
        result is Ok,
{
    lemma_success(Cursor::start(src), scope, Seq::empty(), result);
}

proof fn lemma_success<P: ParseFunc>(
    cursor: Cursor,
    scope: Scope<P>,
    nodes: Seq<NodeModel<P::Function>>,
    result: Result<Seq<NodeModel<P::Function>>, Seq<char>>,
)
    requires
        cursor.lexer.valid(),
        is_correct(cursor, scope@.dom()),
        forall|call: Call, error: ParseError|
            !#[trigger] grammar::may_return(scope, call, Err(error)),
        grammar::parses_to(cursor, scope, nodes, result),
    ensures
        result is Ok,
    decreases cursor.lexer.src.len() - cursor.lexer.pos, cursor.rank(),
{
    cursor.lemma_step_advances(scope@.dom());
    match cursor.step(scope@.dom()) {
        Step::Go(leaf, next) => {
            lemma_success(next, scope, grammar::appended(nodes, leaf), result);
        },
        Step::Invoke(call, next) => {
            let returned = lemma_returned(cursor, scope, nodes, result);
            match returned {
                Ok(body) => {
                    let nodes = nodes.push(NodeModel::Func(HeaderModel::bare(call.name), body));
                    lemma_success(next, scope, nodes, result);
                },
                Err(error) => {
                    assert(grammar::may_return(scope, call, Err(error)));
                },
            }
        },
        _ => {},
    }
}

/// What a token that is no whitespace and belongs to no function or comment
/// stands for in the tree.
pub open spec fn token_node<F>(token: TokenModel) -> Option<NodeModel<F>> {
    match token {
        TokenModel::Text(word) => Some(NodeModel::Text(word)),
        TokenModel::DoubleUnderscore => Some(NodeModel::ToggleItalics),
        TokenModel::DoubleStar => Some(NodeModel::ToggleBold),
        TokenModel::Dollar => Some(NodeModel::ToggleMath),
        _ => None,
    }
}

/// The words and modifiers among tokens.
pub open spec fn token_contents<F>(tokens: Seq<TokenModel>) -> Seq<NodeModel<F>>
    decreases tokens.len(),
{
    if tokens.len() == 0 {
        Seq::empty()
    } else {
        let contents = token_contents(tokens.drop_last());
        match token_node(tokens.last()) {
            Some(node) => contents.push(node),
            None => contents,
        }
    }
}

/// The nodes that are no whitespace.
pub open spec fn node_contents<F>(nodes: Seq<NodeModel<F>>) -> Seq<NodeModel<F>>
    decreases nodes.len(),
{
    if nodes.len() == 0 {
        Seq::empty()
    } else {
        let contents = node_contents(nodes.drop_last());
        if is_solid(nodes.last()) {
            contents.push(nodes.last())
        } else {
            contents
        }
    }
}

/// Whether there are neither functions nor comments among the tokens.
pub open spec fn is_plain(tokens: Seq<TokenModel>) -> bool {
    forall|i: int|
        0 <= i < tokens.len() ==> !(#[trigger] tokens[i] is LeftBracket || tokens[i] is RightBracket
            || tokens[i] is Hashtag)
}

/// Source code without functions and comments is always parsed to a tree, which
/// depends on nothing else. The tree has all the words and modifiers of the
/// source code, in the same order and no others: only whitespace changes.
pub proof fn law_plain<P: ParseFunc>(src: Seq<char>, scope: Scope<P>) -> (tree: Seq<
    NodeModel<P::Function>,
>)
    requires
        is_plain(Lexer::start(src).tokens()),
    ensures
        grammar::parsable(Cursor::start(src), scope),
        forall|result: Result<Seq<NodeModel<P::Function>>, Seq<char>>| #[trigger]
            source_parses_to(src, scope, result) <==> result == Ok::<
                Seq<NodeModel<P::Function>>,
                Seq<char>,
            >(tree),
        node_contents(tree) == token_contents::<P::Function>(Lexer::start(src).tokens()),
{
    let start = Cursor::start(src);
    assert(Seq::<TokenModel>::empty() + start.lexer.tokens() =~= start.lexer.tokens());
    let tree = lemma_plain(start, scope, Seq::empty(), Seq::empty());
    assert forall|result: Result<Seq<NodeModel<P::Function>>, Seq<char>>| #[trigger]
        source_parses_to(src, scope, result) <==> result == Ok::<
            Seq<NodeModel<P::Function>>,
            Seq<char>,
        >(tree) by {
        assert(source_parses_to(src, scope, result) == grammar::parses_to(
            start,
            scope,
            Seq::empty(),
            result,
        ));
    }
    tree
}

proof fn lemma_plain<P: ParseFunc>(
    cursor: Cursor,
    scope: Scope<P>,
    read: Seq<TokenModel>,
    nodes: Seq<NodeModel<P::Function>>,
) -> (tree: Seq<NodeModel<P::Function>>)
    requires
        cursor.lexer.valid(),
        is_outside(cursor.lexer),
        is_plain(cursor.lexer.tokens()),
        node_contents(nodes) == token_contents::<P::Function>(read),
    ensures
        grammar::parsable(cursor, scope),
        forall|result: Result<Seq<NodeModel<P::Function>>, Seq<char>>| #[trigger]
            grammar::parses_to(cursor, scope, nodes, result) <==> result == Ok::<
                Seq<NodeModel<P::Function>>,
                Seq<char>,
            >(tree),
        node_contents(tree) == token_contents::<P::Function>(read + cursor.lexer.tokens()),
    decreases cursor.lexer.src.len() - cursor.lexer.pos, cursor.rank(),
{
    cursor.lemma_step_advances(scope@.dom());
    cursor.lexer.lemma_step_advances();
    lemma_outside(cursor.lexer);
    let tokens = cursor.lexer.tokens();
    match cursor.lexer.step() {
        Some((token, behind)) => {
            let rest = behind.tokens();
            assert(tokens[0] == token);
            assert forall|i: int| 0 <= i < rest.len() implies !(#[trigger] rest[i] is LeftBracket
                || rest[i] is RightBracket || rest[i] is Hashtag) by {
                assert(rest[i] == tokens[i + 1]);
            }
            let leaf = cursor.step(scope@.dom())->Go_0;
            let next = cursor.step(scope@.dom())->Go_1;
            let after = grammar::appended(nodes, leaf);
            assert(read.push(token).drop_last() =~= read);
            assert(read.push(token) + rest =~= read + tokens);
            assert(after.len() > nodes.len() ==> after.drop_last() =~= nodes);
            let now_read = if next.lexer == behind {
                read.push(token)
            } else {
                read
            };
            let tree = lemma_plain(next, scope, now_read, after);
            assert forall|result: Result<Seq<NodeModel<P::Function>>, Seq<char>>| #[trigger]
                grammar::parses_to(cursor, scope, nodes, result) <==> result == Ok::<
                    Seq<NodeModel<P::Function>>,
                    Seq<char>,
                >(tree) by {
                assert(grammar::parses_to(cursor, scope, nodes, result) == grammar::parses_to(
                    next,
                    scope,
                    after,
                    result,
                ));
            }
            tree
        },
        None => {
            assert(read + tokens =~= read);
            nodes
        },
    }
}

/// Whether a token is neither whitespace nor the start of a comment.
pub open spec fn is_solid_token(token: TokenModel) -> bool {
    !(token is Space || token is Newline || token is Hashtag)
}

/// A newline in front of something else is parsed to a space, if there is not
/// one already.
pub proof fn law_one_newline<P: ParseFunc>(
    place: Lexer,
    scope: Scope<P>,
    nodes: Seq<NodeModel<P::Function>>,
    result: Result<Seq<NodeModel<P::Function>>, Seq<char>>,
)
    requires
        place.valid(),
        place.step() matches Some((TokenModel::Newline, behind)) && behind.step() matches Some(
            (token, _),
        ) && is_solid_token(token),
    ensures
        grammar::parses_to(
            Cursor { lexer: place, state: ParserState::Body },
            scope,
            nodes,
            result,
        ) <==> grammar::parses_to(
            Cursor { lexer: (place.step()->0).1, state: ParserState::Body },
            scope,
            grammar::appended(nodes, Leaf::Space),
            result,
        ),
{
    let behind = (place.step()->0).1;
    place.lemma_step_advances();
    let first = Cursor { lexer: place, state: ParserState::Body };
    let second = Cursor { lexer: behind, state: ParserState::FirstNewline };
    assert(first.step(scope@.dom()) == Step::Go(Leaf::Nothing, second));
    assert(grammar::parses_to(first, scope, nodes, result) == grammar::parses_to(
        second,
        scope,
        nodes,
        result,
    ));
}

/// Two newlines in front of something else are parsed to a newline.
pub proof fn law_two_newlines<P: ParseFunc>(
    place: Lexer,
    scope: Scope<P>,
    nodes: Seq<NodeModel<P::Function>>,
    result: Result<Seq<NodeModel<P::Function>>, Seq<char>>,
)
    requires
        place.valid(),
        place.step() matches Some((TokenModel::Newline, middle)) && middle.step() matches Some(
            (TokenModel::Newline, behind),
        ) && behind.step() matches Some((token, _)) && is_solid_token(token),
    ensures
        grammar::parses_to(
            Cursor { lexer: place, state: ParserState::Body },
            scope,
            nodes,
            result,
        ) <==> grammar::parses_to(
            Cursor { lexer: ((place.step()->0).1.step()->0).1, state: ParserState::Body },
            scope,
            nodes.push(NodeModel::Newline),
            result,
        ),
{
    let middle = (place.step()->0).1;
    let behind = (middle.step()->0).1;
    place.lemma_step_advances();
    middle.lemma_step_advances();
    let first = Cursor { lexer: place, state: ParserState::Body };
    let second = Cursor { lexer: middle, state: ParserState::FirstNewline };
    let third = Cursor { lexer: behind, state: ParserState::WroteNewline };
    assert(first.step(scope@.dom()) == Step::Go(Leaf::Nothing, second));
    assert(second.step(scope@.dom()) == Step::Go(Leaf::Newline, third));
    assert(grammar::parses_to(first, scope, nodes, result) == grammar::parses_to(
        second,
        scope,
        nodes,
        result,
    ));
    assert(grammar::parses_to(second, scope, nodes, result) == grammar::parses_to(
        third,
        scope,
        nodes.push(NodeModel::Newline),
        result,
    ));
}

/// A comment is parsed as if it and the newline that ends it were not there,
/// but for the space that a newline in front of it makes.
pub proof fn law_comment<P: ParseFunc>(
    cursor: Cursor,
    scope: Scope<P>,
    nodes: Seq<NodeModel<P::Function>>,
    result: Result<Seq<NodeModel<P::Function>>, Seq<char>>,
)
    requires
        cursor.lexer.valid(),
        cursor.is_comment(),
    ensures
        grammar::parses_to(cursor, scope, nodes, result) <==> grammar::parses_to(
            Cursor { lexer: cursor.lexer.next_line(), state: ParserState::Body },
            scope,
            if cursor.state == ParserState::FirstNewline {
                grammar::appended(nodes, Leaf::Space)
            } else {
                nodes
            },
            result,
        ),
{
    cursor.lexer.lemma_next_line();
}

/// The body of an invoked function is the part of the source code between two
/// brackets that belong together, and the parser goes on behind them.
pub proof fn law_body(cursor: Cursor, names: Set<Seq<char>>)
    requires
        cursor.lexer.valid(),
    ensures
        cursor.step(names) matches Step::Invoke(call, next) ==> {
            call.body matches Some(body) ==> {
                let src = cursor.lexer.src;
                let end = next.lexer.pos - 1;
                let start = end - body.len();
                &&& cursor.lexer.pos < start - 1
                &&& end < src.len()
                &&& src[start - 1] == '['
                &&& src[end] == ']'
                &&& body == src.subrange(start, end)
                &&& brackets::depth(body) == 0
                &&& forall|j: int|
                    0 <= j <= body.len() ==> brackets::depth(#[trigger] body.take(j)) >= 0
            }
        },
{
    cursor.lexer.lemma_step_advances();
    if let Step::Invoke(call, next) = cursor.step(names) {
        if let Some(body) = call.body {
            let behind = (cursor.lexer.step()->0).1;
            behind.lemma_step_advances();
            let behind_name = (behind.step()->0).1;
            behind_name.lemma_step_advances();
            let behind_header = (behind_name.step()->0).1;
            behind_header.lemma_step_advances();
            behind_header.lemma_invocation(call.name);
            let inside = (behind_header.step()->0).1;
            let rest = inside.src.skip(inside.pos);
            brackets::lemma_found(rest);
            let len = brackets::closing_bracket(rest)->0;
            assert(rest.take(len) =~= body);
            assert forall|j: int| 0 <= j <= body.len() implies brackets::depth(
                #[trigger] body.take(j),
            ) >= 0 by {
                assert(body.take(j) =~= rest.take(j));
            }
        }
    }
}

} // verus!
