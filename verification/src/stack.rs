//! The stack of tokenizer states.

use smallvec::SmallVec;
use vstd::prelude::*;

use crate::lexer::TokensState;

verus! {

/// A stack of tokenizer states that stores the first one inline.
///
/// The vector is a [`SmallVec`], which is opaque here: what it holds goes by
/// the name [`stack_states`], and the functions below say what the vector's
/// methods do to it.
#[verifier::external_body]
#[derive(Debug)]
pub struct StateStack {
    states: SmallVec<[TokensState; 1]>,
}

/// The states on a stack, the top one last.
pub uninterp spec fn stack_states(stack: StateStack) -> Seq<TokensState>;

/// Makes an empty stack.
///
/// Calls `SmallVec::new`, which constructs an empty vector.
#[verifier::external_body]
pub(crate) fn stack_new() -> (stack: StateStack)
    ensures
        stack_states(stack) == Seq::<TokensState>::empty(),
{
    StateStack { states: SmallVec::new() }
}

/// Puts a state on top of a stack.
///
/// Calls `SmallVec::push`, which appends the item to the end of the vector and
/// leaves the items in front of it as they are. Like every allocation it fails
/// when the memory is exhausted; how many items that takes is left unsaid, since
/// it depends on the machine.
#[verifier::external_body]
pub(crate) fn stack_push(stack: &mut StateStack, state: TokensState)
    ensures
        stack_states(*final(stack)) == stack_states(*old(stack)).push(state),
{
    stack.states.push(state)
}

/// Takes the top state off a stack.
///
/// Calls `SmallVec::pop`, which removes the last item of the vector and returns
/// it, or returns `None` and leaves the vector empty if it is empty.
#[verifier::external_body]
pub(crate) fn stack_pop(stack: &mut StateStack) -> (state: Option<TokensState>)
    ensures
        stack_states(*old(stack)).len() == 0 ==> state is None && stack_states(*final(stack))
            == stack_states(*old(stack)),
        stack_states(*old(stack)).len() > 0 ==> state == Some(stack_states(*old(stack)).last())
            && stack_states(*final(stack)) == stack_states(*old(stack)).drop_last(),
{
    stack.states.pop()
}

/// Copies a stack.
///
/// Calls `SmallVec::clone`, which makes a vector of clones of the items in the
/// same order.
#[verifier::external_body]
pub(crate) fn stack_clone(stack: &StateStack) -> (copy: StateStack)
    ensures
        stack_states(copy) == stack_states(*stack),
{
    StateStack { states: stack.states.clone() }
}

} // verus!
