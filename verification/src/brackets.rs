//! Matching of brackets.

use vstd::prelude::*;

use crate::chars::PeekableChars;
use crate::text;

verus! {

/// How many more brackets are opened than closed in a text.
pub open spec fn depth(chars: Seq<char>) -> int
    decreases chars.len(),
{
    if chars.len() == 0 {
        0
    } else {
        depth(chars.drop_last()) + if chars.last() == '[' {
            1int
        } else if chars.last() == ']' {
            -1int
        } else {
            0int
        }
    }
}

/// Whether the character number `i` closes a bracket that was not opened, and
/// is the first one that does.
pub open spec fn is_closing_bracket(chars: Seq<char>, i: int) -> bool {
    &&& 0 <= i < chars.len()
    &&& depth(chars.take(i + 1)) < 0
    &&& forall|j: int| 0 <= j <= i ==> depth(#[trigger] chars.take(j)) >= 0
}

/// The index of the first unbalanced closing bracket, counted in characters.
pub open spec fn closing_bracket(chars: Seq<char>) -> Option<int> {
    if exists|i: int| is_closing_bracket(chars, i) {
        Some(choose|i: int| is_closing_bracket(chars, i))
    } else {
        None
    }
}

/// There is one first unbalanced closing bracket at most.
pub proof fn lemma_closing_bracket(chars: Seq<char>, i: int)
    requires
        is_closing_bracket(chars, i),
    ensures
        closing_bracket(chars) == Some(i),
        chars[i] == ']',
{
    let k = choose|k: int| is_closing_bracket(chars, k);
    assert(is_closing_bracket(chars, k));
    if k < i {
        assert(depth(chars.take(k + 1)) >= 0);
    } else if i < k {
        assert(depth(chars.take(i + 1)) >= 0);
    }
    assert(depth(chars.take(i)) >= 0);
    assert(chars.take(i + 1).drop_last() =~= chars.take(i));
}

/// The first unbalanced closing bracket is a closing bracket of the text, and
/// the brackets in front of it are balanced.
pub proof fn lemma_found(chars: Seq<char>)
    ensures
        closing_bracket(chars) matches Some(i) ==> {
            &&& 0 <= i < chars.len()
            &&& chars[i] == ']'
            &&& depth(chars.take(i)) == 0
            &&& forall|j: int| 0 <= j <= i ==> depth(#[trigger] chars.take(j)) >= 0
        },
{
    if let Some(i) = closing_bracket(chars) {
        lemma_closing_bracket(chars, i);
        assert(depth(chars.take(i)) >= 0);
        assert(chars.take(i + 1).drop_last() =~= chars.take(i));
    }
}

/// Find the index of the first unbalanced closing bracket.
pub fn find_closing_bracket(src: &str) -> (index: Option<usize>)
    ensures
        match closing_bracket(src@) {
            Some(i) => index matches Some(index) && text::is_position(src@, i, index as int),
            None => index is None,
        },
{
    let mut chars = PeekableChars::new(src);
    let mut parens: usize = 0;
    loop
        invariant_except_break
            chars.wf(),
            chars.source() == src@,
            0 <= chars.pos() <= src@.len(),
            parens == depth(src@.take(chars.pos())),
            parens <= chars.pos(),
            forall|j: int| 0 <= j <= chars.pos() ==> depth(#[trigger] src@.take(j)) >= 0,
        ensures
            closing_bracket(src@) is None,
        decreases src@.len() - chars.pos(),
    {
        let ghost pos = chars.pos();
        let next = chars.next();
        proof {
            chars.lemma_source_fits();
            text::lemma_positions_ordered(src@, pos, pos);
            if pos < src@.len() {
                text::lemma_positions_count(src@, pos + 1);
                text::lemma_positions_ordered(src@, pos, pos + 1);
                assert(src@.take(pos + 1).drop_last() =~= src@.take(pos));
                assert(src@.take(pos + 1).last() == src@[pos]);
            }
        }
        match next {
            Some((index, ']')) => {
                if parens == 0 {
                    proof {
                        assert(is_closing_bracket(src@, pos));
                        lemma_closing_bracket(src@, pos);
                    }
                    return Some(index);
                }
                parens -= 1;
            },
            Some((_, '[')) => {
                parens += 1;
            },
            Some(_) => {},
            None => {
                assert forall|i: int| !is_closing_bracket(src@, i) by {
                    if 0 <= i < src@.len() {
                        assert(depth(src@.take(i + 1)) >= 0);
                    }
                }
                break;
            },
        }
    }
    None
}

} // verus!
