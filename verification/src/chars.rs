//! Characters with their byte positions and double lookahead.

use vstd::prelude::*;
use vstd::utf8::*;

use crate::text;

verus! {

/// The character number `k` of `chars` with its byte position, or nothing
/// behind the last one.
pub open spec fn char_at(chars: Seq<char>, k: int) -> Option<(usize, char)> {
    if 0 <= k < chars.len() {
        Some((text::byte_index(chars, k) as usize, chars[k]))
    } else {
        None
    }
}

/// An index + char iterator with double lookahead.
#[derive(Debug, Clone, Copy)]
pub struct PeekableChars<'s> {
    /// The byte position of `rest` in the string.
    offset: usize,
    string: &'s str,
    /// The part of the string that was neither returned nor peeked at.
    rest: &'s str,
    peek1: Option<Option<(usize, char)>>,
    peek2: Option<Option<(usize, char)>>,
}

impl<'s> PeekableChars<'s> {
    /// The characters of the whole string.
    pub closed spec fn source(self) -> Seq<char> {
        self.string@
    }

    /// The number of characters in front of the unread part.
    spec fn front(self) -> int {
        self.string@.len() - self.rest@.len()
    }

    /// The number of characters in front of the next one.
    pub closed spec fn pos(self) -> int {
        let first: int = if self.peek1 matches Some(Some(_)) {
            1
        } else {
            0
        };
        let second: int = if self.peek2 matches Some(Some(_)) {
            1
        } else {
            0
        };
        self.front() - first - second
    }

    /// The number of elements that were peeked at.
    pub closed spec fn ahead(self) -> nat {
        if self.peek1 is None {
            0
        } else if self.peek2 is None {
            1
        } else {
            2
        }
    }

    /// What holds of the iterator at all times.
    pub closed spec fn wf(self) -> bool {
        &&& encode_utf8(self.string@).len() <= usize::MAX
        &&& 0 <= self.pos() <= self.string@.len()
        &&& 0 <= self.front()
        &&& self.rest@ == self.string@.skip(self.front())
        &&& self.offset == text::byte_index(self.string@, self.front())
        &&& self.peek1 is None ==> self.peek2 is None
        &&& self.peek1 matches Some(first) ==> first == char_at(self.string@, self.pos())
        &&& self.peek2 matches Some(second) ==> second == char_at(self.string@, self.pos() + 1)
    }

    /// Every byte position in the string fits in a `usize`.
    pub proof fn lemma_source_fits(self)
        requires
            self.wf(),
        ensures
            encode_utf8(self.source()).len() <= usize::MAX,
    {
    }

    /// Create a new iterator from a string.
    pub fn new(string: &'s str) -> (chars: PeekableChars<'s>)
        ensures
            chars.wf(),
            chars.source() == string@,
            chars.pos() == 0,
    {
        let _len: usize = text::byte_len(string);
        proof {
            assert(string@.skip(0) =~= string@);
            assert(string@.take(0) =~= Seq::<char>::empty());
        }
        PeekableChars { offset: 0, string, rest: string, peek1: None, peek2: None }
    }

    /// Peek at the next element.
    pub fn peek(&mut self) -> (next: Option<(usize, char)>)
        requires
            old(self).wf(),
        ensures
            final(self).wf(),
            final(self).source() == old(self).source(),
            final(self).pos() == old(self).pos(),
            final(self).ahead() == (if old(self).ahead() == 0 {
                1
            } else {
                old(self).ahead()
            }),
            next == char_at(old(self).source(), old(self).pos()),
    {
        match self.peek1 {
            Some(peeked) => peeked,
            None => {
                let next = self.next_inner();
                self.peek1 = Some(next);
                next
            },
        }
    }

    /// Peek at the element after the next element.
    pub fn peek_second(&mut self) -> (next: Option<(usize, char)>)
        requires
            old(self).wf(),
        ensures
            final(self).wf(),
            final(self).source() == old(self).source(),
            final(self).pos() == old(self).pos(),
            next == char_at(old(self).source(), old(self).pos() + 1),
    {
        match self.peek2 {
            Some(peeked) => peeked,
            None => {
                self.peek();
                let next = self.next_inner();
                self.peek2 = Some(next);
                next
            },
        }
    }

    /// Take the first character off the unread part of the string.
    fn next_inner(&mut self) -> (next: Option<(usize, char)>)
        requires
            encode_utf8(old(self).string@).len() <= usize::MAX,
            0 <= old(self).front(),
            old(self).rest@ == old(self).string@.skip(old(self).front()),
            old(self).offset == text::byte_index(old(self).string@, old(self).front()),
        ensures
            next == char_at(old(self).string@, old(self).front()),
            final(self).string == old(self).string,
            final(self).peek1 == old(self).peek1,
            final(self).peek2 == old(self).peek2,
            final(self).front() == old(self).front() + (if next is Some {
                1int
            } else {
                0int
            }),
            final(self).rest@ == final(self).string@.skip(final(self).front()),
            final(self).offset == text::byte_index(final(self).string@, final(self).front()),
    {
        let mut rest_chars = self.rest.chars();
        match rest_chars.next() {
            Some(c) => {
                let index: usize = self.offset;
                let width: usize = text::len_utf8(c);
                let ghost front = self.front();
                proof {
                    assert(c == self.rest@[0]);
                    text::lemma_next_position(self.string@, front);
                    text::lemma_positions_ordered(self.string@, front, front + 1);
                    text::lemma_next_position(self.rest@, 0);
                    assert(self.rest@.take(0) =~= Seq::<char>::empty());
                    text::lemma_char_index(self.rest@, 1, width as int);
                }
                let (_, rest) = text::split(self.rest, width);
                self.rest = rest;
                self.offset = index + width;
                assert(self.rest@ =~= self.string@.skip(front + 1));
                Some((index, c))
            },
            None => None,
        }
    }

    /// The index of the first character of the next token in the source string.
    pub fn current_index(&mut self) -> (index: Option<usize>)
        requires
            old(self).wf(),
        ensures
            final(self).wf(),
            final(self).source() == old(self).source(),
            final(self).pos() == old(self).pos(),
            index == (match char_at(old(self).source(), old(self).pos()) {
                Some((index, _)) => Some(index),
                None => None,
            }),
    {
        match self.peek() {
            Some((index, _)) => Some(index),
            None => None,
        }
    }

    /// Go to a new position in the underlying string.
    pub fn goto(&mut self, index: usize)
        requires
            old(self).wf(),
            text::on_boundary(old(self).source(), index as int),
        ensures
            final(self).wf(),
            final(self).source() == old(self).source(),
            final(self).pos() == text::char_index(old(self).source(), index as int),
    {
        let (_, rest) = text::split(self.string, index);
        self.offset = index;
        self.rest = rest;
        self.peek1 = None;
        self.peek2 = None;
    }

    /// Take the next element.
    pub fn next(&mut self) -> (next: Option<(usize, char)>)
        requires
            old(self).wf(),
        ensures
            final(self).wf(),
            final(self).source() == old(self).source(),
            final(self).pos() == old(self).pos() + (if next is Some {
                1int
            } else {
                0int
            }),
            next == char_at(old(self).source(), old(self).pos()),
    {
        match self.peek1.take() {
            Some(value) => {
                self.peek1 = self.peek2.take();
                value
            },
            None => self.next_inner(),
        }
    }
}

} // verus!
