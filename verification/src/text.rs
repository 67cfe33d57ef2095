//! Byte positions of characters in UTF-8 text.

use vstd::prelude::*;
use vstd::utf8::*;

verus! {

/// The byte at which the character number `k` of `chars` starts in UTF-8.
pub open spec fn byte_index(chars: Seq<char>, k: int) -> nat {
    encode_utf8(chars.take(k)).len()
}

/// Whether the byte position `index` is that of the character number `k` of
/// `chars`, or the end of the text if there is no such character.
pub open spec fn is_position(chars: Seq<char>, k: int, index: int) -> bool {
    0 <= k <= chars.len() && index == byte_index(chars, k)
}

/// Whether a character of `chars` starts at the byte position `index`, or the
/// text ends there.
pub open spec fn on_boundary(chars: Seq<char>, index: int) -> bool {
    exists|k: int| is_position(chars, k, index)
}

/// The number of characters of `chars` in front of the byte position `index`.
pub open spec fn char_index(chars: Seq<char>, index: int) -> int {
    choose|k: int| is_position(chars, k, index)
}

/// Concatenation of texts is concatenation of their encodings.
pub proof fn lemma_encode_concat(a: Seq<char>, b: Seq<char>)
    ensures
        encode_utf8(a + b) == encode_utf8(a) + encode_utf8(b),
    decreases a.len(),
{
    if a.len() == 0 {
        assert(a + b =~= b);
        assert(encode_utf8(a) + encode_utf8(b) =~= encode_utf8(b));
    } else {
        lemma_encode_concat(a.drop_first(), b);
        assert((a + b).drop_first() =~= a.drop_first() + b);
        let head = encode_scalar(a[0] as u32);
        assert(encode_utf8(a) == head + encode_utf8(a.drop_first()));
        assert(encode_utf8(a) + encode_utf8(b) =~= head + (encode_utf8(a.drop_first())
            + encode_utf8(b)));
    }
}

/// A text encodes to the bytes in front of a position and those behind it.
proof fn lemma_encode_split(chars: Seq<char>, k: int)
    requires
        0 <= k <= chars.len(),
    ensures
        encode_utf8(chars) == encode_utf8(chars.take(k)) + encode_utf8(chars.skip(k)),
{
    assert(chars =~= chars.take(k) + chars.skip(k));
    lemma_encode_concat(chars.take(k), chars.skip(k));
}

/// Behind a character the position is larger by the width of the character.
pub proof fn lemma_next_position(chars: Seq<char>, k: int)
    requires
        0 <= k < chars.len(),
    ensures
        byte_index(chars, k + 1) == byte_index(chars, k) + encode_scalar(chars[k] as u32).len(),
        byte_index(chars, k) < byte_index(chars, k + 1),
{
    let c = seq![chars[k]];
    assert(chars.take(k + 1) =~= chars.take(k) + c);
    lemma_encode_concat(chars.take(k), c);
    assert(c.drop_first() =~= Seq::<char>::empty());
    assert(encode_utf8(c) =~= encode_scalar(chars[k] as u32)) by {
        reveal_with_fuel(encode_utf8, 2);
    }
}

/// The positions of the characters are in order and within the text.
pub proof fn lemma_positions_ordered(chars: Seq<char>, j: int, k: int)
    requires
        0 <= j <= k <= chars.len(),
    ensures
        j < k ==> byte_index(chars, j) < byte_index(chars, k),
        byte_index(chars, j) <= byte_index(chars, k),
        byte_index(chars, k) <= encode_utf8(chars).len(),
    decreases k - j,
{
    if j < k {
        lemma_positions_ordered(chars, j, k - 1);
        lemma_next_position(chars, k - 1);
    }
    lemma_encode_split(chars, k);
}

/// In front of a position there are at most as many characters as bytes.
pub proof fn lemma_positions_count(chars: Seq<char>, k: int)
    requires
        0 <= k <= chars.len(),
    ensures
        k <= byte_index(chars, k),
    decreases k,
{
    if k > 0 {
        lemma_positions_count(chars, k - 1);
        lemma_next_position(chars, k - 1);
    }
}

/// A position is that of one character only.
pub proof fn lemma_char_index(chars: Seq<char>, k: int, index: int)
    requires
        is_position(chars, k, index),
    ensures
        on_boundary(chars, index),
        char_index(chars, index) == k,
{
    let j = char_index(chars, index);
    assert(is_position(chars, j, index));
    if j < k {
        lemma_positions_ordered(chars, j, k);
    } else if k < j {
        lemma_positions_ordered(chars, k, j);
    }
}

/// The positions in a rest of the text, counted from where the rest starts.
pub proof fn lemma_position_in_rest(chars: Seq<char>, j: int, k: int)
    requires
        0 <= j <= k <= chars.len(),
    ensures
        byte_index(chars, k) == byte_index(chars, j) + byte_index(chars.skip(j), k - j),
{
    assert(chars.take(k) =~= chars.take(j) + chars.skip(j).take(k - j));
    lemma_encode_concat(chars.take(j), chars.skip(j).take(k - j));
}

/// Positions of characters are boundaries of the encoded text.
proof fn lemma_is_char_boundary(chars: Seq<char>, k: int)
    requires
        0 <= k <= chars.len(),
    ensures
        is_char_boundary(encode_utf8(chars), byte_index(chars, k) as int),
    decreases k,
{
    encode_utf8_valid_utf8(chars);
    if k == 0 {
        assert(chars.take(0) =~= Seq::<char>::empty());
    } else {
        let rest = chars.drop_first();
        lemma_is_char_boundary(rest, k - 1);
        encode_utf8_first_scalar(chars);
        let bytes = encode_utf8(chars);
        assert(pop_first_scalar(bytes) =~= encode_utf8(rest));
        assert(chars.skip(1) =~= rest);
        lemma_position_in_rest(chars, 1, k);
        lemma_next_position(chars, 0);
        assert(byte_index(chars, 0) == 0) by {
            assert(chars.take(0) =~= Seq::<char>::empty());
        }
        lemma_positions_ordered(chars, 0, k);
    }
}

/// Texts with the same encoding are the same.
proof fn lemma_encode_injective(a: Seq<char>, b: Seq<char>)
    requires
        encode_utf8(a) == encode_utf8(b),
    ensures
        a == b,
{
    encode_utf8_decode_utf8(a);
    encode_utf8_decode_utf8(b);
}

/// The number of bytes that a character takes in UTF-8.
pub fn len_utf8(c: char) -> (len: usize)
    ensures
        len == encode_scalar(c as u32).len(),
        1 <= len <= 4,
{
    let code: u32 = c as u32;
    if code < 0x80 {
        1
    } else if code < 0x800 {
        2
    } else if code < 0x10000 {
        3
    } else {
        4
    }
}

/// Splits a text at a byte position.
pub fn split<'s>(string: &'s str, index: usize) -> (parts: (&'s str, &'s str))
    requires
        on_boundary(string@, index as int),
    ensures
        parts.0@ == string@.take(char_index(string@, index as int)),
        parts.1@ == string@.skip(char_index(string@, index as int)),
{
    let ghost k = char_index(string@, index as int);
    proof {
        lemma_is_char_boundary(string@, k);
    }
    let parts = string.split_at(index);
    proof {
        lemma_encode_split(string@, k);
        let bytes = encode_utf8(string@);
        assert(bytes.subrange(0, index as int) =~= encode_utf8(string@.take(k)));
        assert(bytes.subrange(index as int, bytes.len() as int) =~= encode_utf8(string@.skip(k)));
        lemma_encode_injective(parts.0@, string@.take(k));
        lemma_encode_injective(parts.1@, string@.skip(k));
    }
    parts
}

/// The part of a text between two byte positions.
pub fn slice<'s>(string: &'s str, start: usize, end: usize) -> (part: &'s str)
    requires
        on_boundary(string@, start as int),
        on_boundary(string@, end as int),
        start <= end,
    ensures
        part@ == string@.subrange(
            char_index(string@, start as int),
            char_index(string@, end as int),
        ),
{
    let ghost j = char_index(string@, start as int);
    let ghost k = char_index(string@, end as int);
    proof {
        if k < j {
            lemma_positions_ordered(string@, k, j);
        }
    }
    let (front, _) = split(string, end);
    proof {
        assert(front@.take(j) =~= string@.take(j));
        lemma_char_index(front@, j, start as int);
    }
    let (_, part) = split(front, start);
    assert(part@ =~= string@.subrange(j, k));
    part
}

/// The number of bytes of a text, which is at most `usize::MAX`.
pub fn byte_len(string: &str) -> (len: usize)
    ensures
        len == encode_utf8(string@).len(),
{
    string.as_bytes().len()
}

} // verus!
