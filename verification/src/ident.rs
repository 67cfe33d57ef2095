//! Unicode identifiers.

use unicode_xid::UnicodeXID;
use vstd::prelude::*;

verus! {

/// Whether an ASCII character is a letter.
pub open spec fn is_ascii_letter(c: char) -> bool {
    'a' <= c <= 'z' || 'A' <= c <= 'Z'
}

/// Whether an ASCII character is a decimal digit.
pub open spec fn is_ascii_digit(c: char) -> bool {
    '0' <= c <= '9'
}

/// Whether a character has the Unicode property `XID_Start`.
pub uninterp spec fn xid_start(c: char) -> bool;

/// Whether a character has the Unicode property `XID_Continue`.
pub uninterp spec fn xid_continue(c: char) -> bool;

/// Whether a character beyond the ASCII ones separates lines.
pub open spec fn is_line_separator(c: char) -> bool {
    c == '\u{0085}' || c == '\u{2028}' || c == '\u{2029}'
}

/// Whether an identifier can start with this character.
pub open spec fn starts_identifier(c: char) -> bool {
    if c <= '\u{7f}' {
        is_ascii_letter(c)
    } else {
        !is_line_separator(c) && xid_start(c)
    }
}

/// Whether an identifier can go on with this character.
pub open spec fn continues_identifier(c: char) -> bool {
    if c <= '\u{7f}' {
        is_ascii_letter(c) || is_ascii_digit(c) || c == '_'
    } else {
        !is_line_separator(c) && xid_continue(c)
    }
}

/// Whether a word is a Unicode identifier.
pub open spec fn identifier(word: Seq<char>) -> bool {
    &&& word.len() > 0
    &&& starts_identifier(word[0])
    &&& forall|i: int| 1 <= i < word.len() ==> continues_identifier(#[trigger] word[i])
}

/// Calls `UnicodeXID::is_xid_start`. Of the ASCII characters it holds of the
/// letters; beyond them it looks the character up in the table of the Unicode
/// property `XID_Start`, and what it finds there goes by the name [`xid_start`].
/// The table has no line separators.
#[verifier::external_body]
pub(crate) fn is_xid_start(c: char) -> (starts: bool)
    ensures
        c <= '\u{7f}' ==> starts == is_ascii_letter(c),
        c > '\u{7f}' ==> starts == xid_start(c),
        is_line_separator(c) ==> !starts,
{
    UnicodeXID::is_xid_start(c)
}

/// Calls `UnicodeXID::is_xid_continue`. Of the ASCII characters it holds of the
/// letters, the digits and the underscore; beyond them it looks the character
/// up in the table of the Unicode property `XID_Continue`, and what it finds
/// there goes by the name [`xid_continue`]. The table has no line separators.
#[verifier::external_body]
pub(crate) fn is_xid_continue(c: char) -> (continues: bool)
    ensures
        c <= '\u{7f}' ==> continues == (is_ascii_letter(c) || is_ascii_digit(c) || c == '_'),
        c > '\u{7f}' ==> continues == xid_continue(c),
        is_line_separator(c) ==> !continues,
{
    UnicodeXID::is_xid_continue(c)
}

/// Whether this word is a valid unicode identifier.
pub fn is_identifier(string: &str) -> (valid: bool)
    ensures
        valid == identifier(string@),
{
    let mut chars = string.chars();
    match chars.next() {
        Some(c) => {
            if !is_xid_start(c) {
                return false;
            }
        },
        None => return false,
    }
    let ghost mut i: int = 1;
    loop
        invariant
            1 <= i <= string@.len(),
            vstd::std_specs::iter::IteratorSpec::remaining(&chars) == string@.skip(i),
            starts_identifier(string@[0]),
            forall|j: int| 1 <= j < i ==> continues_identifier(#[trigger] string@[j]),
        ensures
            i == string@.len(),
        decreases string@.len() - i,
    {
        match chars.next() {
            Some(c) => {
                assert(c == string@[i]);
                if !is_xid_continue(c) {
                    return false;
                }
                proof {
                    i = i + 1;
                }
            },
            None => break,
        }
    }
    true
}

} // verus!
