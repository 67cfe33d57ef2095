//! Errors of the parser.

use vstd::prelude::*;
use vstd::string::*;

verus! {

/// The error type for parsing.
#[derive(Debug)]
pub struct ParseError(String);

/// The result type for parsing.
pub type ParseResult<T> = Result<T, ParseError>;

/// `String::from` on a string slice, which copies it into an owned string.
pub assume_specification<'a>[ <String as From<&'a str>>::from ](string: &str) -> (owned: String)
    ensures
        owned@ == string@,
;

/// The conversion `From::from` of a value into its own type, which returns it
/// unchanged.
pub assume_specification<V>[ <V as From<V>>::from ](value: V) -> (same: V)
    ensures
        same == value,
;

/// What the parser says of a function that the scope does not know.
pub open spec fn unknown_function_message(name: Seq<char>) -> Seq<char> {
    "unknown function: '"@ + name + "'"@
}

impl View for ParseError {
    type V = Seq<char>;

    open spec fn view(&self) -> Seq<char> {
        self.message()@
    }
}

impl ParseError {
    /// The message of the error.
    pub closed spec fn message(self) -> String {
        self.0
    }

    /// Create an error with a message.
    pub fn new<S: Into<String>>(message: S) -> (error: ParseError)
        ensures
            call_ensures(<S as Into<String>>::into, (message,), error.message()),
    {
        ParseError(message.into())
    }

    /// Create the error for a function that the scope does not know.
    pub fn unknown_function(name: &str) -> (error: ParseError)
        ensures
            error@ == unknown_function_message(name@),
    {
        let mut message = "unknown function: '".to_owned();
        message.append(name);
        message.append("'");
        ParseError::new(message)
    }

    /// The message of the error as text.
    pub fn to_string(&self) -> (message: String)
        ensures
            message@ == self@,
    {
        self.0.clone()
    }
}

} // verus!
