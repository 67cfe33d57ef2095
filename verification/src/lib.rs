//! Tokenization and parsing of typesetting source code into syntax trees.

pub mod brackets;
pub mod call_laws;
pub mod chars;
pub mod error;
pub mod func;
pub mod grammar;
pub mod ident;
pub mod lexer;
pub mod parser;
pub mod part_laws;
pub mod peekable;
pub mod source_laws;
pub mod stack;
pub mod syntax;
pub mod text;
pub mod token_laws;
pub mod tokens;
pub mod tree_laws;

pub use error::{ParseError, ParseResult};
pub use func::{FuncContext, ParseFunc, Scope};
pub use parser::{parse, try_parse};
pub use tokens::{tokenize, Tokens};
