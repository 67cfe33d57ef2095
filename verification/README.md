# typeset_parsing

Tokenization and parsing of typesetting source code into syntax trees, verified
with Verus.

Source code is text with `**bold**`, `__italic__` and `$math$` parts, comments
that go on from a `#` to the end of the line, and functions that are invoked as `[name]` or
`[name][body]`. The functions are supplied by the users of the library: a `Scope`
has a parser for each of them.

| Module | Contents |
| --- | --- |
| `syntax` | Tokens and syntax trees, with their mathematical models |
| `text`, `chars` | Byte positions in UTF-8 text, characters with lookahead |
| `lexer` | The lexical structure of source code, as specifications |
| `stack`, `tokens`, `peekable` | The tokenizer |
| `grammar` | The syntactic structure of source code, as specifications |
| `brackets`, `ident`, `error`, `func`, `parser` | The parser |
| `token_laws`, `tree_laws`, `part_laws` | What holds of all tokens, of all syntax trees, and of source code that is put together from parts |

The tokenizer keeps its states in a `SmallVec`, and identifiers go by the tables
of `unicode-xid`. What is claimed of these crates stands in `stack` and `ident`;
what is claimed of the standard library, beyond what vstd states, in `error`.

`parse` requires that the parser has a rule for every token that it may come to.
This is so unless a function header is started in a comment and not finished
there. `try_parse` requires nothing: it parses as far as there are rules, and
returns `None` if it comes to a token without one.

`app` holds what needs traits that verified types cannot have: iteration over
tokens, a standard error type and scopes for functions of any type.
