# ssg

A small static-site generator. Page text is copied through verbatim; `{{ ... }}`
blocks are collected for execution, and `\{`, `\}` and `\\` stand for the
character after the backslash. Blocks are lexed into tokens with their line and
column, and the parser builds expressions from those tokens.

Layout:

- `src/` — the library, verified with Verus:
  - `ssg.rs` — the page runner (a state machine over grapheme clusters) and its
    laws: text outside blocks is copied verbatim (a `{` or `\` that starts
    nothing included), escapes give back the escaped text, and block text is
    only held inside a block.
  - `block/lex.rs` — the block lexer (identifiers, keywords, strings, integers
    with exponents, float literals kept as text, symbols, comments), with the
    laws that lexing only appends tokens, each with exactly one place, and that
    lexing from a fresh lexer ends with one `Eof` and places that never go back.
  - `block/parse.rs` — primary expressions.
  - `block.rs` — the first, smaller block lexer; `exe.rs` — the first runner.
  - `num.rs` — `u64` parsing and the float-literal syntax; `text.rs` — character
    classes, line splitting, decimal notation; `segment.rs` — grapheme
    segmentation (`unicode-segmentation`). The trusted parts are these two
    calls, `String::push`, and the declaration of `std::io::Error`.
- `app/` — the program, and running a page from a reader to a writer.
- `tests/` — tests of the library.
