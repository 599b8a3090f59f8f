# interpreter_rs — a verified Lox scanner

The library (`src/`) scans Lox source text into tokens and error reports,
and is verified with Verus: every public function states what it returns,
and the laws of scanning are proved.

- `lexical.rs` — the lexical grammar as mathematics: one scanning step,
  and `lex`, the tokens and errors of scanning to the end.
- `scanner.rs` — `Scanner`, proved to produce exactly what `lex` says.
- `grammar.rs` — token kinds, keywords, tokens and their printed lines.
- `laws.rs` — what holds of every scan (an ending `EOF`, tokens as ordered
  slices of the source, lines in order, each lexeme rescanning to its
  token, the shape of every error, scanning two sources joined by a line
  feed as they scan apart).
- `error.rs` — the error type of the later stages and its messages.
- `cli.rs` — what the driver decides from a command and an input.
- `test_support.rs` — reading the expectations written in a test
  program's comments and judging a run against them.
- `text.rs`, `constants.rs` — decimal numerals, character strings, exit codes.

`app/` is the command-line program: argument handling, file I/O, the
printed value of number literals (floating point), and the copies of the
library's types that carry `strum` and `thiserror` derives.
