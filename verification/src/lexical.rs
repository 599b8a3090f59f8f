//! The lexical grammar of Lox as mathematics: what scanning a byte string
//! yields, one token (or skipped run, or error) at a time.

use vstd::prelude::*;

use crate::grammar::{word_kind, SpecLiteral, SpecToken, TokenType};
use crate::text::decimal;

verus! {

/// The byte at `i`, or `0` past either end (what a look-ahead sees there).
pub open spec fn byte_at(src: Seq<u8>, i: int) -> u8 {
    if 0 <= i < src.len() {
        src[i]
    } else {
        0
    }
}

/// An ASCII decimal digit.
pub open spec fn is_digit(c: u8) -> bool {
    48 <= c <= 57
}

/// An ASCII letter.
pub open spec fn is_alpha(c: u8) -> bool {
    (65 <= c <= 90) || (97 <= c <= 122)
}

/// A byte that may continue an identifier: a letter, a digit or `_`.
pub open spec fn is_ident_char(c: u8) -> bool {
    is_alpha(c) || is_digit(c) || c == 95
}

/// The classes of bytes that the scanner consumes in runs.
pub enum Class {
    /// Decimal digits.
    Digit,
    /// Bytes that continue an identifier.
    IdentChar,
    /// Anything but a line feed (the rest of a comment).
    NotNewline,
    /// Anything but a double quote (the body of a string).
    NotQuote,
}

/// Whether `c` belongs to class `k`.
pub open spec fn in_class(k: Class, c: u8) -> bool {
    match k {
        Class::Digit => is_digit(c),
        Class::IdentChar => is_ident_char(c),
        Class::NotNewline => c != 10,
        Class::NotQuote => c != 34,
    }
}

/// The end of the longest run of class `k` that starts at `i`: the first
/// index from `i` on that holds no byte of the class, or the end of `src`.
pub open spec fn run_end(src: Seq<u8>, i: int, k: Class) -> int
    decreases src.len() - i,
{
    if 0 <= i < src.len() && in_class(k, src[i]) {
        run_end(src, i + 1, k)
    } else {
        i
    }
}

/// The number of line feeds in `s`.
pub open spec fn newline_count(s: Seq<u8>) -> nat
    decreases s.len(),
{
    if s.len() == 0 {
        0
    } else {
        newline_count(s.drop_last()) + if s.last() == 10 {
            1nat
        } else {
            0nat
        }
    }
}

/// The line on which index `i` of `src` lies: one more than the number of
/// line feeds before it.
pub open spec fn line_at(src: Seq<u8>, i: int) -> nat {
    1 + newline_count(src.take(i))
}

/// The report of a byte that begins no token.
pub open spec fn unexpected_char_message(line: nat, c: u8) -> Seq<char> {
    "[line "@ + decimal(line) + "] Error: Unexpected character: "@ + seq![c as char] + "."@
}

/// The report of a string that the source ends inside.
pub open spec fn unterminated_string_message(line: nat) -> Seq<char> {
    "[line "@ + decimal(line) + "] Error: Unterminated string."@
}

/// The kind of a token made of the single byte `c` alone, if there is one.
pub open spec fn single_kind(c: u8) -> Option<TokenType> {
    if c == 40 {
        Some(TokenType::LEFT_PAREN)
    } else if c == 41 {
        Some(TokenType::RIGHT_PAREN)
    } else if c == 123 {
        Some(TokenType::LEFT_BRACE)
    } else if c == 125 {
        Some(TokenType::RIGHT_BRACE)
    } else if c == 44 {
        Some(TokenType::COMMA)
    } else if c == 46 {
        Some(TokenType::DOT)
    } else if c == 45 {
        Some(TokenType::MINUS)
    } else if c == 43 {
        Some(TokenType::PLUS)
    } else if c == 59 {
        Some(TokenType::SEMICOLON)
    } else if c == 42 {
        Some(TokenType::STAR)
    } else {
        None
    }
}

/// For `=`, `!`, `<` and `>`: the kind of the byte alone and the kind of the
/// byte followed by `=`.
pub open spec fn comparison_kinds(c: u8) -> Option<(TokenType, TokenType)> {
    if c == 61 {
        Some((TokenType::EQUAL, TokenType::EQUAL_EQUAL))
    } else if c == 33 {
        Some((TokenType::BANG, TokenType::BANG_EQUAL))
    } else if c == 60 {
        Some((TokenType::LESS, TokenType::LESS_EQUAL))
    } else if c == 62 {
        Some((TokenType::GREATER, TokenType::GREATER_EQUAL))
    } else {
        None
    }
}

/// Bytes skipped between tokens: space, carriage return, tab, line feed.
pub open spec fn is_blank(c: u8) -> bool {
    c == 32 || c == 13 || c == 9 || c == 10
}

/// The end of a number literal that starts at `pos`: its digits, then a `.`
/// and more digits if a digit follows the `.`.
pub open spec fn number_end(src: Seq<u8>, pos: int) -> int {
    let e = run_end(src, pos + 1, Class::Digit);
    if byte_at(src, e) == 46 && is_digit(byte_at(src, e + 1)) {
        run_end(src, e + 1, Class::Digit)
    } else {
        e
    }
}

/// The line reached at `end` from line `line` at `start`: `line` plus the
/// line feeds in between.
pub open spec fn line_after(src: Seq<u8>, start: int, end: int, line: nat) -> nat {
    line + newline_count(src.subrange(start, end))
}

/// The token of kind `kind` scanned from `src[start..end]`, where `start`
/// lies on line `line`; the token lies on the line where it ends.
pub open spec fn token_at(
    src: Seq<u8>,
    kind: TokenType,
    start: int,
    end: int,
    literal: Option<SpecLiteral>,
    line: nat,
) -> SpecToken {
    SpecToken {
        token_type: kind,
        lexeme: src.subrange(start, end),
        literal,
        line: line_after(src, start, end, line),
    }
}

/// What one scanning step at a position yields.
pub struct StepOut {
    /// The tokens it makes (none or one).
    pub tokens: Seq<SpecToken>,
    /// The errors it reports (none or one).
    pub errors: Seq<Seq<char>>,
    /// The position where the next step starts.
    pub next: int,
}

/// A step that makes the token `t` and goes on at `next`.
pub open spec fn emit(t: SpecToken, next: int) -> StepOut {
    StepOut { tokens: seq![t], errors: seq![], next }
}

/// A step that makes nothing and goes on at `next`.
pub open spec fn skip(next: int) -> StepOut {
    StepOut { tokens: seq![], errors: seq![], next }
}

/// A step that reports `e` and goes on at `next`.
pub open spec fn report(e: Seq<char>, next: int) -> StepOut {
    StepOut { tokens: seq![], errors: seq![e], next }
}

/// One scanning step at `pos` (which lies inside `src`), counting `pos` as
/// lying on line `line`: the longest lexeme that starts with the byte there,
/// whitespace or a comment skipped, or an error.
pub open spec fn step_from(src: Seq<u8>, pos: int, line: nat) -> StepOut {
    let c = src[pos];
    if single_kind(c) is Some {
        emit(token_at(src, single_kind(c)->0, pos, pos + 1, None, line), pos + 1)
    } else if comparison_kinds(c) is Some {
        let (alone, with_equal) = comparison_kinds(c)->0;
        if byte_at(src, pos + 1) == 61 {
            emit(token_at(src, with_equal, pos, pos + 2, None, line), pos + 2)
        } else {
            emit(token_at(src, alone, pos, pos + 1, None, line), pos + 1)
        }
    } else if c == 47 {
        if byte_at(src, pos + 1) == 47 {
            skip(run_end(src, pos + 2, Class::NotNewline))
        } else {
            emit(token_at(src, TokenType::SLASH, pos, pos + 1, None, line), pos + 1)
        }
    } else if is_blank(c) {
        skip(pos + 1)
    } else if c == 34 {
        let e = run_end(src, pos + 1, Class::NotQuote);
        if e >= src.len() {
            report(
                unterminated_string_message(line_after(src, pos, src.len() as int, line)),
                src.len() as int,
            )
        } else {
            emit(
                token_at(
                    src,
                    TokenType::STRING,
                    pos,
                    e + 1,
                    Some(SpecLiteral::Str(src.subrange(pos + 1, e))),
                    line,
                ),
                e + 1,
            )
        }
    } else if is_digit(c) {
        let e = number_end(src, pos);
        emit(
            token_at(src, TokenType::NUMBER, pos, e, Some(SpecLiteral::Number(src.subrange(pos, e))), line),
            e,
        )
    } else if is_alpha(c) || c == 95 {
        let e = run_end(src, pos + 1, Class::IdentChar);
        emit(token_at(src, word_kind(src.subrange(pos, e)), pos, e, None, line), e)
    } else {
        report(unexpected_char_message(line, c), pos + 1)
    }
}

/// One scanning step at `pos`, on the line where `pos` lies.
pub open spec fn scan_step(src: Seq<u8>, pos: int) -> StepOut {
    step_from(src, pos, line_at(src, pos))
}

/// A run of a class that starts inside `src` ends inside it or at its end,
/// holds only bytes of the class, and stops at one that is not.
pub proof fn lemma_run_end(src: Seq<u8>, i: int, k: Class)
    requires
        0 <= i <= src.len(),
    ensures
        i <= run_end(src, i, k) <= src.len(),
        forall|j: int| i <= j < run_end(src, i, k) ==> in_class(k, #[trigger] src[j]),
        run_end(src, i, k) < src.len() ==> !in_class(k, src[run_end(src, i, k)]),
    decreases src.len() - i,
{
    if i < src.len() && in_class(k, src[i]) {
        lemma_run_end(src, i + 1, k);
    }
}

/// Each step moves forward and stays within `src`.
pub proof fn lemma_step_advances(src: Seq<u8>, pos: int)
    requires
        0 <= pos < src.len(),
    ensures
        forall|line: nat| pos < #[trigger] step_from(src, pos, line).next <= src.len(),
        pos < scan_step(src, pos).next <= src.len(),
{
    let c = src[pos];
    lemma_run_end(src, pos + 1, Class::Digit);
    lemma_run_end(src, pos + 1, Class::IdentChar);
    lemma_run_end(src, pos + 1, Class::NotQuote);
    if c == 47 && byte_at(src, pos + 1) == 47 {
        lemma_run_end(src, pos + 2, Class::NotNewline);
    }
    if is_digit(c) {
        let e = run_end(src, pos + 1, Class::Digit);
        if byte_at(src, e) == 46 && is_digit(byte_at(src, e + 1)) {
            lemma_run_end(src, e + 1, Class::Digit);
        }
    }
}

/// A byte string holds no more line feeds than bytes.
pub proof fn lemma_newline_count_bound(s: Seq<u8>)
    ensures
        newline_count(s) <= s.len(),
    decreases s.len(),
{
    if s.len() > 0 {
        lemma_newline_count_bound(s.drop_last());
    }
}

/// Moving past one byte moves to the next line exactly when that byte is a
/// line feed; and no line lies past the end of the source plus one.
pub proof fn lemma_line_step(src: Seq<u8>, i: int)
    requires
        0 <= i < src.len(),
    ensures
        line_at(src, i + 1) == line_at(src, i) + if src[i] == 10 {
            1nat
        } else {
            0nat
        },
        line_at(src, i + 1) <= i + 2,
{
    assert(src.take(i + 1).drop_last() =~= src.take(i));
    lemma_newline_count_bound(src.take(i + 1));
}

/// The line at `j` is the line at `i` plus the line feeds in between.
pub proof fn lemma_newlines_split(src: Seq<u8>, i: int, j: int)
    requires
        0 <= i <= j <= src.len(),
    ensures
        line_at(src, j) == line_at(src, i) + newline_count(src.subrange(i, j)),
        line_after(src, i, j, line_at(src, i)) == line_at(src, j),
    decreases j - i,
{
    if i == j {
        assert(src.subrange(i, j) =~= Seq::<u8>::empty());
    } else {
        lemma_newlines_split(src, i, j - 1);
        lemma_line_step(src, j - 1);
        assert(src.subrange(i, j).drop_last() =~= src.subrange(i, j - 1));
    }
}

/// Lines only grow along the source.
pub proof fn lemma_line_monotone(src: Seq<u8>, i: int, j: int)
    requires
        0 <= i <= j <= src.len(),
    ensures
        line_at(src, i) <= line_at(src, j),
    decreases j - i,
{
    if i < j {
        lemma_line_step(src, j - 1);
        lemma_line_monotone(src, i, j - 1);
    }
}

/// What scanning from a position to the end yields.
pub struct LexOut {
    pub tokens: Seq<SpecToken>,
    pub errors: Seq<Seq<char>>,
}

/// The tokens and errors of scanning `src` from `pos` to its end, step by
/// step, with every line counted `off` higher than it lies in `src`.
pub open spec fn lex_shifted(src: Seq<u8>, pos: int, off: nat) -> LexOut
    decreases src.len() - pos,
    via lex_decreases
{
    if 0 <= pos < src.len() {
        let s = step_from(src, pos, line_at(src, pos) + off);
        let rest = lex_shifted(src, s.next, off);
        LexOut { tokens: s.tokens + rest.tokens, errors: s.errors + rest.errors }
    } else {
        LexOut { tokens: seq![], errors: seq![] }
    }
}

#[via_fn]
proof fn lex_decreases(src: Seq<u8>, pos: int, off: nat) {
    if 0 <= pos < src.len() {
        lemma_step_advances(src, pos);
    }
}

/// The tokens and errors of scanning `src` from `pos` to its end, step by
/// step.
pub open spec fn lex(src: Seq<u8>, pos: int) -> LexOut {
    lex_shifted(src, pos, 0)
}

/// The token that ends every scan: kind `EOF`, an empty lexeme, on the last
/// line of `src`.
pub open spec fn eof_token(src: Seq<u8>) -> SpecToken {
    SpecToken {
        token_type: TokenType::EOF,
        lexeme: seq![],
        literal: None,
        line: line_at(src, src.len() as int),
    }
}

/// The tokens of `src`: those of scanning it from the start, then `EOF`.
pub open spec fn scanned_tokens(src: Seq<u8>) -> Seq<SpecToken> {
    lex(src, 0).tokens.push(eof_token(src))
}

/// The errors that scanning `src` reports, in order.
pub open spec fn scanned_errors(src: Seq<u8>) -> Seq<Seq<char>> {
    lex(src, 0).errors
}

} // verus!
