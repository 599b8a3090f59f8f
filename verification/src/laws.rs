//! What holds of every scan: where the tokens come from, how they end, on
//! which lines they lie, and what the errors are.

use vstd::prelude::*;

use crate::grammar::{SpecToken, TokenType};
use crate::lexical::{
    byte_at, comparison_kinds, emit, eof_token, in_class, is_alpha, is_blank, is_digit, lemma_line_monotone, lemma_line_step,
    lemma_newlines_split, lemma_run_end, lemma_step_advances, lex, lex_shifted, line_after, line_at, step_from, newline_count, number_end, run_end, scan_step,
    scanned_errors, scanned_tokens, single_kind, unexpected_char_message,
    unterminated_string_message, Class, LexOut,
};

verus! {

/// `spans[i]` is where `toks[i]` was scanned from: a non-empty slice of
/// `src` at or after `lo`, equal to the lexeme, on whose last line the
/// token lies; and the slices come in order without overlapping.
pub open spec fn spans_of(src: Seq<u8>, toks: Seq<SpecToken>, spans: Seq<(int, int)>, lo: int) -> bool {
    &&& spans.len() == toks.len()
    &&& forall|i: int|
        #![trigger spans[i]]
        0 <= i < spans.len() ==> {
            &&& lo <= spans[i].0 < spans[i].1 <= src.len()
            &&& toks[i].lexeme == src.subrange(spans[i].0, spans[i].1)
            &&& toks[i].line == line_at(src, spans[i].1)
        }
    &&& forall|i: int, j: int|
        #![trigger spans[i], spans[j]]
        0 <= i < j < spans.len() ==> spans[i].1 <= spans[j].0
}

/// An ASCII letter or `_`: a byte that starts a word.
pub open spec fn starts_word(c: u8) -> bool {
    (65 <= c <= 90) || (97 <= c <= 122) || c == 95
}

/// An ASCII letter, digit or `_`: a byte that continues a word.
pub open spec fn continues_word(c: u8) -> bool {
    (48 <= c <= 57) || (65 <= c <= 90) || (97 <= c <= 122) || c == 95
}

/// Every token that starts with a letter or `_` is the longest run of
/// letters, digits and `_` from its start: all its bytes continue a word,
/// and the byte after it (if any) does not.
pub open spec fn words_are_longest(src: Seq<u8>, spans: Seq<(int, int)>) -> bool {
    forall|i: int|
        #![trigger spans[i]]
        0 <= i < spans.len() && 0 <= spans[i].0 < src.len() && starts_word(src[spans[i].0]) ==> {
            &&& forall|j: int| spans[i].0 <= j < spans[i].1 ==> continues_word(#[trigger] src[j])
            &&& spans[i].1 < src.len() ==> !continues_word(src[spans[i].1])
        }
}

/// A step at a byte that starts a word makes one token, of the longest run
/// of word bytes from there.
proof fn lemma_step_word(src: Seq<u8>, pos: int)
    requires
        0 <= pos < src.len(),
        starts_word(src[pos]),
    ensures
        scan_step(src, pos).tokens.len() == 1,
        forall|j: int| pos <= j < scan_step(src, pos).next ==> continues_word(#[trigger] src[j]),
        scan_step(src, pos).next < src.len() ==> !continues_word(src[scan_step(src, pos).next]),
{
    lemma_run_end(src, pos + 1, Class::IdentChar);
}

/// A step that makes a token makes it from the bytes it moves past, on the
/// line where it stops; and no step makes an `EOF` token.
proof fn lemma_step_token(src: Seq<u8>, pos: int)
    requires
        0 <= pos < src.len(),
    ensures
        scan_step(src, pos).tokens.len() <= 1,
        scan_step(src, pos).tokens.len() == 1 ==> {
            let t = scan_step(src, pos).tokens[0];
            &&& t.lexeme == src.subrange(pos, scan_step(src, pos).next)
            &&& t.line == line_at(src, scan_step(src, pos).next)
            &&& t.token_type != TokenType::EOF
        },
{
    lemma_step_advances(src, pos);
    lemma_newlines_split(src, pos, scan_step(src, pos).next);
}

/// The spans of the tokens of scanning from `pos`.
proof fn lemma_lex_spans(src: Seq<u8>, pos: int) -> (spans: Seq<(int, int)>)
    requires
        0 <= pos,
    ensures
        spans_of(src, lex(src, pos).tokens, spans, pos),
        words_are_longest(src, spans),
    decreases src.len() - pos,
{
    if pos < src.len() {
        let s = scan_step(src, pos);
        lemma_step_advances(src, pos);
        lemma_step_token(src, pos);
        if starts_word(src[pos]) {
            lemma_step_word(src, pos);
        }
        let rest = lemma_lex_spans(src, s.next);
        let toks = lex(src, pos).tokens;
        let first: Seq<(int, int)> = if s.tokens.len() == 1 {
            seq![(pos, s.next)]
        } else {
            seq![]
        };
        let spans = first + rest;
        assert(toks == s.tokens + lex(src, s.next).tokens);
        assert forall|i: int| #![trigger spans[i]] 0 <= i < spans.len() implies {
            &&& pos <= spans[i].0 < spans[i].1 <= src.len()
            &&& toks[i].lexeme == src.subrange(spans[i].0, spans[i].1)
            &&& toks[i].line == line_at(src, spans[i].1)
        } by {
            if i < first.len() {
                assert(spans[i] == (pos, s.next));
                assert(toks[i] == s.tokens[0]);
            } else {
                assert(spans[i] == rest[i - first.len()]);
                assert(toks[i] == lex(src, s.next).tokens[i - first.len()]);
            }
        }
        assert forall|i: int, j: int| #![trigger spans[i], spans[j]] 0 <= i < j < spans.len() implies spans[i].1
            <= spans[j].0 by {
            if j < first.len() {
            } else if i < first.len() {
                assert(spans[i] == (pos, s.next));
                assert(spans[j] == rest[j - first.len()]);
            } else {
                assert(spans[i] == rest[i - first.len()]);
                assert(spans[j] == rest[j - first.len()]);
            }
        }
        assert forall|i: int|
            #![trigger spans[i]]
            0 <= i < spans.len() && 0 <= spans[i].0 < src.len() && starts_word(src[spans[i].0]) implies {
            &&& forall|j: int| spans[i].0 <= j < spans[i].1 ==> continues_word(#[trigger] src[j])
            &&& spans[i].1 < src.len() ==> !continues_word(src[spans[i].1])
        } by {
            if i < first.len() {
                assert(spans[i] == (pos, s.next));
            } else {
                assert(spans[i] == rest[i - first.len()]);
            }
        }
        spans
    } else {
        seq![]
    }
}

/// No token of scanning from `pos` is an `EOF` token.
proof fn lemma_lex_no_eof(src: Seq<u8>, pos: int)
    requires
        0 <= pos,
    ensures
        forall|i: int|
            0 <= i < lex(src, pos).tokens.len() ==> #[trigger] lex(src, pos).tokens[i].token_type
                != TokenType::EOF,
    decreases src.len() - pos,
{
    if pos < src.len() {
        let s = scan_step(src, pos);
        lemma_step_advances(src, pos);
        lemma_step_token(src, pos);
        lemma_lex_no_eof(src, s.next);
        let toks = lex(src, pos).tokens;
        assert(toks == s.tokens + lex(src, s.next).tokens);
        assert forall|i: int| 0 <= i < toks.len() implies #[trigger] toks[i].token_type
            != TokenType::EOF by {
            if i < s.tokens.len() {
                assert(toks[i] == s.tokens[i]);
            } else {
                assert(toks[i] == lex(src, s.next).tokens[i - s.tokens.len()]);
            }
        }
    }
}

/// Every scan ends with one `EOF` token, on the last line of the source:
/// one more than the number of line feeds in it. No other token is `EOF`.
pub proof fn law_scan_ends_with_eof(src: Seq<u8>)
    ensures
        scanned_tokens(src).len() >= 1,
        scanned_tokens(src).last().token_type == TokenType::EOF,
        scanned_tokens(src).last().lexeme.len() == 0,
        scanned_tokens(src).last().line == 1 + newline_count(src),
        forall|i: int|
            0 <= i < scanned_tokens(src).len() - 1 ==> #[trigger] scanned_tokens(src)[i].token_type
                != TokenType::EOF,
{
    assert(src.take(src.len() as int) =~= src);
    lemma_lex_no_eof(src, 0);
    let toks = scanned_tokens(src);
    assert forall|i: int| 0 <= i < toks.len() - 1 implies #[trigger] toks[i].token_type
        != TokenType::EOF by {
        assert(toks[i] == lex(src, 0).tokens[i]);
    }
}

/// Every token but the final `EOF` is a non-empty slice of the source, the
/// slices come in source order without overlapping, and each token lies on
/// the line where its slice ends.
pub proof fn law_tokens_are_ordered_slices(src: Seq<u8>)
    ensures
        exists|spans: Seq<(int, int)>| spans_of(src, scanned_tokens(src).drop_last(), spans, 0),
{
    let spans = lemma_lex_spans(src, 0);
    assert(scanned_tokens(src).drop_last() =~= lex(src, 0).tokens);
    assert(spans_of(src, scanned_tokens(src).drop_last(), spans, 0));
}

/// Every token that starts with an ASCII letter or `_` (an identifier or a
/// keyword) is the longest run of ASCII letters, digits and `_` from its
/// start: `_` and digits continue it, and it stops only at a byte that
/// cannot continue it, or at the end of the source.
pub proof fn law_words_are_longest_runs(src: Seq<u8>)
    ensures
        exists|spans: Seq<(int, int)>|
            spans_of(src, scanned_tokens(src).drop_last(), spans, 0) && words_are_longest(src, spans),
{
    let spans = lemma_lex_spans(src, 0);
    assert(scanned_tokens(src).drop_last() =~= lex(src, 0).tokens);
    assert(spans_of(src, scanned_tokens(src).drop_last(), spans, 0));
}

/// Blanks make nothing: where a step starts at a space, tab, carriage
/// return or line feed, scanning from there yields exactly what scanning
/// from the next byte does.
pub proof fn law_blanks_are_skipped(src: Seq<u8>, pos: int)
    requires
        0 <= pos < src.len(),
        src[pos] == 32 || src[pos] == 9 || src[pos] == 13 || src[pos] == 10,
    ensures
        scan_step(src, pos).tokens.len() == 0,
        scan_step(src, pos).errors.len() == 0,
        scan_step(src, pos).next == pos + 1,
        lex(src, pos) == lex(src, pos + 1),
{
    assert(lex(src, pos).tokens =~= lex(src, pos + 1).tokens);
    assert(lex(src, pos).errors =~= lex(src, pos + 1).errors);
}

/// A `//` comment runs to the next line feed or to the end of the source:
/// where a step starts at `//`, scanning from there yields exactly what
/// scanning from the first line feed after it (or from the end) does,
/// whatever bytes (quotes too) the comment holds.
pub proof fn law_comment_runs_to_line_end(src: Seq<u8>, pos: int, q: int)
    requires
        0 <= pos,
        pos + 2 <= q <= src.len(),
        src[pos] == 47,
        src[pos + 1] == 47,
        forall|j: int| pos + 2 <= j < q ==> src[j] != 10,
        q == src.len() || src[q] == 10,
    ensures
        scan_step(src, pos).tokens.len() == 0,
        scan_step(src, pos).errors.len() == 0,
        scan_step(src, pos).next == q,
        lex(src, pos) == lex(src, q),
{
    lemma_run_end(src, pos + 2, Class::NotNewline);
    let e = run_end(src, pos + 2, Class::NotNewline);
    if e < q {
        assert(src[e] != 10);
    }
    if q < e {
        assert(src[q] != 10);
    }
    assert(lex(src, pos).tokens =~= lex(src, q).tokens);
    assert(lex(src, pos).errors =~= lex(src, q).errors);
}

/// Tokens come in line order: no token lies on an earlier line than one
/// before it.
pub proof fn law_lines_never_decrease(src: Seq<u8>)
    ensures
        forall|i: int, j: int|
            0 <= i <= j < scanned_tokens(src).len() ==> #[trigger] scanned_tokens(src)[i].line
                <= #[trigger] scanned_tokens(src)[j].line,
{
    let spans = lemma_lex_spans(src, 0);
    let toks = scanned_tokens(src);
    let body = lex(src, 0).tokens;
    assert forall|i: int, j: int| 0 <= i <= j < toks.len() implies #[trigger] toks[i].line
        <= #[trigger] toks[j].line by {
        if j == toks.len() - 1 {
            if i < j {
                assert(toks[i] == body[i]);
                assert(spans[i].1 <= src.len());
                lemma_line_monotone(src, spans[i].1, src.len() as int);
            }
        } else if i < j {
            assert(toks[i] == body[i]);
            assert(toks[j] == body[j]);
            assert(spans[i].1 <= spans[j].0);
            lemma_line_monotone(src, spans[i].1, spans[j].1);
        }
    }
}

/// A run measured inside a slice of `src` ends where it ends in `src`,
/// when it ends inside the slice.
proof fn lemma_run_end_in_slice(src: Seq<u8>, a: int, b: int, i: int, k: Class)
    requires
        0 <= a <= i <= b <= src.len(),
        run_end(src, i, k) <= b,
    ensures
        run_end(src.subrange(a, b), i - a, k) == run_end(src, i, k) - a,
    decreases b - i,
{
    lemma_run_end(src, i, k);
    if i < src.len() && in_class(k, src[i]) {
        lemma_run_end(src, i + 1, k);
        lemma_run_end_in_slice(src, a, b, i + 1, k);
    }
}

/// The token `t` as scanning its lexeme alone yields it: the same kind,
/// lexeme and literal, on the line where the lexeme ends.
pub open spec fn rescanned(t: SpecToken) -> SpecToken {
    SpecToken {
        token_type: t.token_type,
        lexeme: t.lexeme,
        literal: t.literal,
        line: line_at(t.lexeme, t.lexeme.len() as int),
    }
}

/// Scanning the lexeme of `t` alone yields `t` (see `rescanned`) and no
/// error.
pub open spec fn rescans_to_itself(t: SpecToken) -> bool {
    lex(t.lexeme, 0) == (LexOut { tokens: seq![rescanned(t)], errors: seq![] })
}

/// The token a step makes is what scanning its lexeme alone yields.
proof fn lemma_step_rescan(src: Seq<u8>, pos: int)
    requires
        0 <= pos < src.len(),
        scan_step(src, pos).tokens.len() == 1,
    ensures
        rescans_to_itself(scan_step(src, pos).tokens[0]),
{
    let s = scan_step(src, pos);
    lemma_step_advances(src, pos);
    lemma_step_token(src, pos);
    let t = s.tokens[0];
    let lx = t.lexeme;
    let n = s.next;
    let c = src[pos];
    assert(lx == src.subrange(pos, n));
    assert(lx.len() == n - pos);
    assert(lx[0] == c);
    let r = rescanned(t);
    // The step at the start of the lexeme covers all of it.
    assert(scan_step(lx, 0) == emit(r, lx.len() as int)) by {
        assert(lx.subrange(0, lx.len() as int) =~= lx);
        if single_kind(c) is Some {
        } else if comparison_kinds(c) is Some {
            if byte_at(src, pos + 1) == 61 {
                assert(lx[1] == src[pos + 1]);
            }
        } else if c == 47 {
        } else if is_blank(c) {
        } else if c == 34 {
            let e = run_end(src, pos + 1, Class::NotQuote);
            lemma_run_end(src, pos + 1, Class::NotQuote);
            lemma_run_end_in_slice(src, pos, n, pos + 1, Class::NotQuote);
            assert(lx.subrange(1, e - pos) =~= src.subrange(pos + 1, e));
        } else if is_digit(c) {
            let e1 = run_end(src, pos + 1, Class::Digit);
            lemma_run_end(src, pos + 1, Class::Digit);
            if byte_at(src, e1) == 46 && is_digit(byte_at(src, e1 + 1)) {
                lemma_run_end(src, e1 + 1, Class::Digit);
            }
            lemma_run_end_in_slice(src, pos, n, pos + 1, Class::Digit);
            if byte_at(src, e1) == 46 && is_digit(byte_at(src, e1 + 1)) {
                lemma_run_end_in_slice(src, pos, n, e1 + 1, Class::Digit);
                assert(lx[e1 - pos] == src[e1]);
                assert(lx[e1 - pos + 1] == src[e1 + 1]);
            }
            assert(number_end(lx, 0) == n - pos);
        } else if is_alpha(c) || c == 95 {
            lemma_run_end(src, pos + 1, Class::IdentChar);
            lemma_run_end_in_slice(src, pos, n, pos + 1, Class::IdentChar);
        }
    }
    assert(lex(lx, lx.len() as int).tokens.len() == 0);
    assert(lex(lx, 0).tokens =~= seq![r]);
    assert(lex(lx, 0).errors =~= Seq::<Seq<char>>::empty());
}

/// The lexeme of every token but the final `EOF`, scanned alone, yields
/// exactly that token (kind, lexeme and literal), on the line where the
/// lexeme ends, and no error: each token is the longest lexeme at its start.
pub proof fn law_lexeme_rescans_to_its_token(src: Seq<u8>)
    ensures
        forall|i: int|
            0 <= i < scanned_tokens(src).len() - 1 ==> rescans_to_itself(
                #[trigger] scanned_tokens(src)[i],
            ),
{
    lemma_lex_rescan(src, 0);
    let toks = scanned_tokens(src);
    assert forall|i: int| 0 <= i < toks.len() - 1 implies rescans_to_itself(#[trigger] toks[i]) by {
        assert(toks[i] == lex(src, 0).tokens[i]);
    }
}

/// Every token of scanning from `pos` rescans to itself.
proof fn lemma_lex_rescan(src: Seq<u8>, pos: int)
    requires
        0 <= pos,
    ensures
        forall|i: int|
            0 <= i < lex(src, pos).tokens.len() ==> rescans_to_itself(
                #[trigger] lex(src, pos).tokens[i],
            ),
    decreases src.len() - pos,
{
    if pos < src.len() {
        let s = scan_step(src, pos);
        lemma_step_advances(src, pos);
        lemma_step_token(src, pos);
        lemma_lex_rescan(src, s.next);
        if s.tokens.len() == 1 {
            lemma_step_rescan(src, pos);
        }
        let toks = lex(src, pos).tokens;
        assert(toks == s.tokens + lex(src, s.next).tokens);
        assert forall|i: int| 0 <= i < toks.len() implies rescans_to_itself(#[trigger] toks[i]) by {
            if i < s.tokens.len() {
                assert(toks[i] == s.tokens[0]);
            } else {
                assert(toks[i] == lex(src, s.next).tokens[i - s.tokens.len()]);
            }
        }
    }
}

/// A byte that begins a token, a comment or a blank.
pub open spec fn begins_lexeme(c: u8) -> bool {
    ||| single_kind(c) is Some
    ||| comparison_kinds(c) is Some
    ||| c == 47
    ||| is_blank(c)
    ||| c == 34
    ||| is_digit(c)
    ||| is_alpha(c)
    ||| c == 95
}

/// Error `i` of `errs`, from scanning `src` from `lo` on with lines counted
/// `off` higher, reports a byte at or after `lo` that begins nothing, on
/// that byte's line; or it is the last error and reports a string left open
/// at the end of the source, on the last line.
pub open spec fn is_scan_error(src: Seq<u8>, errs: Seq<Seq<char>>, i: int, lo: int, off: nat) -> bool {
    ||| exists|p: int|
        lo <= p < src.len() && !begins_lexeme(src[p]) && errs[i] == #[trigger] unexpected_char_message(
            line_at(src, p) + off,
            src[p],
        )
    ||| i == errs.len() - 1 && errs[i] == unterminated_string_message(
        line_at(src, src.len() as int) + off,
    )
}

/// The errors of scanning from `pos`.
proof fn lemma_lex_errors(src: Seq<u8>, pos: int, off: nat)
    requires
        0 <= pos,
    ensures
        forall|i: int|
            0 <= i < lex_shifted(src, pos, off).errors.len() ==> #[trigger] is_scan_error(
                src,
                lex_shifted(src, pos, off).errors,
                i,
                pos,
                off,
            ),
    decreases src.len() - pos,
{
    if pos < src.len() {
        let s = step_from(src, pos, line_at(src, pos) + off);
        lemma_step_advances(src, pos);
        lemma_newlines_split(src, pos, src.len() as int);
        lemma_lex_errors(src, s.next, off);
        let errs = lex_shifted(src, pos, off).errors;
        let rest = lex_shifted(src, s.next, off).errors;
        assert(errs == s.errors + rest);
        assert forall|i: int| 0 <= i < errs.len() implies #[trigger] is_scan_error(
            src,
            errs,
            i,
            pos,
            off,
        ) by {
            if i < s.errors.len() {
                assert(errs[i] == s.errors[0]);
                if s.next == src.len() {
                    assert(rest.len() == 0);
                }
                if errs[i] == unexpected_char_message(line_at(src, pos) + off, src[pos]) {
                    assert(pos <= pos < src.len());
                }
            } else {
                assert(errs[i] == rest[i - s.errors.len()]);
                assert(is_scan_error(src, rest, i - s.errors.len(), s.next, off));
                if i - s.errors.len() == rest.len() - 1 {
                    assert(i == errs.len() - 1);
                }
            }
        }
    }
}

/// Every error of a scan reports either a byte that begins no token,
/// comment or blank, on the line of that byte, or, as the very last error,
/// a string that the source ends inside, on the last line.
pub proof fn law_errors_are_reports(src: Seq<u8>)
    ensures
        forall|i: int|
            0 <= i < scanned_errors(src).len() ==> #[trigger] is_scan_error(
                src,
                scanned_errors(src),
                i,
                0,
                0,
            ),
{
    lemma_lex_errors(src, 0, 0);
}

/// Scanning from the end of the source finds nothing: a second scan after a
/// complete one yields only `EOF` and reports no new error.
pub proof fn law_nothing_left_at_end(src: Seq<u8>)
    ensures
        lex(src, src.len() as int).tokens.len() == 0,
        lex(src, src.len() as int).errors.len() == 0,
{
}

// ---------------------------------------------------------------- joining sources

/// The tokens `ts` with every line `k` higher.
pub open spec fn shift_lines(ts: Seq<SpecToken>, k: nat) -> Seq<SpecToken> {
    ts.map_values(
        |t: SpecToken|
            SpecToken {
                token_type: t.token_type,
                lexeme: t.lexeme,
                literal: t.literal,
                line: t.line + k,
            },
    )
}

/// Counting from a line `off` higher only moves the tokens of a step.
proof fn lemma_step_shift(src: Seq<u8>, pos: int, line: nat, off: nat)
    requires
        0 <= pos < src.len(),
    ensures
        step_from(src, pos, line + off).tokens == shift_lines(step_from(src, pos, line).tokens, off),
        step_from(src, pos, line + off).errors.len() == step_from(src, pos, line).errors.len(),
        step_from(src, pos, line + off).next == step_from(src, pos, line).next,
{
    assert(step_from(src, pos, line + off).tokens =~= shift_lines(
        step_from(src, pos, line).tokens,
        off,
    ));
}

/// Scanning with lines counted `off` higher yields the same tokens, each
/// `off` lines lower, and as many errors.
proof fn lemma_lex_shift(src: Seq<u8>, pos: int, off: nat)
    requires
        0 <= pos,
    ensures
        lex_shifted(src, pos, off).tokens == shift_lines(lex(src, pos).tokens, off),
        lex_shifted(src, pos, off).errors.len() == lex(src, pos).errors.len(),
    decreases src.len() - pos,
{
    if pos < src.len() {
        lemma_step_advances(src, pos);
        lemma_step_shift(src, pos, line_at(src, pos), off);
        let s = scan_step(src, pos);
        lemma_lex_shift(src, s.next, off);
        assert(lex_shifted(src, pos, off).tokens =~= shift_lines(lex(src, pos).tokens, off));
    } else {
        assert(lex_shifted(src, pos, off).tokens =~= shift_lines(lex(src, pos).tokens, off));
    }
}

/// Line feeds add up over a concatenation.
proof fn lemma_newline_count_concat(x: Seq<u8>, y: Seq<u8>)
    ensures
        newline_count(x + y) == newline_count(x) + newline_count(y),
    decreases y.len(),
{
    if y.len() > 0 {
        assert((x + y).drop_last() =~= x + y.drop_last());
        lemma_newline_count_concat(x, y.drop_last());
    } else {
        assert(x + y =~= x);
    }
}

/// A run inside a prefix of `s` ends where it ends in `s`, when the byte
/// after the prefix stops it or it stops inside the prefix.
proof fn lemma_run_end_prefix(a: Seq<u8>, s: Seq<u8>, i: int, k: Class)
    requires
        a.len() < s.len(),
        s.subrange(0, a.len() as int) == a,
        0 <= i <= a.len(),
        !in_class(k, s[a.len() as int]) || run_end(a, i, k) < a.len(),
    ensures
        run_end(s, i, k) == run_end(a, i, k),
    decreases a.len() - i,
{
    if i < a.len() {
        assert(s[i] == s.subrange(0, a.len() as int)[i]);
        if in_class(k, a[i]) {
            lemma_run_end_prefix(a, s, i + 1, k);
        }
    }
}

/// A run in the part of `s` after `m` bytes ends `m` bytes later than it
/// does in that part alone.
proof fn lemma_run_end_suffix(s: Seq<u8>, b: Seq<u8>, m: int, i: int, k: Class)
    requires
        0 <= m,
        s.len() == m + b.len(),
        s.subrange(m, s.len() as int) == b,
        0 <= i <= b.len(),
    ensures
        run_end(s, m + i, k) == m + run_end(b, i, k),
    decreases b.len() - i,
{
    if i < b.len() {
        assert(s[m + i] == s.subrange(m, s.len() as int)[i]);
        if in_class(k, b[i]) {
            lemma_run_end_suffix(s, b, m, i + 1, k);
        }
    }
}

/// A step inside `a` is the same step inside `a`, a line feed and more,
/// unless it meets a string that `a` leaves open.
#[verifier::rlimit(30)]
proof fn lemma_step_prefix(a: Seq<u8>, s: Seq<u8>, p: int, line: nat)
    requires
        a.len() < s.len(),
        s.subrange(0, a.len() as int) == a,
        s[a.len() as int] == 10,
        0 <= p < a.len(),
        !(a[p] == 34 && run_end(a, p + 1, Class::NotQuote) >= a.len()),
    ensures
        step_from(s, p, line) == step_from(a, p, line),
{
    let n = a.len() as int;
    assert forall|x: int| 0 <= x < n implies s[x] == a[x] by {
        assert(s[x] == s.subrange(0, n)[x]);
    }
    assert forall|x: int, y: int| 0 <= x <= y <= n implies s.subrange(x, y) == a.subrange(x, y) by {
        assert(s.subrange(x, y) =~= a.subrange(x, y));
    }
    assert(byte_at(s, n) == 10);
    assert(byte_at(a, n) == 0);
    let c = a[p];
    lemma_run_end(a, p + 1, Class::Digit);
    lemma_run_end(a, p + 1, Class::IdentChar);
    lemma_run_end(a, p + 1, Class::NotQuote);
    lemma_run_end_prefix(a, s, p + 1, Class::Digit);
    lemma_run_end_prefix(a, s, p + 1, Class::IdentChar);
    if c == 34 {
        lemma_run_end_prefix(a, s, p + 1, Class::NotQuote);
    }
    if c == 47 && byte_at(a, p + 1) == 47 {
        lemma_run_end(a, p + 2, Class::NotNewline);
        lemma_run_end_prefix(a, s, p + 2, Class::NotNewline);
    }
    if is_digit(c) {
        let e = run_end(a, p + 1, Class::Digit);
        if byte_at(a, e) == 46 && is_digit(byte_at(a, e + 1)) {
            lemma_run_end(a, e + 1, Class::Digit);
            lemma_run_end_prefix(a, s, e + 1, Class::Digit);
        }
    }
}

/// A step in the part of `s` after `m` bytes is the step in that part
/// alone, moved `m` bytes on.
proof fn lemma_step_suffix(s: Seq<u8>, b: Seq<u8>, m: int, j: int, line: nat)
    requires
        0 <= m,
        s.len() == m + b.len(),
        s.subrange(m, s.len() as int) == b,
        0 <= j < b.len(),
    ensures
        step_from(s, m + j, line).tokens == step_from(b, j, line).tokens,
        step_from(s, m + j, line).errors == step_from(b, j, line).errors,
        step_from(s, m + j, line).next == m + step_from(b, j, line).next,
{
    assert forall|x: int| 0 <= x < b.len() implies s[m + x] == b[x] by {
        assert(s[m + x] == s.subrange(m, s.len() as int)[x]);
    }
    assert forall|x: int, y: int| 0 <= x <= y <= b.len() implies s.subrange(m + x, m + y) == b.subrange(
        x,
        y,
    ) by {
        assert(s.subrange(m + x, m + y) =~= b.subrange(x, y));
    }
    assert forall|x: int| 0 <= x implies byte_at(s, m + x) == byte_at(b, x) by {
        if x < b.len() {
            assert(s[m + x] == b[x]);
        }
    }
    let c = b[j];
    lemma_run_end(b, j + 1, Class::Digit);
    lemma_run_end(b, j + 1, Class::IdentChar);
    lemma_run_end(b, j + 1, Class::NotQuote);
    lemma_run_end_suffix(s, b, m, j + 1, Class::Digit);
    lemma_run_end_suffix(s, b, m, j + 1, Class::IdentChar);
    lemma_run_end_suffix(s, b, m, j + 1, Class::NotQuote);
    assert(byte_at(s, m + j + 1) == byte_at(b, j + 1));
    if c == 47 && byte_at(b, j + 1) == 47 {
        lemma_run_end(b, j + 2, Class::NotNewline);
        lemma_run_end_suffix(s, b, m, j + 2, Class::NotNewline);
    }
    if is_digit(c) {
        let e = run_end(b, j + 1, Class::Digit);
        assert(byte_at(s, m + e) == byte_at(b, e));
        assert(byte_at(s, m + e + 1) == byte_at(b, e + 1));
        if byte_at(b, e) == 46 && is_digit(byte_at(b, e + 1)) {
            lemma_run_end(b, e + 1, Class::Digit);
            lemma_run_end_suffix(s, b, m, e + 1, Class::Digit);
        }
    }
    assert(step_from(s, m + j, line).tokens =~= step_from(b, j, line).tokens);
    assert(step_from(s, m + j, line).errors =~= step_from(b, j, line).errors);
}

/// After `a` and a line feed, the line of each position of `b` in the
/// joined source is counted from the last line of `a`.
proof fn lemma_join_lines(a: Seq<u8>, b: Seq<u8>, j: int)
    requires
        0 <= j <= b.len(),
    ensures
        line_at(a + seq![10u8] + b, a.len() + 1 + j) == line_at(b, j) + line_at(a, a.len() as int),
{
    let s = a + seq![10u8] + b;
    let m = a.len() + 1int;
    assert(s.take(m + j) =~= (a + seq![10u8]) + b.take(j));
    lemma_newline_count_concat(a + seq![10u8], b.take(j));
    lemma_newline_count_concat(a, seq![10u8]);
    assert(a.take(a.len() as int) =~= a);
    assert(seq![10u8].drop_last() =~= Seq::<u8>::empty());
    assert(newline_count(Seq::<u8>::empty()) == 0);
    assert(seq![10u8].last() == 10);
    assert(newline_count(seq![10u8]) == 1);
}

/// After `a` and a line feed, `s` scans as `b` does, with every line
/// counted `line_at(a, a.len())` higher.
proof fn lemma_join_suffix(a: Seq<u8>, b: Seq<u8>, j: int)
    requires
        0 <= j <= b.len(),
    ensures
        lex(a + seq![10u8] + b, a.len() + 1 + j) == lex_shifted(b, j, line_at(a, a.len() as int)),
    decreases b.len() - j,
{
    let s = a + seq![10u8] + b;
    let m = a.len() + 1int;
    let k = line_at(a, a.len() as int);
    if j < b.len() {
        lemma_join_lines(a, b, j);
        assert(s.subrange(m, s.len() as int) =~= b);
        lemma_step_suffix(s, b, m, j, line_at(b, j) + k);
        lemma_step_advances(b, j);
        let nb = step_from(b, j, line_at(b, j) + k).next;
        lemma_join_suffix(a, b, nb);
        assert(lex(s, m + j) == lex_shifted(b, j, k));
    }
}

/// Up to the line feed, `s` scans as `a` does, when `a` leaves no string
/// open from `p` on; then it goes on as `b` does, counted from `a`'s last
/// line.
proof fn lemma_join_prefix(a: Seq<u8>, b: Seq<u8>, p: int)
    requires
        0 <= p <= a.len(),
        forall|i: int|
            0 <= i < lex(a, p).errors.len() ==> #[trigger] lex(a, p).errors[i]
                != unterminated_string_message(line_at(a, a.len() as int)),
    ensures
        lex(a + seq![10u8] + b, p).tokens == lex(a, p).tokens + lex_shifted(
            b,
            0,
            line_at(a, a.len() as int),
        ).tokens,
        lex(a + seq![10u8] + b, p).errors == lex(a, p).errors + lex_shifted(
            b,
            0,
            line_at(a, a.len() as int),
        ).errors,
    decreases a.len() - p,
{
    let s = a + seq![10u8] + b;
    let n = a.len() as int;
    let k = line_at(a, n);
    let tail = lex_shifted(b, 0, k);
    lemma_join_suffix(a, b, 0);
    assert(s.subrange(0, n) =~= a);
    if p == n {
        assert(s[n] == 10);
        assert(lex(s, n) == lex(s, n + 1));
        assert(lex(a, n).tokens + tail.tokens =~= tail.tokens);
        assert(lex(a, n).errors + tail.errors =~= tail.errors);
    } else {
        assert(s.take(p) =~= a.take(p));
        let line = line_at(a, p);
        let st = step_from(a, p, line);
        lemma_step_advances(a, p);
        if a[p] == 34 && run_end(a, p + 1, Class::NotQuote) >= n {
            lemma_run_end(a, p + 1, Class::NotQuote);
            lemma_newlines_split(a, p, n);
            assert(lex(a, p).errors[0] == unterminated_string_message(k));
        }
        lemma_step_prefix(a, s, p, line);
        let rest = lex(a, st.next);
        assert(lex(a, p).errors == st.errors + rest.errors);
        assert forall|i: int| 0 <= i < rest.errors.len() implies #[trigger] rest.errors[i]
            != unterminated_string_message(k) by {
            assert(rest.errors[i] == lex(a, p).errors[i + st.errors.len()]);
        }
        lemma_join_prefix(a, b, st.next);
        assert(lex(s, p).tokens =~= lex(a, p).tokens + tail.tokens);
        assert(lex(s, p).errors =~= lex(a, p).errors + tail.errors);
    }
}

/// Joining two sources with a line feed scans as the two do apart, when
/// the first leaves no string open: the tokens of the first (but its
/// `EOF`), then all the tokens of the second, each `k` lines lower, where
/// `k` is the last line of the first (one more than its line feeds); and
/// the errors of the first, then as many errors of the second, each
/// reported `k` lines lower (scanning the second with lines counted `k`
/// higher).
pub proof fn law_join_by_line_feed(a: Seq<u8>, b: Seq<u8>)
    requires
        forall|i: int|
            0 <= i < scanned_errors(a).len() ==> #[trigger] scanned_errors(a)[i]
                != unterminated_string_message(line_at(a, a.len() as int)),
    ensures
        line_at(a, a.len() as int) == 1 + newline_count(a),
        scanned_tokens(a + seq![10u8] + b) == lex(a, 0).tokens + shift_lines(
            scanned_tokens(b),
            line_at(a, a.len() as int),
        ),
        scanned_errors(a + seq![10u8] + b) == scanned_errors(a) + lex_shifted(
            b,
            0,
            line_at(a, a.len() as int),
        ).errors,
        lex_shifted(b, 0, line_at(a, a.len() as int)).errors.len() == scanned_errors(b).len(),
        forall|i: int|
            0 <= i < scanned_errors(b).len() ==> #[trigger] is_scan_error(
                b,
                lex_shifted(b, 0, line_at(a, a.len() as int)).errors,
                i,
                0,
                line_at(a, a.len() as int),
            ),
{
    let s = a + seq![10u8] + b;
    let k = line_at(a, a.len() as int);
    assert(a.take(a.len() as int) =~= a);
    assert forall|i: int| 0 <= i < lex(a, 0).errors.len() implies #[trigger] lex(a, 0).errors[i]
        != unterminated_string_message(k) by {
        assert(lex(a, 0).errors[i] == scanned_errors(a)[i]);
    }
    lemma_join_prefix(a, b, 0);
    lemma_join_lines(a, b, b.len() as int);
    lemma_lex_shift(b, 0, k);
    lemma_lex_errors(b, 0, k);
    assert(s.len() == a.len() + 1 + b.len());
    assert(eof_token(s).line == eof_token(b).line + k);
    assert(scanned_tokens(s) =~= lex(a, 0).tokens + shift_lines(scanned_tokens(b), k));
}

} // verus!
