//! Checking a run of the driver against the expectations written in the
//! comments of a Lox test program: which command a test file runs, what it
//! expects on standard output and standard error, and whether a run met it.

use vstd::prelude::*;

use crate::cli::Mode;
use crate::text::{
    chars_of, contains, contains_exec, is_prefix, is_prefix_exec, occurs_at, occurs_at_exec,
    string_of,
};

verus! {

// ---------------------------------------------------------------- lines

/// The index of the first line feed at or after `i`, or the length of `s`.
pub open spec fn newline_from(s: Seq<char>, i: int) -> int
    decreases s.len() - i,
{
    if 0 <= i < s.len() && s[i] != '\n' {
        newline_from(s, i + 1)
    } else {
        i
    }
}

/// `x` without one carriage return at its end.
pub open spec fn strip_cr(x: Seq<char>) -> Seq<char> {
    if x.len() > 0 && x.last() == '\r' {
        x.drop_last()
    } else {
        x
    }
}

/// The lines of `s` from index `i` on, as `str::lines` splits them: at each
/// line feed, which is dropped together with a carriage return before it;
/// a line feed at the very end starts no further line.
pub open spec fn lines_from(s: Seq<char>, i: int) -> Seq<Seq<char>>
    decreases s.len() - i,
    via lines_from_decreases
{
    if 0 <= i < s.len() {
        let e = newline_from(s, i);
        if e < s.len() {
            seq![strip_cr(s.subrange(i, e))] + lines_from(s, e + 1)
        } else {
            seq![s.subrange(i, s.len() as int)]
        }
    } else {
        seq![]
    }
}

/// The lines of `s`.
pub open spec fn text_lines(s: Seq<char>) -> Seq<Seq<char>> {
    lines_from(s, 0)
}

/// The first line feed at or after `i` lies inside `s` or at its end, with
/// none before it.
pub proof fn lemma_newline_from(s: Seq<char>, i: int)
    requires
        0 <= i <= s.len(),
    ensures
        i <= newline_from(s, i) <= s.len(),
        forall|j: int| i <= j < newline_from(s, i) ==> s[j] != '\n',
        newline_from(s, i) < s.len() ==> s[newline_from(s, i)] == '\n',
    decreases s.len() - i,
{
    if i < s.len() && s[i] != '\n' {
        lemma_newline_from(s, i + 1);
    }
}

#[via_fn]
proof fn lines_from_decreases(s: Seq<char>, i: int) {
    if 0 <= i < s.len() {
        lemma_newline_from(s, i);
    }
}

/// The first line at `i` (which lies inside `cs`): its content ends at
/// `r.0`, and the next line starts at `r.1`.
fn line_bounds(cs: &[char], i: usize) -> (r: (usize, usize))
    requires
        i < cs@.len(),
    ensures
        i <= r.0 <= r.1 <= cs@.len(),
        i < r.1,
        lines_from(cs@, i as int) == seq![cs@.subrange(i as int, r.0 as int)] + lines_from(
            cs@,
            r.1 as int,
        ),
{
    let ghost s = cs@;
    proof {
        lemma_newline_from(s, i as int);
    }
    let mut e = i;
    while e < cs.len() && cs[e] != '\n'
        invariant
            i <= e <= newline_from(s, i as int),
            newline_from(s, i as int) <= s.len(),
            s == cs@,
            forall|j: int| i <= j < newline_from(s, i as int) ==> s[j] != '\n',
            newline_from(s, i as int) < s.len() ==> s[newline_from(s, i as int)] == '\n',
        decreases cs@.len() - e,
    {
        e = e + 1;
    }
    if e < cs.len() {
        let content_end = if e > i && cs[e - 1] == '\r' {
            e - 1
        } else {
            e
        };
        proof {
            if e > i && s[e - 1] == '\r' {
                assert(s.subrange(i as int, e as int).drop_last() =~= s.subrange(
                    i as int,
                    content_end as int,
                ));
            }
        }
        (content_end, e + 1)
    } else {
        proof {
            assert(lines_from(s, e as int) =~= Seq::<Seq<char>>::empty());
            assert(seq![s.subrange(i as int, e as int)] + lines_from(s, e as int) =~= seq![
                s.subrange(i as int, e as int),
            ]);
        }
        (e, e)
    }
}

/// The views of a sequence of strings.
pub open spec fn strings_view(v: Seq<String>) -> Seq<Seq<char>> {
    v.map_values(|s: String| s@)
}

/// The lines of `text`, as `str::lines` splits them.
pub fn output_lines(text: &str) -> (r: Vec<String>)
    ensures
        strings_view(r@) == text_lines(text@),
{
    let cs = chars_of(text);
    let ghost s = cs@;
    let mut out: Vec<String> = Vec::new();
    let mut i: usize = 0;
    assert(strings_view(out@) + lines_from(s, 0) =~= text_lines(text@));
    while i < cs.len()
        invariant
            s == cs@,
            s == text@,
            i <= s.len(),
            strings_view(out@) + lines_from(s, i as int) == text_lines(text@),
        decreases s.len() - i,
    {
        let (content_end, next) = line_bounds(cs.as_slice(), i);
        let line = string_of(cs.as_slice(), i, content_end);
        let ghost before = out@;
        out.push(line);
        proof {
            let l = s.subrange(i as int, content_end as int);
            assert(strings_view(out@) =~= strings_view(before).push(l));
            assert(strings_view(before) + (seq![l] + lines_from(s, next as int)) =~= strings_view(
                out@,
            ) + lines_from(s, next as int));
        }
        i = next;
    }
    assert(strings_view(out@) + lines_from(s, i as int) =~= strings_view(out@));
    out
}

// ---------------------------------------------------------------- the command

/// `p` ends `s`.
pub open spec fn is_suffix(p: Seq<char>, s: Seq<char>) -> bool {
    occurs_at(s, p, s.len() - p.len())
}

/// The command a test program runs, by where it lies: the scanning tests
/// tokenize, the expression tests parse (`parse.lox`) or evaluate, and all
/// others run.
pub open spec fn spec_test_mode(path: Seq<char>) -> Mode {
    if contains(path, "/scanning/"@) {
        Mode::Tokenize
    } else if contains(path, "/expressions/"@) {
        if is_suffix("/parse.lox"@, path) {
            Mode::Parse
        } else {
            Mode::Evaluate
        }
    } else {
        Mode::Run
    }
}

/// The command that the test program at `path` runs.
pub fn test_mode(path: &str) -> (r: Mode)
    ensures
        r == spec_test_mode(path@),
{
    let p = chars_of(path);
    let scanning = chars_of("/scanning/");
    let expressions = chars_of("/expressions/");
    let parse = chars_of("/parse.lox");
    if contains_exec(p.as_slice(), scanning.as_slice()) {
        Mode::Tokenize
    } else if contains_exec(p.as_slice(), expressions.as_slice()) {
        let ends = parse.len() <= p.len() && occurs_at_exec(
            p.as_slice(),
            parse.as_slice(),
            p.len() - parse.len(),
        );
        if ends {
            Mode::Parse
        } else {
            Mode::Evaluate
        }
    } else {
        Mode::Run
    }
}

// ---------------------------------------------------------------- expectations

/// The index where the first `//` of `line` at or after `i` starts, or the
/// length of `line`.
pub open spec fn comment_from(line: Seq<char>, i: int) -> int
    decreases line.len() - i,
{
    if 0 <= i && i + 1 < line.len() {
        if line[i] == '/' && line[i + 1] == '/' {
            i
        } else {
            comment_from(line, i + 1)
        }
    } else {
        line.len() as int
    }
}

/// The comment of `line`: from its first `//` to its end (empty if it has
/// none).
pub open spec fn comment_of(line: Seq<char>) -> Seq<char> {
    line.subrange(comment_from(line, 0), line.len() as int)
}

/// `s` without its first `n` characters.
pub open spec fn after(s: Seq<char>, n: nat) -> Seq<char> {
    s.subrange(n as int, s.len() as int)
}

/// The output line that `line` expects: the rest of a comment that starts
/// with `// expect: `.
pub open spec fn expected_output_of(line: Seq<char>) -> Option<Seq<char>> {
    let c = comment_of(line);
    if is_prefix("// expect: "@, c) {
        Some(after(c, "// expect: "@.len()))
    } else {
        None
    }
}

/// The error line that `line` expects: the rest of a comment that starts
/// with `// expect runtime error: `, or of one that starts with `// ` and
/// then `[line ` or `Error`.
pub open spec fn expected_error_of(line: Seq<char>) -> Option<Seq<char>> {
    let c = comment_of(line);
    let rest = after(c, "// "@.len());
    if is_prefix("// expect: "@, c) {
        None
    } else if is_prefix("// expect runtime error: "@, c) {
        Some(after(c, "// expect runtime error: "@.len()))
    } else if is_prefix("// "@, c) && (is_prefix("[line "@, rest) || is_prefix("Error"@, rest)) {
        Some(rest)
    } else {
        None
    }
}

/// The line that `o` holds, if any, as a sequence of lines.
pub open spec fn optional_line(o: Option<Seq<char>>) -> Seq<Seq<char>> {
    match o {
        Some(t) => seq![t],
        None => seq![],
    }
}

/// The expected output lines of `ls`, in order.
pub open spec fn expected_outputs(ls: Seq<Seq<char>>) -> Seq<Seq<char>>
    decreases ls.len(),
{
    if ls.len() == 0 {
        seq![]
    } else {
        optional_line(expected_output_of(ls[0])) + expected_outputs(ls.drop_first())
    }
}

/// The expected error lines of `ls`, in order.
pub open spec fn expected_errors(ls: Seq<Seq<char>>) -> Seq<Seq<char>>
    decreases ls.len(),
{
    if ls.len() == 0 {
        seq![]
    } else {
        optional_line(expected_error_of(ls[0])) + expected_errors(ls.drop_first())
    }
}

/// What a test program expects of a run.
pub struct Expectations {
    /// The lines expected on standard output, in order.
    pub output: Vec<String>,
    /// The lines expected on standard error, in order.
    pub errors: Vec<String>,
}

/// Where the first `//` of `line` starts, or its length.
fn comment_start(line: &[char]) -> (r: usize)
    ensures
        r == comment_from(line@, 0),
{
    let mut i: usize = 0;
    while i < line.len() && i + 1 < line.len() && !(line[i] == '/' && line[i + 1] == '/')
        invariant
            i <= line@.len(),
            comment_from(line@, i as int) == comment_from(line@, 0),
        decreases line@.len() - i,
    {
        i = i + 1;
    }
    if i < line.len() && i + 1 < line.len() {
        i
    } else {
        line.len()
    }
}

/// The first `//` lies inside the line, or it is the line's length.
proof fn lemma_comment_from(line: Seq<char>, i: int)
    requires
        0 <= i <= line.len(),
    ensures
        i <= comment_from(line, i) <= line.len(),
    decreases line.len() - i,
{
    if i + 1 < line.len() && !(line[i] == '/' && line[i + 1] == '/') {
        lemma_comment_from(line, i + 1);
    }
}

/// The expectations that one line holds: an output line, an error line,
/// or neither.
fn line_expectations(line: &[char]) -> (r: (Option<String>, Option<String>))
    ensures
        r.0 matches Some(s) ==> expected_output_of(line@) == Some(s@),
        r.0 is None ==> expected_output_of(line@) is None,
        r.1 matches Some(s) ==> expected_error_of(line@) == Some(s@),
        r.1 is None ==> expected_error_of(line@) is None,
{
    let expect = chars_of("// expect: ");
    let runtime = chars_of("// expect runtime error: ");
    let slashes = chars_of("// ");
    let at_line = chars_of("[line ");
    let error = chars_of("Error");
    let k = comment_start(line);
    proof {
        lemma_comment_from(line@, 0);
    }
    let c = string_of(line, k, line.len());
    let c = chars_of(c.as_str());
    let ghost cv = comment_of(line@);
    assert(c@ == cv);
    if is_prefix_exec(expect.as_slice(), c.as_slice()) {
        return (Some(string_of(c.as_slice(), expect.len(), c.len())), None);
    }
    if is_prefix_exec(runtime.as_slice(), c.as_slice()) {
        return (None, Some(string_of(c.as_slice(), runtime.len(), c.len())));
    }
    if is_prefix_exec(slashes.as_slice(), c.as_slice()) {
        let rest = string_of(c.as_slice(), slashes.len(), c.len());
        let rest_chars = chars_of(rest.as_str());
        if is_prefix_exec(at_line.as_slice(), rest_chars.as_slice()) || is_prefix_exec(
            error.as_slice(),
            rest_chars.as_slice(),
        ) {
            return (None, Some(rest));
        }
    }
    (None, None)
}

/// The expectations written in the comments of the test program `source`.
pub fn expectations(source: &str) -> (r: Expectations)
    ensures
        strings_view(r.output@) == expected_outputs(text_lines(source@)),
        strings_view(r.errors@) == expected_errors(text_lines(source@)),
{
    let cs = chars_of(source);
    let ghost s = cs@;
    let ghost all = text_lines(source@);
    let mut output: Vec<String> = Vec::new();
    let mut errors: Vec<String> = Vec::new();
    let mut i: usize = 0;
    assert(strings_view(output@) + expected_outputs(lines_from(s, 0)) =~= expected_outputs(all));
    assert(strings_view(errors@) + expected_errors(lines_from(s, 0)) =~= expected_errors(all));
    while i < cs.len()
        invariant
            s == cs@,
            s == source@,
            all == text_lines(source@),
            i <= s.len(),
            strings_view(output@) + expected_outputs(lines_from(s, i as int)) == expected_outputs(
                all,
            ),
            strings_view(errors@) + expected_errors(lines_from(s, i as int)) == expected_errors(
                all,
            ),
        decreases s.len() - i,
    {
        let (content_end, next) = line_bounds(cs.as_slice(), i);
        let line = &cs.as_slice()[i..content_end];
        let ghost l = s.subrange(i as int, content_end as int);
        let ghost ls = lines_from(s, i as int);
        assert(ls == seq![l] + lines_from(s, next as int));
        assert(ls[0] == l);
        assert(ls.drop_first() =~= lines_from(s, next as int));
        let (o, e) = line_expectations(line);
        let ghost out_before = strings_view(output@);
        let ghost err_before = strings_view(errors@);
        match o {
            Some(t) => {
                output.push(t);
            },
            None => {},
        }
        match e {
            Some(t) => {
                errors.push(t);
            },
            None => {},
        }
        proof {
            let first_o = optional_line(expected_output_of(l));
            let first_e = optional_line(expected_error_of(l));
            assert(strings_view(output@) =~= out_before + first_o);
            assert(strings_view(errors@) =~= err_before + first_e);
            assert(expected_outputs(ls) == first_o + expected_outputs(lines_from(s, next as int)));
            assert(expected_errors(ls) == first_e + expected_errors(lines_from(s, next as int)));
            assert(out_before + (first_o + expected_outputs(lines_from(s, next as int))) =~= (
            out_before + first_o) + expected_outputs(lines_from(s, next as int)));
            assert(err_before + (first_e + expected_errors(lines_from(s, next as int))) =~= (
            err_before + first_e) + expected_errors(lines_from(s, next as int)));
        }
        i = next;
    }
    assert(strings_view(output@) + expected_outputs(lines_from(s, i as int)) =~= strings_view(
        output@,
    ));
    assert(strings_view(errors@) + expected_errors(lines_from(s, i as int)) =~= strings_view(
        errors@,
    ));
    Expectations { output, errors }
}

// ---------------------------------------------------------------- standard error

/// A white-space character, as `char::is_whitespace` has it: one with the
/// Unicode `White_Space` property.
pub open spec fn is_whitespace(c: char) -> bool {
    ||| '\t' <= c <= '\r'
    ||| c == ' '
    ||| c == '\u{85}'
    ||| c == '\u{a0}'
    ||| c == '\u{1680}'
    ||| '\u{2000}' <= c <= '\u{200a}'
    ||| c == '\u{2028}'
    ||| c == '\u{2029}'
    ||| c == '\u{202f}'
    ||| c == '\u{205f}'
    ||| c == '\u{3000}'
}

/// Whether `c` is a white-space character.
fn is_whitespace_exec(c: char) -> (r: bool)
    ensures
        r == is_whitespace(c),
{
    ('\t' <= c && c <= '\r') || c == ' ' || c == '\u{85}' || c == '\u{a0}' || c == '\u{1680}' || (
    '\u{2000}' <= c && c <= '\u{200a}') || c == '\u{2028}' || c == '\u{2029}' || c == '\u{202f}'
        || c == '\u{205f}' || c == '\u{3000}'
}

/// The index of the first character of `l` at or after `i` that is not
/// white space, or the length of `l`.
pub open spec fn trim_start_from(l: Seq<char>, i: int) -> int
    decreases l.len() - i,
{
    if 0 <= i < l.len() && is_whitespace(l[i]) {
        trim_start_from(l, i + 1)
    } else {
        i
    }
}

/// The index just after the last character of `l` before `j` that is not
/// white space, or `0`.
pub open spec fn trim_end_from(l: Seq<char>, j: int) -> int
    decreases j,
{
    if 0 < j <= l.len() && is_whitespace(l[j - 1]) {
        trim_end_from(l, j - 1)
    } else {
        j
    }
}

/// `l` without white space at either end.
pub open spec fn trimmed(l: Seq<char>) -> Seq<char> {
    let a = trim_start_from(l, 0);
    let b = trim_end_from(l, l.len() as int);
    if a < b {
        l.subrange(a, b)
    } else {
        seq![]
    }
}

/// A line that only marks where an error was, such as `[line 3]`: once
/// trimmed, it starts with `[line ` and ends with `]`.
pub open spec fn is_line_marker(l: Seq<char>) -> bool {
    let t = trimmed(l);
    is_prefix("[line "@, t) && t.len() > 0 && t.last() == ']'
}

/// The lines of `ls` that are not line markers.
pub open spec fn without_markers(ls: Seq<Seq<char>>) -> Seq<Seq<char>>
    decreases ls.len(),
{
    if ls.len() == 0 {
        seq![]
    } else if is_line_marker(ls[0]) {
        without_markers(ls.drop_first())
    } else {
        seq![ls[0]] + without_markers(ls.drop_first())
    }
}

proof fn lemma_trim_start(l: Seq<char>, i: int)
    requires
        0 <= i <= l.len(),
    ensures
        i <= trim_start_from(l, i) <= l.len(),
    decreases l.len() - i,
{
    if i < l.len() && is_whitespace(l[i]) {
        lemma_trim_start(l, i + 1);
    }
}

proof fn lemma_trim_end(l: Seq<char>, j: int)
    requires
        0 <= j <= l.len(),
    ensures
        0 <= trim_end_from(l, j) <= j,
    decreases j,
{
    if 0 < j && is_whitespace(l[j - 1]) {
        lemma_trim_end(l, j - 1);
    }
}

/// Whether `l` is a line marker.
fn is_line_marker_exec(l: &[char]) -> (r: bool)
    ensures
        r == is_line_marker(l@),
{
    let mut a: usize = 0;
    while a < l.len() && is_whitespace_exec(l[a])
        invariant
            a <= l@.len(),
            trim_start_from(l@, a as int) == trim_start_from(l@, 0),
        decreases l@.len() - a,
    {
        a = a + 1;
    }
    let mut b: usize = l.len();
    while b > 0 && is_whitespace_exec(l[b - 1])
        invariant
            b <= l@.len(),
            trim_end_from(l@, b as int) == trim_end_from(l@, l@.len() as int),
        decreases b,
    {
        b = b - 1;
    }
    if a < b {
        let t = &l[a..b];
        let at_line = chars_of("[line ");
        is_prefix_exec(at_line.as_slice(), t) && t[t.len() - 1] == ']'
    } else {
        let ghost empty = Seq::<char>::empty();
        assert(trimmed(l@) =~= empty);
        assert(empty.len() == 0);
        false
    }
}

/// The lines of `text` that are not line markers: what a run reported on
/// standard error, without the lines that only say where.
pub fn error_lines(text: &str) -> (r: Vec<String>)
    ensures
        strings_view(r@) == without_markers(text_lines(text@)),
{
    let lines = output_lines(text);
    let ghost ls = strings_view(lines@);
    let mut out: Vec<String> = Vec::new();
    let mut i: usize = 0;
    assert(ls.subrange(0, ls.len() as int) =~= ls);
    while i < lines.len()
        invariant
            ls == strings_view(lines@),
            i <= ls.len(),
            strings_view(out@) + without_markers(ls.subrange(i as int, ls.len() as int))
                == without_markers(ls),
        decreases ls.len() - i,
    {
        let cs = chars_of(lines[i].as_str());
        let ghost rest = ls.subrange(i as int, ls.len() as int);
        assert(rest[0] == cs@);
        assert(rest.drop_first() =~= ls.subrange(i + 1, ls.len() as int));
        let ghost before = strings_view(out@);
        if !is_line_marker_exec(cs.as_slice()) {
            out.push(lines[i].clone());
            assert(strings_view(out@) =~= before + seq![cs@]);
            assert(before + (seq![cs@] + without_markers(rest.drop_first())) =~= (before + seq![
                cs@,
            ]) + without_markers(rest.drop_first()));
        }
        i = i + 1;
    }
    assert(strings_view(out@) + without_markers(ls.subrange(i as int, ls.len() as int))
        =~= strings_view(out@));
    out
}

// ---------------------------------------------------------------- the verdict

/// `e` without the `.` characters at its end.
pub open spec fn trim_dots(e: Seq<char>) -> Seq<char>
    decreases e.len(),
{
    if e.len() > 0 && e.last() == '.' {
        trim_dots(e.drop_last())
    } else {
        e
    }
}

/// Whether the reported line `a` meets the expected error line `e`: an
/// expectation that starts with `Error` must occur in it; any other must
/// begin it, trailing dots aside.
pub open spec fn error_matches(e: Seq<char>, a: Seq<char>) -> bool {
    if is_prefix("Error"@, e) {
        contains(a, e)
    } else {
        is_prefix(trim_dots(e), a)
    }
}

/// The first index at or after `i` where `expected` and `actual` differ.
pub open spec fn first_output_mismatch(expected: Seq<Seq<char>>, actual: Seq<Seq<char>>, i: int) -> Option<int>
    decreases expected.len() - i,
{
    if 0 <= i < expected.len() {
        if expected[i] != actual[i] {
            Some(i)
        } else {
            first_output_mismatch(expected, actual, i + 1)
        }
    } else {
        None
    }
}

/// The first index at or after `i` where a reported error line does not
/// meet its expectation.
pub open spec fn first_error_mismatch(expected: Seq<Seq<char>>, actual: Seq<Seq<char>>, i: int) -> Option<int>
    decreases expected.len() - i,
{
    if 0 <= i < expected.len() {
        if !error_matches(expected[i], actual[i]) {
            Some(i)
        } else {
            first_error_mismatch(expected, actual, i + 1)
        }
    } else {
        None
    }
}

/// How a run failed its test.
#[derive(Clone, Copy, Debug, PartialEq, Eq, Structural)]
pub enum Mismatch {
    /// It printed more or fewer output lines than expected.
    OutputCount,
    /// It reported more or fewer error lines than expected.
    ErrorCount,
    /// Output line `i` differs from the expected one.
    Output(usize),
    /// Error line `i` lacks the expected message that starts with `Error`.
    MissingError(usize),
    /// Error line `i` does not begin with the expected text.
    Error(usize),
}

/// The verdict on a run: the first way in which it fails its expectations
/// (counts first, then output lines, then error lines), or success.
pub open spec fn verdict(
    expected_out: Seq<Seq<char>>,
    expected_err: Seq<Seq<char>>,
    out: Seq<Seq<char>>,
    err: Seq<Seq<char>>,
) -> Result<(), Mismatch> {
    if out.len() != expected_out.len() {
        Err(Mismatch::OutputCount)
    } else if err.len() != expected_err.len() {
        Err(Mismatch::ErrorCount)
    } else if first_output_mismatch(expected_out, out, 0) is Some {
        Err(Mismatch::Output(first_output_mismatch(expected_out, out, 0)->0 as usize))
    } else if first_error_mismatch(expected_err, err, 0) is Some {
        let i = first_error_mismatch(expected_err, err, 0)->0;
        if is_prefix("Error"@, expected_err[i]) {
            Err(Mismatch::MissingError(i as usize))
        } else {
            Err(Mismatch::Error(i as usize))
        }
    } else {
        Ok(())
    }
}

/// The length of `e` without the `.` characters at its end.
fn trim_dots_len(e: &[char]) -> (r: usize)
    ensures
        r <= e@.len(),
        e@.subrange(0, r as int) == trim_dots(e@),
{
    let mut n = e.len();
    assert(e@.subrange(0, n as int) =~= e@);
    while n > 0 && e[n - 1] == '.'
        invariant
            n <= e@.len(),
            trim_dots(e@.subrange(0, n as int)) == trim_dots(e@),
        decreases n,
    {
        assert(e@.subrange(0, n as int).drop_last() =~= e@.subrange(0, n - 1));
        n = n - 1;
    }
    n
}

/// Whether the reported line `a` meets the expected error line `e`.
fn error_matches_exec(e: &[char], a: &[char]) -> (r: bool)
    ensures
        r == error_matches(e@, a@),
{
    let error = chars_of("Error");
    if is_prefix_exec(error.as_slice(), e) {
        contains_exec(a, e)
    } else {
        let n = trim_dots_len(e);
        is_prefix_exec(&e[0..n], a)
    }
}

/// The verdict on a run whose output and error lines are `out` and `err`,
/// against the expected lines.
pub fn check_output(
    expected_out: &[String],
    expected_err: &[String],
    out: &[String],
    err: &[String],
) -> (r: Result<(), Mismatch>)
    ensures
        r == verdict(
            strings_view(expected_out@),
            strings_view(expected_err@),
            strings_view(out@),
            strings_view(err@),
        ),
{
    let ghost eo = strings_view(expected_out@);
    let ghost ee = strings_view(expected_err@);
    let ghost ao = strings_view(out@);
    let ghost ae = strings_view(err@);
    if out.len() != expected_out.len() {
        return Err(Mismatch::OutputCount);
    }
    if err.len() != expected_err.len() {
        return Err(Mismatch::ErrorCount);
    }
    let mut i: usize = 0;
    while i < expected_out.len()
        invariant
            eo == strings_view(expected_out@),
            ao == strings_view(out@),
            ee == strings_view(expected_err@),
            ae == strings_view(err@),
            eo.len() == ao.len(),
            ee.len() == ae.len(),
            i <= eo.len(),
            first_output_mismatch(eo, ao, i as int) == first_output_mismatch(eo, ao, 0),
        decreases eo.len() - i,
    {
        assert(eo[i as int] == expected_out@[i as int]@);
        assert(ao[i as int] == out@[i as int]@);
        if !(expected_out[i] == out[i]) {
            return Err(Mismatch::Output(i));
        }
        i = i + 1;
    }
    let mut j: usize = 0;
    while j < expected_err.len()
        invariant
            eo == strings_view(expected_out@),
            ao == strings_view(out@),
            ee == strings_view(expected_err@),
            ae == strings_view(err@),
            eo.len() == ao.len(),
            ee.len() == ae.len(),
            j <= ee.len(),
            first_output_mismatch(eo, ao, 0) is None,
            first_error_mismatch(ee, ae, j as int) == first_error_mismatch(ee, ae, 0),
        decreases ee.len() - j,
    {
        let e = chars_of(expected_err[j].as_str());
        let a = chars_of(err[j].as_str());
        assert(ee[j as int] == e@);
        assert(ae[j as int] == a@);
        if !error_matches_exec(e.as_slice(), a.as_slice()) {
            let error = chars_of("Error");
            if is_prefix_exec(error.as_slice(), e.as_slice()) {
                return Err(Mismatch::MissingError(j));
            } else {
                return Err(Mismatch::Error(j));
            }
        }
        j = j + 1;
    }
    Ok(())
}

// ---------------------------------------------------------------- laws

/// The first mismatch from `i` on, when every line meets itself.
proof fn lemma_no_mismatch_with_itself(eo: Seq<Seq<char>>, ee: Seq<Seq<char>>, i: int)
    requires
        0 <= i,
    ensures
        first_output_mismatch(eo, eo, i) is None,
        first_error_mismatch(ee, ee, i) is None,
    decreases eo.len() + ee.len() - i,
{
    if i < eo.len() || i < ee.len() {
        if i < ee.len() {
            let e = ee[i];
            if is_prefix("Error"@, e) {
                assert(occurs_at(e, e, 0)) by {
                    assert(e.subrange(0, e.len() as int) =~= e);
                }
            } else {
                lemma_trim_dots_prefix(e);
            }
        }
        lemma_no_mismatch_with_itself(eo, ee, i + 1);
    }
}

/// `e` without its trailing dots begins `e`.
proof fn lemma_trim_dots_prefix(e: Seq<char>)
    ensures
        is_prefix(trim_dots(e), e),
    decreases e.len(),
{
    if e.len() > 0 && e.last() == '.' {
        lemma_trim_dots_prefix(e.drop_last());
        assert(e.subrange(0, trim_dots(e).len() as int) =~= e.drop_last().subrange(
            0,
            trim_dots(e).len() as int,
        ));
    } else {
        assert(e.subrange(0, e.len() as int) =~= e);
    }
}

/// A run that prints exactly the expected output lines and reports exactly
/// the expected error lines passes its test.
pub proof fn law_matching_run_passes(eo: Seq<Seq<char>>, ee: Seq<Seq<char>>)
    ensures
        verdict(eo, ee, eo, ee) == Ok::<(), Mismatch>(()),
{
    lemma_no_mismatch_with_itself(eo, ee, 0);
}

/// The text that writing each of `ls` as a line (followed by a line feed)
/// makes.
pub open spec fn written_lines(ls: Seq<Seq<char>>) -> Seq<char>
    decreases ls.len(),
{
    if ls.len() == 0 {
        seq![]
    } else {
        ls[0].push('\n') + written_lines(ls.drop_first())
    }
}

/// A line as `writeln` can write it and `str::lines` read it back: no line
/// feed inside, no carriage return at its end.
pub open spec fn is_plain_line(l: Seq<char>) -> bool {
    &&& forall|j: int| 0 <= j < l.len() ==> l[j] != '\n'
    &&& !(l.len() > 0 && l.last() == '\r')
}

/// Line feeds are found at the same place after a prefix.
proof fn lemma_newline_shift(x: Seq<char>, y: Seq<char>, i: int)
    requires
        0 <= i <= y.len(),
    ensures
        newline_from(x + y, x.len() + i) == x.len() + newline_from(y, i),
    decreases y.len() - i,
{
    if i < y.len() {
        assert((x + y)[x.len() + i] == y[i]);
        if y[i] != '\n' {
            lemma_newline_shift(x, y, i + 1);
        }
    }
}

/// The lines after a prefix are those of what follows it.
proof fn lemma_lines_shift(x: Seq<char>, y: Seq<char>, i: int)
    requires
        0 <= i <= y.len(),
    ensures
        lines_from(x + y, x.len() + i) == lines_from(y, i),
    decreases y.len() - i,
{
    let s = x + y;
    if i < y.len() {
        lemma_newline_shift(x, y, i);
        lemma_newline_from(y, i);
        let e = newline_from(y, i);
        assert(s.subrange(x.len() + i, x.len() + e) =~= y.subrange(i, e));
        if e < y.len() {
            lemma_lines_shift(x, y, e + 1);
        } else {
            assert(s.subrange(x.len() + i, s.len() as int) =~= y.subrange(i, y.len() as int));
        }
    }
}

/// What is written as lines reads back as those lines: `output_lines` of
/// a text that `writeln` made of plain lines gives back exactly those lines.
pub proof fn law_written_lines_read_back(ls: Seq<Seq<char>>)
    requires
        forall|k: int| 0 <= k < ls.len() ==> is_plain_line(#[trigger] ls[k]),
    ensures
        text_lines(written_lines(ls)) == ls,
    decreases ls.len(),
{
    if ls.len() > 0 {
        let l = ls[0];
        let rest = ls.drop_first();
        assert(is_plain_line(l));
        assert forall|k: int| 0 <= k < rest.len() implies is_plain_line(#[trigger] rest[k]) by {
            assert(rest[k] == ls[k + 1]);
        }
        law_written_lines_read_back(rest);
        let x = l.push('\n');
        let y = written_lines(rest);
        let s = x + y;
        assert(s == written_lines(ls));
        // The first line ends at the line feed after `l`.
        assert(newline_from(s, 0) == l.len()) by {
            assert forall|j: int| 0 <= j <= l.len() implies newline_from(s, j) == l.len() by {
                lemma_newline_at_end(s, l, j);
            }
        }
        assert(s.subrange(0, l.len() as int) =~= l);
        lemma_lines_shift(x, y, 0);
        assert(text_lines(s) =~= seq![l] + text_lines(y));
        assert(seq![l] + rest =~= ls);
    } else {
        assert(text_lines(written_lines(ls)) =~= ls);
    }
}

/// In `l` followed by a line feed and more, the first line feed from any
/// index of `l` on is the one after `l`.
proof fn lemma_newline_at_end(s: Seq<char>, l: Seq<char>, j: int)
    requires
        0 <= j <= l.len(),
        l.len() < s.len(),
        forall|k: int| 0 <= k < l.len() ==> s[k] == l[k],
        s[l.len() as int] == '\n',
        forall|k: int| 0 <= k < l.len() ==> l[k] != '\n',
    ensures
        newline_from(s, j) == l.len(),
    decreases l.len() - j,
{
    if j < l.len() {
        lemma_newline_at_end(s, l, j + 1);
    }
}

} // verus!
