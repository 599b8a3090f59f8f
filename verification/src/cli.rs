//! What the command-line driver decides from its command and input.

use vstd::prelude::*;
use vstd::utf8::encode_utf8;

use crate::constants::SYNTAX_ERROR;
use crate::grammar::{tokens_view, Token};
use crate::lexical::{scanned_errors, scanned_tokens};
use crate::scanner::Scanner;

verus! {

/// The command given on the command line.
#[derive(Clone, Copy, Debug, PartialEq, Eq, Structural)]
pub enum Mode {
    /// Print the tokens of the input.
    Tokenize,
    /// Print the expression that the input parses to.
    Parse,
    /// Print the value of the expression the input holds.
    Evaluate,
    /// Run the program the input holds.
    Run,
}

/// What a run of the driver produces from its input: the tokens, the scan
/// errors (reported before anything else), and the exit status where
/// scanning alone decides it.
pub struct RunOutput {
    pub tokens: Vec<Token>,
    pub errors: Vec<String>,
    /// `Some` for `Tokenize`, whose status scanning decides; `None` for the
    /// other commands, whose status the later stages decide.
    pub exit_code: Option<u8>,
}

/// The exit status of `tokenize` on `src`: `0` when scanning reports no
/// error, else `SYNTAX_ERROR`.
pub open spec fn tokenize_status(src: Seq<u8>) -> u8 {
    if scanned_errors(src).len() == 0 {
        0
    } else {
        SYNTAX_ERROR
    }
}

/// The status of `tokenize` is `0` exactly when scanning reports no error,
/// and `SYNTAX_ERROR` (65) whenever it reports one or more.
pub proof fn law_tokenize_status(src: Seq<u8>)
    ensures
        (tokenize_status(src) == 0) == (scanned_errors(src).len() == 0),
        scanned_errors(src).len() > 0 ==> tokenize_status(src) == 65,
{
}

/// Scans `input` and decides what the command `mode` reports of it.
pub fn run(mode: Mode, input: &str) -> (r: RunOutput)
    requires
        encode_utf8(input@).len() < usize::MAX,
    ensures
        tokens_view(r.tokens@) == scanned_tokens(encode_utf8(input@)),
        r.errors@.map_values(|e: String| e@) == scanned_errors(encode_utf8(input@)),
        r.exit_code == if mode == Mode::Tokenize {
            Some(tokenize_status(encode_utf8(input@)))
        } else {
            None::<u8>
        },
{
    let mut scanner = Scanner::new(input);
    let tokens = scanner.scan_tokens();
    let reported = scanner.errors();
    let mut errors: Vec<String> = Vec::new();
    let mut i: usize = 0;
    while i < reported.len()
        invariant
            i <= reported@.len(),
            errors@ == reported@.subrange(0, i as int),
        decreases reported@.len() - i,
    {
        errors.push(reported[i].clone());
        i = i + 1;
        assert(errors@ =~= reported@.subrange(0, i as int));
    }
    proof {
        assert(reported@.subrange(0, reported@.len() as int) =~= reported@);
        assert(scanner.reported() =~= Seq::<Seq<char>>::empty() + scanned_errors(encode_utf8(input@)));
    }
    let exit_code = if let Mode::Tokenize = mode {
        if reported.len() == 0 {
            Some(0u8)
        } else {
            Some(SYNTAX_ERROR)
        }
    } else {
        None
    };
    RunOutput { tokens, errors, exit_code }
}

} // verus!
