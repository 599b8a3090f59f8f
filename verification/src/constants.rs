//! Process exit codes, after the BSD `sysexits` convention.

use vstd::prelude::*;

verus! {

/// The command line was used incorrectly.
pub const COMMAND_LINE_USAGE: u8 = 64;

/// The input held a lexical, syntax or resolution error.
pub const SYNTAX_ERROR: u8 = 65;

/// The input file could not be opened.
pub const CANNOT_OPEN_INPUT: u8 = 66;

/// The program failed while it ran.
pub const RUNTIME_ERROR: u8 = 70;

} // verus!
