//! A verified scanner for the Lox language: it turns source text into tokens
//! and error reports, with the library's error type and the command-line
//! driver's decisions beside it.

pub mod cli;
pub mod constants;
pub mod error;
pub mod grammar;
pub mod laws;
pub mod lexical;
pub mod scanner;
pub mod test_support;
pub mod text;

pub use constants::{CANNOT_OPEN_INPUT, COMMAND_LINE_USAGE, RUNTIME_ERROR, SYNTAX_ERROR};
pub use scanner::Scanner;
pub use cli::{run, Mode, RunOutput};
pub use error::LoxError;
pub use grammar::{Literal, Token, TokenType};
