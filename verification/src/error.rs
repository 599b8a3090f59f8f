//! The errors that the stages after scanning report, and their messages.

use vstd::prelude::*;

use crate::text::{decimal, push_decimal};

verus! {

/// An error of parsing, resolving or running a Lox program.
#[derive(Debug)]
pub enum LoxError {
    /// A syntax error at a token.
    SyntaxError { line: usize, lexeme: String, message: String },
    /// A syntax error at the end of the input.
    SyntaxErrorAtEnd { line: usize, message: String },
    /// An operand or value of the wrong type.
    TypeError(String),
    /// A variable read or assigned before it was defined.
    UndefinedVariable { name: String, line: usize },
    /// A property that an instance does not have.
    UndefinedProperty(String),
    /// A call with the wrong number of arguments.
    ArgumentCountError { expected: usize, got: usize },
}

impl LoxError {
    /// The message of the error, as it is reported.
    pub open spec fn spec_message(&self) -> Seq<char> {
        match self {
            LoxError::SyntaxError { line, lexeme, message } => "[line "@ + decimal(*line as nat)
                + "] Error at '"@ + lexeme@ + "': "@ + message@,
            LoxError::SyntaxErrorAtEnd { line, message } => "[line "@ + decimal(*line as nat)
                + "] Error at end: "@ + message@,
            LoxError::TypeError(m) => m@,
            LoxError::UndefinedVariable { name, line } => "Undefined variable '"@ + name@
                + "'.\n[line "@ + decimal(*line as nat) + "]"@,
            LoxError::UndefinedProperty(p) => "Undefined property '"@ + p@ + "'."@,
            LoxError::ArgumentCountError { expected, got } => "Expected "@ + decimal(
                *expected as nat,
            ) + " arguments but got "@ + decimal(*got as nat) + "."@,
        }
    }

    /// The message of the error, as it is reported.
    pub fn message(&self) -> (r: String)
        ensures
            r@ == self.spec_message(),
    {
        match self {
            LoxError::SyntaxError { line, lexeme, message } => {
                let mut s = String::from_str("[line ");
                push_decimal(&mut s, *line);
                s.append("] Error at '");
                s.append(lexeme.as_str());
                s.append("': ");
                s.append(message.as_str());
                s
            },
            LoxError::SyntaxErrorAtEnd { line, message } => {
                let mut s = String::from_str("[line ");
                push_decimal(&mut s, *line);
                s.append("] Error at end: ");
                s.append(message.as_str());
                s
            },
            LoxError::TypeError(m) => m.clone(),
            LoxError::UndefinedVariable { name, line } => {
                let mut s = String::from_str("Undefined variable '");
                s.append(name.as_str());
                s.append("'.\n[line ");
                push_decimal(&mut s, *line);
                s.append("]");
                s
            },
            LoxError::UndefinedProperty(p) => {
                let mut s = String::from_str("Undefined property '");
                s.append(p.as_str());
                s.append("'.");
                s
            },
            LoxError::ArgumentCountError { expected, got } => {
                let mut s = String::from_str("Expected ");
                push_decimal(&mut s, *expected);
                s.append(" arguments but got ");
                push_decimal(&mut s, *got);
                s.append(".");
                s
            },
        }
    }
}

} // verus!
