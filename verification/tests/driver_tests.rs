use interpreter_rs::{run, LoxError, Mode, TokenType, SYNTAX_ERROR};

#[test]
fn tokenize_succeeds_without_errors() {
    let r = run(Mode::Tokenize, "print 1;");
    assert_eq!(r.exit_code, Some(0));
    assert!(r.errors.is_empty());
    assert_eq!(r.tokens.len(), 4);
    assert_eq!(r.tokens[3].token_type, TokenType::EOF);
}

#[test]
fn tokenize_reports_a_syntax_error_status() {
    let r = run(Mode::Tokenize, "1 $");
    assert_eq!(r.exit_code, Some(SYNTAX_ERROR));
    assert_eq!(r.exit_code, Some(65));
    assert_eq!(r.errors, vec!["[line 1] Error: Unexpected character: $.".to_string()]);
    assert_eq!(r.tokens.len(), 2);
}

#[test]
fn other_commands_leave_the_status_to_later_stages() {
    for mode in [Mode::Parse, Mode::Evaluate, Mode::Run] {
        let r = run(mode, "\"open");
        assert_eq!(r.exit_code, None);
        assert_eq!(r.errors, vec!["[line 1] Error: Unterminated string.".to_string()]);
        assert_eq!(r.tokens.len(), 1);
    }
}

#[test]
fn error_messages() {
    let e = LoxError::SyntaxError {
        line: 3,
        lexeme: "+".to_string(),
        message: "Expect expression.".to_string(),
    };
    assert_eq!(e.message(), "[line 3] Error at '+': Expect expression.");
    let e = LoxError::SyntaxErrorAtEnd { line: 10, message: "Expect ';'.".to_string() };
    assert_eq!(e.message(), "[line 10] Error at end: Expect ';'.");
    let e = LoxError::TypeError("Operands must be numbers.".to_string());
    assert_eq!(e.message(), "Operands must be numbers.");
    let e = LoxError::UndefinedVariable { name: "x".to_string(), line: 7 };
    assert_eq!(e.message(), "Undefined variable 'x'.\n[line 7]");
    let e = LoxError::UndefinedProperty("size".to_string());
    assert_eq!(e.message(), "Undefined property 'size'.");
    let e = LoxError::ArgumentCountError { expected: 2, got: 0 };
    assert_eq!(e.message(), "Expected 2 arguments but got 0.");
}

#[test]
fn exit_code_constants() {
    assert_eq!(interpreter_rs::COMMAND_LINE_USAGE, 64);
    assert_eq!(interpreter_rs::CANNOT_OPEN_INPUT, 66);
    assert_eq!(interpreter_rs::RUNTIME_ERROR, 70);
}
