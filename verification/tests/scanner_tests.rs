use interpreter_rs::{Literal, Scanner, Token, TokenType};

fn scan(src: &str) -> (Vec<Token>, Vec<String>) {
    let mut scanner = Scanner::new(src);
    let tokens = scanner.scan_tokens();
    let errors = scanner.errors().to_vec();
    (tokens, errors)
}

fn kinds(tokens: &[Token]) -> Vec<TokenType> {
    tokens.iter().map(|t| t.token_type).collect()
}

#[test]
fn empty_source_gives_only_eof() {
    let (tokens, errors) = scan("");
    assert_eq!(tokens.len(), 1);
    assert_eq!(tokens[0].token_type, TokenType::EOF);
    assert_eq!(tokens[0].lexeme, b"".to_vec());
    assert_eq!(tokens[0].literal, None);
    assert_eq!(tokens[0].line, 1);
    assert!(errors.is_empty());
}

#[test]
fn single_character_tokens() {
    let (tokens, errors) = scan("(){},.-+;*");
    assert_eq!(
        kinds(&tokens),
        vec![
            TokenType::LEFT_PAREN,
            TokenType::RIGHT_PAREN,
            TokenType::LEFT_BRACE,
            TokenType::RIGHT_BRACE,
            TokenType::COMMA,
            TokenType::DOT,
            TokenType::MINUS,
            TokenType::PLUS,
            TokenType::SEMICOLON,
            TokenType::STAR,
            TokenType::EOF,
        ]
    );
    assert_eq!(tokens[0].lexeme, b"(".to_vec());
    assert!(errors.is_empty());
}

#[test]
fn comparison_operators_take_a_following_equal_sign() {
    let (tokens, _) = scan("= == ! != < <= > >=");
    assert_eq!(
        kinds(&tokens),
        vec![
            TokenType::EQUAL,
            TokenType::EQUAL_EQUAL,
            TokenType::BANG,
            TokenType::BANG_EQUAL,
            TokenType::LESS,
            TokenType::LESS_EQUAL,
            TokenType::GREATER,
            TokenType::GREATER_EQUAL,
            TokenType::EOF,
        ]
    );
    assert_eq!(tokens[1].lexeme, b"==".to_vec());
    assert_eq!(tokens[7].lexeme, b">=".to_vec());
}

#[test]
fn operator_at_end_of_source() {
    let (tokens, _) = scan("!");
    assert_eq!(kinds(&tokens), vec![TokenType::BANG, TokenType::EOF]);
}

#[test]
fn slash_and_comments() {
    let (tokens, errors) = scan("a / b // a comment (\n/");
    assert_eq!(
        kinds(&tokens),
        vec![
            TokenType::IDENTIFIER,
            TokenType::SLASH,
            TokenType::IDENTIFIER,
            TokenType::SLASH,
            TokenType::EOF,
        ]
    );
    assert_eq!(tokens[3].line, 2);
    assert!(errors.is_empty());
}

#[test]
fn comment_at_end_without_newline() {
    let (tokens, errors) = scan("// only a comment");
    assert_eq!(kinds(&tokens), vec![TokenType::EOF]);
    assert_eq!(tokens[0].line, 1);
    assert!(errors.is_empty());
}

#[test]
fn string_literal_carries_its_contents() {
    let (tokens, errors) = scan("\"hello world\"");
    assert_eq!(tokens[0].token_type, TokenType::STRING);
    assert_eq!(tokens[0].lexeme, b"\"hello world\"".to_vec());
    assert_eq!(tokens[0].literal, Some(Literal::String(b"hello world".to_vec())));
    assert!(errors.is_empty());
}

#[test]
fn empty_string_literal() {
    let (tokens, _) = scan("\"\"");
    assert_eq!(tokens[0].literal, Some(Literal::String(Vec::new())));
}

#[test]
fn multiline_string_counts_lines_and_lies_on_its_last_line() {
    let (tokens, errors) = scan("\"a\nb\nc\" x");
    assert_eq!(tokens[0].token_type, TokenType::STRING);
    assert_eq!(tokens[0].line, 3);
    assert_eq!(tokens[0].literal, Some(Literal::String(b"a\nb\nc".to_vec())));
    assert_eq!(tokens[1].line, 3);
    assert_eq!(tokens[2].token_type, TokenType::EOF);
    assert_eq!(tokens[2].line, 3);
    assert!(errors.is_empty());
}

#[test]
fn unterminated_string_is_reported_on_the_last_line() {
    let (tokens, errors) = scan("var s = \"abc\ndef");
    assert_eq!(
        kinds(&tokens),
        vec![TokenType::VAR, TokenType::IDENTIFIER, TokenType::EQUAL, TokenType::EOF]
    );
    assert_eq!(errors, vec!["[line 2] Error: Unterminated string.".to_string()]);
    assert_eq!(tokens[3].line, 2);
}

#[test]
fn numbers_with_and_without_fraction() {
    let (tokens, _) = scan("123 45.67 8. .5");
    assert_eq!(
        kinds(&tokens),
        vec![
            TokenType::NUMBER,
            TokenType::NUMBER,
            TokenType::NUMBER,
            TokenType::DOT,
            TokenType::DOT,
            TokenType::NUMBER,
            TokenType::EOF,
        ]
    );
    assert_eq!(tokens[0].literal, Some(Literal::Number(b"123".to_vec())));
    assert_eq!(tokens[1].lexeme, b"45.67".to_vec());
    assert_eq!(tokens[1].literal, Some(Literal::Number(b"45.67".to_vec())));
    assert_eq!(tokens[2].lexeme, b"8".to_vec());
    assert_eq!(tokens[5].lexeme, b"5".to_vec());
}

#[test]
fn number_followed_by_dot_and_letter() {
    let (tokens, _) = scan("1.a");
    assert_eq!(
        kinds(&tokens),
        vec![TokenType::NUMBER, TokenType::DOT, TokenType::IDENTIFIER, TokenType::EOF]
    );
}

#[test]
fn keywords_and_identifiers() {
    let (tokens, _) = scan(
        "and class else false for fun if nil or print return super this true var while \
         orchid _x9 AND fortune",
    );
    assert_eq!(
        kinds(&tokens),
        vec![
            TokenType::AND,
            TokenType::CLASS,
            TokenType::ELSE,
            TokenType::FALSE,
            TokenType::FOR,
            TokenType::FUN,
            TokenType::IF,
            TokenType::NIL,
            TokenType::OR,
            TokenType::PRINT,
            TokenType::RETURN,
            TokenType::SUPER,
            TokenType::THIS,
            TokenType::TRUE,
            TokenType::VAR,
            TokenType::WHILE,
            TokenType::IDENTIFIER,
            TokenType::IDENTIFIER,
            TokenType::IDENTIFIER,
            TokenType::IDENTIFIER,
            TokenType::EOF,
        ]
    );
    assert_eq!(tokens[17].lexeme, b"_x9".to_vec());
    assert_eq!(tokens[17].literal, None);
}

#[test]
fn get_token_type_classifies_words() {
    assert_eq!(TokenType::get_token_type(b"while"), TokenType::WHILE);
    assert_eq!(TokenType::get_token_type(b"return"), TokenType::RETURN);
    assert_eq!(TokenType::get_token_type(b"whiles"), TokenType::IDENTIFIER);
    assert_eq!(TokenType::get_token_type(b""), TokenType::IDENTIFIER);
}

#[test]
fn unexpected_characters_are_reported_and_scanning_goes_on() {
    let (tokens, errors) = scan(",.$(#\n@");
    assert_eq!(
        kinds(&tokens),
        vec![TokenType::COMMA, TokenType::DOT, TokenType::LEFT_PAREN, TokenType::EOF]
    );
    assert_eq!(
        errors,
        vec![
            "[line 1] Error: Unexpected character: $.".to_string(),
            "[line 1] Error: Unexpected character: #.".to_string(),
            "[line 2] Error: Unexpected character: @.".to_string(),
        ]
    );
}

#[test]
fn non_ascii_bytes_are_each_reported() {
    // "é" is the two bytes 0xC3 0xA9; each prints as the char of that byte.
    let (tokens, errors) = scan("é");
    assert_eq!(kinds(&tokens), vec![TokenType::EOF]);
    assert_eq!(
        errors,
        vec![
            "[line 1] Error: Unexpected character: \u{c3}.".to_string(),
            "[line 1] Error: Unexpected character: \u{a9}.".to_string(),
        ]
    );
}

#[test]
fn non_ascii_inside_a_string_is_kept() {
    let (tokens, errors) = scan("\"é\"");
    assert_eq!(tokens[0].literal, Some(Literal::String("é".as_bytes().to_vec())));
    assert!(errors.is_empty());
}

#[test]
fn line_numbers_above_nine_are_printed_in_full() {
    let src = format!("{}@", "\n".repeat(11));
    let (_, errors) = scan(&src);
    assert_eq!(errors, vec!["[line 12] Error: Unexpected character: @.".to_string()]);
}

#[test]
fn render_prints_kind_lexeme_and_literal() {
    let (tokens, _) = scan("(\"hi\" foo 42.50");
    assert_eq!(tokens[0].render(b"unused"), b"LEFT_PAREN ( null".to_vec());
    assert_eq!(tokens[1].render(b"unused"), b"STRING \"hi\" hi".to_vec());
    assert_eq!(tokens[2].render(b"unused"), b"IDENTIFIER foo null".to_vec());
    assert_eq!(tokens[3].render(b"42.5"), b"NUMBER 42.50 42.5".to_vec());
    assert_eq!(tokens[4].render(b"unused"), b"EOF  null".to_vec());
}

#[test]
fn token_names() {
    assert_eq!(TokenType::LEFT_PAREN.name(), "LEFT_PAREN");
    assert_eq!(TokenType::GREATER_EQUAL.name(), "GREATER_EQUAL");
    assert_eq!(TokenType::EOF.name(), "EOF");
}
