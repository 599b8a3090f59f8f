use interpreter_rs::{Scanner, Token, TokenType};

fn scan(src: &str) -> (Vec<Token>, Vec<String>) {
    let mut scanner = Scanner::new(src);
    let tokens = scanner.scan_tokens();
    let errors = scanner.errors().to_vec();
    (tokens, errors)
}

const SAMPLE: &str = "var x = 12.5; // note\nprint \"a\nb\" != x;\n$ fun f() { return nil; }\n";

#[test]
fn scan_ends_with_one_eof_on_the_last_line() {
    let (tokens, _) = scan(SAMPLE);
    let last = tokens.last().unwrap();
    assert_eq!(last.token_type, TokenType::EOF);
    assert!(last.lexeme.is_empty());
    assert_eq!(last.line, 1 + SAMPLE.bytes().filter(|b| *b == b'\n').count());
    assert!(tokens[..tokens.len() - 1].iter().all(|t| t.token_type != TokenType::EOF));
}

#[test]
fn tokens_are_ordered_slices_on_the_line_where_they_end() {
    let (tokens, _) = scan(SAMPLE);
    let src = SAMPLE.as_bytes();
    let mut from = 0;
    for t in &tokens[..tokens.len() - 1] {
        assert!(!t.lexeme.is_empty());
        let at = (from..src.len())
            .find(|&i| src[i..].starts_with(&t.lexeme))
            .expect("lexeme found in order");
        let end = at + t.lexeme.len();
        let line = 1 + src[..end].iter().filter(|b| **b == b'\n').count();
        assert_eq!(t.line, line);
        from = end;
    }
}

#[test]
fn lines_never_decrease() {
    let (tokens, _) = scan(SAMPLE);
    for w in tokens.windows(2) {
        assert!(w[0].line <= w[1].line);
    }
}

#[test]
fn lexeme_rescans_to_its_token() {
    let (tokens, _) = scan(SAMPLE);
    for t in &tokens[..tokens.len() - 1] {
        let text = String::from_utf8(t.lexeme.clone()).unwrap();
        let (again, errors) = scan(&text);
        assert!(errors.is_empty());
        assert_eq!(again.len(), 2);
        assert_eq!(again[0].token_type, t.token_type);
        assert_eq!(again[0].lexeme, t.lexeme);
        assert_eq!(again[0].literal, t.literal);
        assert_eq!(again[0].line, 1 + t.lexeme.iter().filter(|b| **b == b'\n').count());
    }
}

#[test]
fn errors_are_reports_of_stray_bytes_or_an_open_string() {
    let (_, errors) = scan("@\n# \"open");
    assert_eq!(
        errors,
        vec![
            "[line 1] Error: Unexpected character: @.".to_string(),
            "[line 2] Error: Unexpected character: #.".to_string(),
            "[line 2] Error: Unterminated string.".to_string(),
        ]
    );
}

#[test]
fn nothing_is_left_after_a_complete_scan() {
    let mut scanner = Scanner::new("a $ b\nc");
    let first = scanner.scan_tokens();
    assert_eq!(first.len(), 4);
    assert_eq!(scanner.errors().len(), 1);
    let second = scanner.scan_tokens();
    assert_eq!(second.len(), 1);
    assert_eq!(second[0].token_type, TokenType::EOF);
    assert_eq!(second[0].line, 2);
    assert_eq!(scanner.errors().len(), 1);
}

#[test]
fn joining_by_a_line_feed_scans_as_apart() {
    let a = "var x = 1; $\n// c\nprint \"s\ns\";";
    let b = "\n@ fun f() {}\n\"open";
    let joined = format!("{}\n{}", a, b);
    let (ta, ea) = scan(a);
    let (tb, eb) = scan(b);
    let (tj, ej) = scan(&joined);
    let k = 1 + a.bytes().filter(|c| *c == b'\n').count();
    assert_eq!(tj.len(), ta.len() - 1 + tb.len());
    assert_eq!(&tj[..ta.len() - 1], &ta[..ta.len() - 1]);
    for (t, u) in tj[ta.len() - 1..].iter().zip(tb.iter()) {
        assert_eq!(t.token_type, u.token_type);
        assert_eq!(t.lexeme, u.lexeme);
        assert_eq!(t.literal, u.literal);
        assert_eq!(t.line, u.line + k);
    }
    assert_eq!(&ej[..ea.len()], &ea[..]);
    assert_eq!(ej.len(), ea.len() + eb.len());
    assert_eq!(eb, vec![
        "[line 2] Error: Unexpected character: @.".to_string(),
        "[line 3] Error: Unterminated string.".to_string(),
    ]);
    assert_eq!(ej[ea.len()..].to_vec(), vec![
        format!("[line {}] Error: Unexpected character: @.", 2 + k),
        format!("[line {}] Error: Unterminated string.", 3 + k),
    ]);
}
