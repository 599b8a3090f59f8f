//! The scanner: it walks the bytes of a Lox source once, from left to right,
//! and collects its tokens and the errors it meets.

use vstd::prelude::*;
use vstd::slice::slice_to_vec;
use vstd::utf8::encode_utf8;

use crate::grammar::{literal_view, tokens_view, word_kind, Literal, SpecLiteral, SpecToken, Token, TokenType};
use crate::lexical::{
    byte_at, comparison_kinds, eof_token, lemma_line_monotone, lemma_newline_count_bound, lemma_newlines_split, line_after, newline_count, step_from, is_alpha, is_digit, is_ident_char, lemma_line_step,
    lemma_run_end, lemma_step_advances, lex, line_at, number_end, run_end, scan_step, unexpected_char_message,
    unterminated_string_message, Class,
};
use crate::text::{push_char, push_decimal};

verus! {

/// Scans a Lox source into tokens.
pub struct Scanner<'a> {
    source: &'a [u8],
    tokens: Vec<Token>,
    start: usize,
    current: usize,
    line: usize,
    errors: Vec<String>,
}

/// The text of the report of a byte that begins no token.
fn unexpected_char_report(line: usize, c: u8) -> (s: String)
    ensures
        s@ == unexpected_char_message(line as nat, c),
{
    let mut s = String::from_str("[line ");
    push_decimal(&mut s, line);
    s.append("] Error: Unexpected character: ");
    push_char(&mut s, c as char);
    s.append(".");
    s
}

/// The text of the report of a string that the source ends inside.
fn unterminated_string_report(line: usize) -> (s: String)
    ensures
        s@ == unterminated_string_message(line as nat),
{
    let mut s = String::from_str("[line ");
    push_decimal(&mut s, line);
    s.append("] Error: Unterminated string.");
    s
}

impl<'a> Scanner<'a> {
    /// The bytes being scanned.
    pub closed spec fn source_bytes(&self) -> Seq<u8> {
        self.source@
    }

    /// The position where scanning goes on.
    pub closed spec fn position(&self) -> int {
        self.current as int
    }

    /// The texts of the errors reported so far.
    pub closed spec fn reported(&self) -> Seq<Seq<char>> {
        self.errors@.map_values(|e: String| e@)
    }

    /// The bounds that every state of a scan keeps.
    closed spec fn inv(&self) -> bool {
        &&& self.source@.len() < usize::MAX
        &&& self.start <= self.current <= self.source@.len()
    }

    /// A scanner between calls: within bounds, its line counted from the
    /// start, and no token held back.
    pub closed spec fn wf(&self) -> bool {
        &&& self.inv()
        &&& self.line == line_at(self.source@, self.current as int)
        &&& self.tokens@.len() == 0
    }

    /// How far the line counter stands from the line on which the current
    /// position lies.
    closed spec fn line_offset(&self) -> int {
        self.line as int - line_at(self.source@, self.current as int)
    }

    /// The line counter can count every line left in the source.
    closed spec fn line_room(&self) -> bool {
        line_at(self.source@, self.source@.len() as int) + self.line_offset() <= usize::MAX
    }

    /// What a cursor move leaves as it was.
    closed spec fn frame(&self, other: &Self) -> bool {
        &&& self.source == other.source
        &&& self.tokens == other.tokens
        &&& self.start == other.start
        &&& self.errors == other.errors
    }

    /// A scanner at the start of `input`, with nothing scanned.
    pub fn new(input: &'a str) -> (s: Self)
        requires
            encode_utf8(input@).len() < usize::MAX,
        ensures
            s.wf(),
            s.source_bytes() == encode_utf8(input@),
            s.position() == 0,
            s.reported() == Seq::<Seq<char>>::empty(),
    {
        let s = Scanner {
            source: input.as_bytes(),
            tokens: Vec::new(),
            start: 0,
            current: 0,
            line: 1,
            errors: Vec::new(),
        };
        proof {
            assert(s.source@.take(0) =~= Seq::<u8>::empty());
            assert(s.reported() =~= Seq::<Seq<char>>::empty());
        }
        s
    }

    /// Scans from the current position to the end of the source. Returns the
    /// tokens found there, followed by an `EOF` token on the last line; the
    /// errors met are added to `errors()`.
    pub fn scan_tokens(&mut self) -> (r: Vec<Token>)
        requires
            old(self).wf(),
        ensures
            final(self).wf(),
            final(self).source_bytes() == old(self).source_bytes(),
            final(self).position() == old(self).source_bytes().len(),
            tokens_view(r@) == lex(old(self).source_bytes(), old(self).position()).tokens.push(
                eof_token(old(self).source_bytes()),
            ),
            final(self).reported() == old(self).reported() + lex(
                old(self).source_bytes(),
                old(self).position(),
            ).errors,
    {
        let ghost src = self.source@;
        let ghost c0 = self.current as int;
        let ghost e0 = self.reported();
        proof {
            assert(tokens_view(self.tokens@) =~= Seq::<SpecToken>::empty());
            assert(tokens_view(self.tokens@) + lex(src, c0).tokens =~= lex(src, c0).tokens);
        }
        while !self.is_at_end()
            invariant
                self.inv(),
                self.source@ == src,
                self.line == line_at(src, self.current as int),
                tokens_view(self.tokens@) + lex(src, self.current as int).tokens == lex(
                    src,
                    c0,
                ).tokens,
                self.reported() + lex(src, self.current as int).errors == e0 + lex(src, c0).errors,
            decreases src.len() - self.current,
        {
            let ghost before = *self;
            self.start = self.current;
            proof {
                lemma_step_advances(src, before.current as int);
                lemma_newlines_split(src, before.current as int, src.len() as int);
                lemma_newline_count_bound(src.take(src.len() as int));
            }
            self.scan_token();
            proof {
                lemma_newlines_split(src, before.current as int, self.current as int);
                let step = scan_step(src, before.current as int);
                let rest = lex(src, step.next);
                assert(lex(src, before.current as int).tokens == step.tokens + rest.tokens);
                assert(tokens_view(before.tokens@) + (step.tokens + rest.tokens) =~= (
                tokens_view(before.tokens@) + step.tokens) + rest.tokens);
                assert(before.reported() + (step.errors + rest.errors) =~= (before.reported()
                    + step.errors) + rest.errors);
            }
        }
        proof {
            assert(tokens_view(self.tokens@) + lex(src, self.current as int).tokens =~= tokens_view(
                self.tokens@,
            ));
            assert(self.reported() + lex(src, self.current as int).errors =~= self.reported());
        }
        let eof = Token { token_type: TokenType::EOF, lexeme: Vec::new(), literal: None, line: self.line };
        let ghost before_push = self.tokens@;
        self.tokens.push(eof);
        proof {
            assert(tokens_view(self.tokens@) =~= tokens_view(before_push).push(eof@));
            assert(eof@ == eof_token(src));
        }
        let mut out: Vec<Token> = Vec::new();
        std::mem::swap(&mut out, &mut self.tokens);
        out
    }

    /// Scans one step: the token, skipped text or error that starts at the
    /// current position.
    fn scan_token(&mut self)
        requires
            old(self).inv(),
            old(self).start == old(self).current < old(self).source@.len(),
            old(self).line + newline_count(
                old(self).source@.subrange(old(self).current as int, old(self).source@.len() as int),
            ) <= usize::MAX,
        ensures
            final(self).inv(),
            final(self).source == old(self).source,
            final(self).start == old(self).start,
            final(self).current == step_from(
                old(self).source@,
                old(self).current as int,
                old(self).line as nat,
            ).next,
            final(self).line == line_after(
                old(self).source@,
                old(self).current as int,
                final(self).current as int,
                old(self).line as nat,
            ),
            tokens_view(final(self).tokens@) == tokens_view(old(self).tokens@) + step_from(
                old(self).source@,
                old(self).current as int,
                old(self).line as nat,
            ).tokens,
            final(self).reported() == old(self).reported() + step_from(
                old(self).source@,
                old(self).current as int,
                old(self).line as nat,
            ).errors,
    {
        let ghost src = self.source@;
        let ghost pos = self.current as int;
        let ghost line = self.line as nat;
        proof {
            lemma_line_step(src, pos);
            if pos + 1 < src.len() {
                lemma_line_step(src, pos + 1);
            }
            lemma_newlines_split(src, pos, src.len() as int);
            lemma_step_advances(src, pos);
            lemma_line_monotone(src, pos + 1, src.len() as int);
        }
        let c = self.advance();
        match c {
            40u8 => self.add_token(TokenType::LEFT_PAREN),  // (
            41u8 => self.add_token(TokenType::RIGHT_PAREN),  // )
            123u8 => self.add_token(TokenType::LEFT_BRACE),  // {
            125u8 => self.add_token(TokenType::RIGHT_BRACE),  // }
            44u8 => self.add_token(TokenType::COMMA),  // ,
            46u8 => self.add_token(TokenType::DOT),  // .
            45u8 => self.add_token(TokenType::MINUS),  // -
            43u8 => self.add_token(TokenType::PLUS),  // +
            59u8 => self.add_token(TokenType::SEMICOLON),  // ;
            42u8 => self.add_token(TokenType::STAR),  // *
            61u8 | 33u8 | 60u8 | 62u8 => self.handle_comparison(c),  // = ! < >
            47u8 => self.handle_slash(),  // /
            32u8 | 13u8 | 9u8 => {},  // space, carriage return, tab
            10u8 => {
                // line feed
                self.line = self.line + 1;
            },
            34u8 => self.handle_string(),  // "
            _ => {
                if Self::is_digit(c) {
                    self.handle_number();
                } else if Self::is_alpha(c) || c == 95u8 {
                    self.handle_identifier();
                } else {
                    let message = unexpected_char_report(self.line, c);
                    self.report_error(message);
                }
            },
        }
        proof {
            let step = step_from(src, pos, line);
            lemma_newlines_split(src, pos, self.current as int);
            lemma_newlines_split(src, pos, src.len() as int);
            assert(tokens_view(self.tokens@) =~= tokens_view(old(self).tokens@) + step.tokens);
            assert(self.reported() =~= old(self).reported() + step.errors);
        }
    }

    /// Whether `c` is an ASCII decimal digit.
    fn is_digit(c: u8) -> (r: bool)
        ensures
            r == is_digit(c),
    {
        48u8 <= c && c <= 57u8
    }

    /// Whether `c` is an ASCII letter.
    fn is_alpha(c: u8) -> (r: bool)
        ensures
            r == is_alpha(c),
    {
        (65u8 <= c && c <= 90u8) || (97u8 <= c && c <= 122u8)
    }

    /// Records an error report.
    fn report_error(&mut self, message: String)
        ensures
            final(self).source == old(self).source,
            final(self).tokens == old(self).tokens,
            final(self).start == old(self).start,
            final(self).current == old(self).current,
            final(self).line == old(self).line,
            final(self).reported() == old(self).reported().push(message@),
    {
        self.errors.push(message);
        proof {
            assert(self.reported() =~= old(self).reported().push(message@));
        }
    }

    /// Adds a token of kind `token_type`, without a literal, scanned from
    /// `start` to the current position.
    fn add_token(&mut self, token_type: TokenType)
        requires
            old(self).inv(),
        ensures
            final(self).source == old(self).source,
            final(self).start == old(self).start,
            final(self).current == old(self).current,
            final(self).line == old(self).line,
            final(self).errors == old(self).errors,
            tokens_view(final(self).tokens@) == tokens_view(old(self).tokens@).push(
                SpecToken {
                    token_type,
                    lexeme: old(self).source@.subrange(old(self).start as int, old(self).current as int),
                    literal: None,
                    line: old(self).line as nat,
                },
            ),
    {
        self.add_token_with_literal(token_type, None);
    }

    /// Adds a token of kind `token_type` that carries `literal`, scanned from
    /// `start` to the current position.
    fn add_token_with_literal(&mut self, token_type: TokenType, literal: Option<Literal>)
        requires
            old(self).inv(),
        ensures
            final(self).source == old(self).source,
            final(self).start == old(self).start,
            final(self).current == old(self).current,
            final(self).line == old(self).line,
            final(self).errors == old(self).errors,
            tokens_view(final(self).tokens@) == tokens_view(old(self).tokens@).push(
                SpecToken {
                    token_type,
                    lexeme: old(self).source@.subrange(old(self).start as int, old(self).current as int),
                    literal: literal_view(literal),
                    line: old(self).line as nat,
                },
            ),
    {
        let lexeme = self.substr(self.start, self.current);
        let t = Token { token_type, lexeme, literal, line: self.line };
        let ghost before = self.tokens@;
        self.tokens.push(t);
        proof {
            assert(tokens_view(self.tokens@) =~= tokens_view(before).push(t@));
        }
    }

    /// After `=`, `!`, `<` or `>`: a two-byte token if `=` follows, else the
    /// one-byte token.
    fn handle_comparison(&mut self, c: u8)
        requires
            old(self).inv(),
            comparison_kinds(c) is Some,
            old(self).current == old(self).start + 1,
        ensures
            final(self).source == old(self).source,
            final(self).start == old(self).start,
            final(self).line == old(self).line,
            final(self).errors == old(self).errors,
            final(self).inv(),
            byte_at(old(self).source@, old(self).current as int) == 61 ==> {
                &&& final(self).current == old(self).current + 1
                &&& tokens_view(final(self).tokens@) == tokens_view(old(self).tokens@).push(
                    SpecToken {
                        token_type: (comparison_kinds(c)->0).1,
                        lexeme: old(self).source@.subrange(
                            old(self).start as int,
                            old(self).current + 1,
                        ),
                        literal: None,
                        line: old(self).line as nat,
                    },
                )
            },
            byte_at(old(self).source@, old(self).current as int) != 61 ==> {
                &&& final(self).current == old(self).current
                &&& tokens_view(final(self).tokens@) == tokens_view(old(self).tokens@).push(
                    SpecToken {
                        token_type: (comparison_kinds(c)->0).0,
                        lexeme: old(self).source@.subrange(
                            old(self).start as int,
                            old(self).current as int,
                        ),
                        literal: None,
                        line: old(self).line as nat,
                    },
                )
            },
    {
        let (single_char_token, double_char_token) = match c {
            61u8 => (TokenType::EQUAL, TokenType::EQUAL_EQUAL),  // =
            33u8 => (TokenType::BANG, TokenType::BANG_EQUAL),  // !
            60u8 => (TokenType::LESS, TokenType::LESS_EQUAL),  // <
            _ => (TokenType::GREATER, TokenType::GREATER_EQUAL),  // >
        };
        if self.match_(61u8) {
            self.add_token(double_char_token);
        } else {
            self.add_token(single_char_token);
        }
    }

    /// After `/`: skips a comment if a second `/` follows, else adds a
    /// `SLASH` token.
    fn handle_slash(&mut self)
        requires
            old(self).inv(),
            old(self).current == old(self).start + 1,
            old(self).line_room(),
        ensures
            final(self).source == old(self).source,
            final(self).start == old(self).start,
            final(self).errors == old(self).errors,
            final(self).inv(),
            final(self).line_offset() == old(self).line_offset(),
            byte_at(old(self).source@, old(self).current as int) == 47 ==> {
                &&& final(self).current == run_end(
                    old(self).source@,
                    old(self).current + 1,
                    Class::NotNewline,
                )
                &&& final(self).tokens == old(self).tokens
            },
            byte_at(old(self).source@, old(self).current as int) != 47 ==> {
                &&& final(self).current == old(self).current
                &&& tokens_view(final(self).tokens@) == tokens_view(old(self).tokens@).push(
                    SpecToken {
                        token_type: TokenType::SLASH,
                        lexeme: old(self).source@.subrange(
                            old(self).start as int,
                            old(self).current as int,
                        ),
                        literal: None,
                        line: old(self).line as nat,
                    },
                )
            },
    {
        let ghost src = self.source@;
        if self.match_(47u8) {
            proof {
                lemma_line_step(src, old(self).current as int);
            }
            self.advance_end_of_line();
        } else {
            self.add_token(TokenType::SLASH);
        }
    }

    /// Moves to the next line feed, or to the end of the source.
    fn advance_end_of_line(&mut self)
        requires
            old(self).inv(),
            old(self).line_room(),
        ensures
            final(self).frame(&*old(self)),
            final(self).inv(),
            final(self).current == run_end(
                old(self).source@,
                old(self).current as int,
                Class::NotNewline,
            ),
            final(self).line == old(self).line,
            final(self).line_offset() == old(self).line_offset(),
    {
        let ghost src = self.source@;
        proof {
            lemma_run_end(src, self.current as int, Class::NotNewline);
        }
        while self.peek() != 10u8 && !self.is_at_end()
            invariant
                self.frame(&*old(self)),
                self.inv(),
                self.source@ == src,
                old(self).current <= self.current <= run_end(
                    src,
                    old(self).current as int,
                    Class::NotNewline,
                ),
                self.line == old(self).line,
                self.line as int - line_at(src, self.current as int) == old(self).line_offset(),
                line_at(src, src.len() as int) + old(self).line_offset() <= usize::MAX,
            decreases src.len() - self.current,
        {
            proof {
                lemma_line_step(src, self.current as int);
                lemma_run_end(src, old(self).current as int, Class::NotNewline);
            }
            self.advance();
        }
    }

    /// After `"`: a `STRING` token up to the closing quote, or an error if
    /// the source ends first. Line feeds inside the string count as lines.
    fn handle_string(&mut self)
        requires
            old(self).inv(),
            old(self).current == old(self).start + 1,
            old(self).line_room(),
        ensures
            final(self).source == old(self).source,
            final(self).start == old(self).start,
            final(self).inv(),
            final(self).line_offset() == old(self).line_offset(),
            ({
                let src = old(self).source@;
                let e = run_end(src, old(self).current as int, Class::NotQuote);
                if e >= src.len() {
                    &&& final(self).current == src.len()
                    &&& final(self).tokens == old(self).tokens
                    &&& final(self).reported() == old(self).reported().push(
                        unterminated_string_message(final(self).line as nat),
                    )
                } else {
                    &&& final(self).current == e + 1
                    &&& final(self).errors == old(self).errors
                    &&& tokens_view(final(self).tokens@) == tokens_view(old(self).tokens@).push(
                        SpecToken {
                            token_type: TokenType::STRING,
                            lexeme: src.subrange(old(self).start as int, e + 1),
                            literal: Some(SpecLiteral::Str(src.subrange(old(self).current as int, e))),
                            line: final(self).line as nat,
                        },
                    )
                }
            }),
    {
        let ghost src = self.source@;
        let ghost e = run_end(src, self.current as int, Class::NotQuote);
        proof {
            lemma_run_end(src, self.current as int, Class::NotQuote);
        }
        while self.peek() != 34u8 && !self.is_at_end()
            invariant
                self.frame(&*old(self)),
                self.inv(),
                self.source@ == src,
                old(self).current <= self.current <= e,
                e == run_end(src, old(self).current as int, Class::NotQuote),
                self.line as int - line_at(src, self.current as int) == old(self).line_offset(),
                line_at(src, src.len() as int) + old(self).line_offset() <= usize::MAX,
            decreases src.len() - self.current,
        {
            proof {
                lemma_line_step(src, self.current as int);
                lemma_run_end(src, old(self).current as int, Class::NotQuote);
                lemma_line_monotone(src, self.current + 1, src.len() as int);
            }
            if self.peek() == 10u8 {
                self.line = self.line + 1;
            }
            self.advance();
        }
        if self.is_at_end() {
            let message = unterminated_string_report(self.line);
            self.report_error(message);
            return;
        }
        proof {
            lemma_line_step(src, self.current as int);
        }
        // The closing quote.
        self.advance();
        // The contents, without the surrounding quotes.
        let literal = self.substr(self.start + 1, self.current - 1);
        self.add_token_with_literal(TokenType::STRING, Some(Literal::String(literal)));
    }

    /// Moves past a run of digits.
    fn advance_digits(&mut self)
        requires
            old(self).inv(),
            old(self).line_room(),
        ensures
            final(self).frame(&*old(self)),
            final(self).inv(),
            final(self).current == run_end(old(self).source@, old(self).current as int, Class::Digit),
            final(self).line == old(self).line,
            final(self).line_offset() == old(self).line_offset(),
    {
        let ghost src = self.source@;
        proof {
            lemma_run_end(src, self.current as int, Class::Digit);
        }
        while Self::is_digit(self.peek())
            invariant
                self.frame(&*old(self)),
                self.inv(),
                self.source@ == src,
                old(self).current <= self.current <= run_end(
                    src,
                    old(self).current as int,
                    Class::Digit,
                ),
                self.line == old(self).line,
                self.line as int - line_at(src, self.current as int) == old(self).line_offset(),
                line_at(src, src.len() as int) + old(self).line_offset() <= usize::MAX,
            decreases src.len() - self.current,
        {
            proof {
                lemma_line_step(src, self.current as int);
                lemma_run_end(src, old(self).current as int, Class::Digit);
            }
            self.advance();
        }
    }

    /// After a digit: a `NUMBER` token of the digits, with a fraction if a
    /// `.` and a digit follow them.
    fn handle_number(&mut self)
        requires
            old(self).inv(),
            old(self).current == old(self).start + 1,
            old(self).line_room(),
        ensures
            final(self).source == old(self).source,
            final(self).start == old(self).start,
            final(self).errors == old(self).errors,
            final(self).inv(),
            final(self).current == number_end(old(self).source@, old(self).start as int),
            final(self).line == old(self).line,
            final(self).line_offset() == old(self).line_offset(),
            tokens_view(final(self).tokens@) == tokens_view(old(self).tokens@).push(
                SpecToken {
                    token_type: TokenType::NUMBER,
                    lexeme: old(self).source@.subrange(old(self).start as int, final(self).current as int),
                    literal: Some(
                        SpecLiteral::Number(
                            old(self).source@.subrange(
                                old(self).start as int,
                                final(self).current as int,
                            ),
                        ),
                    ),
                    line: old(self).line as nat,
                },
            ),
    {
        let ghost src = self.source@;
        self.advance_digits();
        // A fractional part.
        if self.peek() == 46u8 && Self::is_digit(self.peek_next()) {
            proof {
                lemma_line_step(src, self.current as int);
            }
            // The ".".
            self.advance();
            self.advance_digits();
        }
        let number = self.substr(self.start, self.current);
        self.add_token_with_literal(TokenType::NUMBER, Some(Literal::Number(number)));
    }

    /// After a letter or `_`: an identifier or keyword token of the longest
    /// run of identifier bytes.
    fn handle_identifier(&mut self)
        requires
            old(self).inv(),
            old(self).current == old(self).start + 1,
            old(self).line_room(),
        ensures
            final(self).source == old(self).source,
            final(self).start == old(self).start,
            final(self).errors == old(self).errors,
            final(self).inv(),
            final(self).current == run_end(old(self).source@, old(self).current as int, Class::IdentChar),
            final(self).line == old(self).line,
            final(self).line_offset() == old(self).line_offset(),
            tokens_view(final(self).tokens@) == tokens_view(old(self).tokens@).push(
                SpecToken {
                    token_type: word_kind(
                        old(self).source@.subrange(old(self).start as int, final(self).current as int),
                    ),
                    lexeme: old(self).source@.subrange(old(self).start as int, final(self).current as int),
                    literal: None,
                    line: old(self).line as nat,
                },
            ),
    {
        let ghost src = self.source@;
        proof {
            lemma_run_end(src, self.current as int, Class::IdentChar);
        }
        while Self::is_identifier_char(self.peek())
            invariant
                self.frame(&*old(self)),
                self.inv(),
                self.source@ == src,
                old(self).current <= self.current <= run_end(
                    src,
                    old(self).current as int,
                    Class::IdentChar,
                ),
                self.line == old(self).line,
                self.line as int - line_at(src, self.current as int) == old(self).line_offset(),
                line_at(src, src.len() as int) + old(self).line_offset() <= usize::MAX,
            decreases src.len() - self.current,
        {
            proof {
                lemma_line_step(src, self.current as int);
                lemma_run_end(src, old(self).current as int, Class::IdentChar);
            }
            self.advance();
        }
        let text = self.substr_str(self.start, self.current);
        let token_type = TokenType::get_token_type(text);
        self.add_token(token_type);
    }

    /// Whether `c` may continue an identifier: an ASCII letter or digit, or `_`.
    fn is_identifier_char(c: u8) -> (r: bool)
        ensures
            r == is_ident_char(c),
    {
        Self::is_alpha(c) || Self::is_digit(c) || c == 95u8
    }

    /// A copy of the source bytes from `start` to `end`.
    fn substr(&self, start: usize, end: usize) -> (r: Vec<u8>)
        requires
            start <= end <= self.source@.len(),
        ensures
            r@ == self.source@.subrange(start as int, end as int),
    {
        slice_to_vec(self.substr_str(start, end))
    }

    /// The source bytes from `start` to `end`.
    fn substr_str(&self, start: usize, end: usize) -> (r: &[u8])
        requires
            start <= end <= self.source@.len(),
        ensures
            r@ == self.source@.subrange(start as int, end as int),
    {
        &self.source[start..end]
    }

    /// Moves past the next byte if it is `expected`; tells whether it did.
    fn match_(&mut self, expected: u8) -> (r: bool)
        requires
            old(self).inv(),
            expected != 0 || old(self).current < old(self).source@.len(),
        ensures
            final(self).frame(&*old(self)),
            final(self).line == old(self).line,
            final(self).inv(),
            r == (byte_at(old(self).source@, old(self).current as int) == expected),
            final(self).current == old(self).current + if r {
                1int
            } else {
                0int
            },
    {
        let is_match = self.peek() == expected;
        if is_match {
            self.advance();
        }
        is_match
    }

    /// The byte at the current position, or `0` at the end.
    fn peek(&self) -> (r: u8)
        requires
            self.inv(),
        ensures
            r == byte_at(self.source@, self.current as int),
    {
        if self.is_at_end() {
            0u8
        } else {
            self.source[self.current]
        }
    }

    /// The byte after the current one, or `0` past the end.
    fn peek_next(&self) -> (r: u8)
        requires
            self.inv(),
        ensures
            r == byte_at(self.source@, self.current + 1),
    {
        if self.current + 1 >= self.source.len() {
            0u8
        } else {
            self.source[self.current + 1]
        }
    }

    /// Whether the whole source has been consumed.
    fn is_at_end(&self) -> (r: bool)
        requires
            self.inv(),
        ensures
            r == (self.current >= self.source@.len()),
    {
        self.current >= self.source.len()
    }

    /// Moves past the current byte and returns it.
    fn advance(&mut self) -> (r: u8)
        requires
            old(self).inv(),
            old(self).current < old(self).source@.len(),
        ensures
            final(self).frame(&*old(self)),
            final(self).line == old(self).line,
            final(self).inv(),
            final(self).current == old(self).current + 1,
            r == old(self).source@[old(self).current as int],
    {
        self.current = self.current + 1;
        self.source[self.current - 1]
    }

    /// The errors reported so far, in the order they were met.
    pub fn errors(&self) -> (r: &[String])
        ensures
            r@.map_values(|e: String| e@) == self.reported(),
    {
        self.errors.as_slice()
    }
}

} // verus!
