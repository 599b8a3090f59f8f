//! Tokens of the Lox language: their kinds, literal values and printed form.

use vstd::prelude::*;
use vstd::utf8::encode_utf8;

verus! {

/// The kind of a token.
#[allow(non_camel_case_types)]
#[derive(Clone, Copy, Debug, PartialEq, Eq, Structural)]
pub enum TokenType {
    LEFT_PAREN,
    RIGHT_PAREN,
    LEFT_BRACE,
    RIGHT_BRACE,
    COMMA,
    DOT,
    MINUS,
    PLUS,
    SEMICOLON,
    SLASH,
    STAR,
    BANG,
    BANG_EQUAL,
    EQUAL,
    EQUAL_EQUAL,
    GREATER,
    GREATER_EQUAL,
    LESS,
    LESS_EQUAL,
    IDENTIFIER,
    STRING,
    NUMBER,
    AND,
    CLASS,
    ELSE,
    FALSE,
    FUN,
    FOR,
    IF,
    NIL,
    OR,
    PRINT,
    RETURN,
    SUPER,
    THIS,
    TRUE,
    VAR,
    WHILE,
    EOF,
}

/// The kind of token that the word `text` makes: the keyword's kind where
/// `text` spells one of Lox's reserved words in ASCII, else `IDENTIFIER`.
pub open spec fn word_kind(text: Seq<u8>) -> TokenType {
    if text == seq![97u8, 110, 100] {  // and
        TokenType::AND
    } else if text == seq![99u8, 108, 97, 115, 115] {  // class
        TokenType::CLASS
    } else if text == seq![101u8, 108, 115, 101] {  // else
        TokenType::ELSE
    } else if text == seq![102u8, 97, 108, 115, 101] {  // false
        TokenType::FALSE
    } else if text == seq![102u8, 111, 114] {  // for
        TokenType::FOR
    } else if text == seq![102u8, 117, 110] {  // fun
        TokenType::FUN
    } else if text == seq![105u8, 102] {  // if
        TokenType::IF
    } else if text == seq![110u8, 105, 108] {  // nil
        TokenType::NIL
    } else if text == seq![111u8, 114] {  // or
        TokenType::OR
    } else if text == seq![112u8, 114, 105, 110, 116] {  // print
        TokenType::PRINT
    } else if text == seq![114u8, 101, 116, 117, 114, 110] {  // return
        TokenType::RETURN
    } else if text == seq![115u8, 117, 112, 101, 114] {  // super
        TokenType::SUPER
    } else if text == seq![116u8, 104, 105, 115] {  // this
        TokenType::THIS
    } else if text == seq![116u8, 114, 117, 101] {  // true
        TokenType::TRUE
    } else if text == seq![118u8, 97, 114] {  // var
        TokenType::VAR
    } else if text == seq![119u8, 104, 105, 108, 101] {  // while
        TokenType::WHILE
    } else {
        TokenType::IDENTIFIER
    }
}

/// The value a literal token carries, as the scanner sees it.
pub enum SpecLiteral {
    /// The bytes between the quotes of a string literal.
    Str(Seq<u8>),
    /// The decimal text of a number literal.
    Number(Seq<u8>),
}

/// The value that a string or number token carries.
#[derive(Clone, Debug, PartialEq, Eq)]
pub enum Literal {
    /// The bytes between the quotes of a string literal.
    String(Vec<u8>),
    /// The decimal text of a number literal (digits, with an optional
    /// fraction after a `.`); its numeric value is what that text denotes.
    Number(Vec<u8>),
}

impl View for Literal {
    type V = SpecLiteral;

    open spec fn view(&self) -> SpecLiteral {
        match self {
            Literal::String(s) => SpecLiteral::Str(s@),
            Literal::Number(s) => SpecLiteral::Number(s@),
        }
    }
}

/// The abstract value of a token.
pub struct SpecToken {
    pub token_type: TokenType,
    pub lexeme: Seq<u8>,
    pub literal: Option<SpecLiteral>,
    pub line: nat,
}

/// A token: its kind, the source bytes it was scanned from, the value it
/// carries, and the line on which it ends.
#[derive(Clone, Debug, PartialEq, Eq)]
pub struct Token {
    pub token_type: TokenType,
    pub lexeme: Vec<u8>,
    pub literal: Option<Literal>,
    pub line: usize,
}

/// The abstract value of an optional literal.
pub open spec fn literal_view(l: Option<Literal>) -> Option<SpecLiteral> {
    match l {
        Some(v) => Some(v@),
        None => None,
    }
}

impl View for Token {
    type V = SpecToken;

    open spec fn view(&self) -> SpecToken {
        SpecToken {
            token_type: self.token_type,
            lexeme: self.lexeme@,
            literal: literal_view(self.literal),
            line: self.line as nat,
        }
    }
}

/// The abstract values of a sequence of tokens.
pub open spec fn tokens_view(ts: Seq<Token>) -> Seq<SpecToken> {
    ts.map_values(|t: Token| t@)
}

impl TokenType {
    /// The printed name of the kind: the variant's own name.
    pub open spec fn spec_name(self) -> Seq<char> {
        match self {
            TokenType::LEFT_PAREN => "LEFT_PAREN"@,
            TokenType::RIGHT_PAREN => "RIGHT_PAREN"@,
            TokenType::LEFT_BRACE => "LEFT_BRACE"@,
            TokenType::RIGHT_BRACE => "RIGHT_BRACE"@,
            TokenType::COMMA => "COMMA"@,
            TokenType::DOT => "DOT"@,
            TokenType::MINUS => "MINUS"@,
            TokenType::PLUS => "PLUS"@,
            TokenType::SEMICOLON => "SEMICOLON"@,
            TokenType::SLASH => "SLASH"@,
            TokenType::STAR => "STAR"@,
            TokenType::BANG => "BANG"@,
            TokenType::BANG_EQUAL => "BANG_EQUAL"@,
            TokenType::EQUAL => "EQUAL"@,
            TokenType::EQUAL_EQUAL => "EQUAL_EQUAL"@,
            TokenType::GREATER => "GREATER"@,
            TokenType::GREATER_EQUAL => "GREATER_EQUAL"@,
            TokenType::LESS => "LESS"@,
            TokenType::LESS_EQUAL => "LESS_EQUAL"@,
            TokenType::IDENTIFIER => "IDENTIFIER"@,
            TokenType::STRING => "STRING"@,
            TokenType::NUMBER => "NUMBER"@,
            TokenType::AND => "AND"@,
            TokenType::CLASS => "CLASS"@,
            TokenType::ELSE => "ELSE"@,
            TokenType::FALSE => "FALSE"@,
            TokenType::FUN => "FUN"@,
            TokenType::FOR => "FOR"@,
            TokenType::IF => "IF"@,
            TokenType::NIL => "NIL"@,
            TokenType::OR => "OR"@,
            TokenType::PRINT => "PRINT"@,
            TokenType::RETURN => "RETURN"@,
            TokenType::SUPER => "SUPER"@,
            TokenType::THIS => "THIS"@,
            TokenType::TRUE => "TRUE"@,
            TokenType::VAR => "VAR"@,
            TokenType::WHILE => "WHILE"@,
            TokenType::EOF => "EOF"@,
        }
    }

    /// The printed name of the kind.
    pub fn name(&self) -> (r: &'static str)
        ensures
            r@ == self.spec_name(),
    {
        match self {
            TokenType::LEFT_PAREN => "LEFT_PAREN",
            TokenType::RIGHT_PAREN => "RIGHT_PAREN",
            TokenType::LEFT_BRACE => "LEFT_BRACE",
            TokenType::RIGHT_BRACE => "RIGHT_BRACE",
            TokenType::COMMA => "COMMA",
            TokenType::DOT => "DOT",
            TokenType::MINUS => "MINUS",
            TokenType::PLUS => "PLUS",
            TokenType::SEMICOLON => "SEMICOLON",
            TokenType::SLASH => "SLASH",
            TokenType::STAR => "STAR",
            TokenType::BANG => "BANG",
            TokenType::BANG_EQUAL => "BANG_EQUAL",
            TokenType::EQUAL => "EQUAL",
            TokenType::EQUAL_EQUAL => "EQUAL_EQUAL",
            TokenType::GREATER => "GREATER",
            TokenType::GREATER_EQUAL => "GREATER_EQUAL",
            TokenType::LESS => "LESS",
            TokenType::LESS_EQUAL => "LESS_EQUAL",
            TokenType::IDENTIFIER => "IDENTIFIER",
            TokenType::STRING => "STRING",
            TokenType::NUMBER => "NUMBER",
            TokenType::AND => "AND",
            TokenType::CLASS => "CLASS",
            TokenType::ELSE => "ELSE",
            TokenType::FALSE => "FALSE",
            TokenType::FUN => "FUN",
            TokenType::FOR => "FOR",
            TokenType::IF => "IF",
            TokenType::NIL => "NIL",
            TokenType::OR => "OR",
            TokenType::PRINT => "PRINT",
            TokenType::RETURN => "RETURN",
            TokenType::SUPER => "SUPER",
            TokenType::THIS => "THIS",
            TokenType::TRUE => "TRUE",
            TokenType::VAR => "VAR",
            TokenType::WHILE => "WHILE",
            TokenType::EOF => "EOF",
        }
    }
}

/// The bytes of the word `null`, printed for a token without a literal.
pub open spec fn null_bytes() -> Seq<u8> {
    seq![110u8, 117, 108, 108]
}

/// The printed line of a token: the kind's name, the lexeme and the
/// literal, separated by single spaces. A string literal prints as its
/// contents, a token without a literal as `null`, and a number literal as
/// `number_text`, the printed form of its value.
pub open spec fn token_line(t: SpecToken, number_text: Seq<u8>) -> Seq<u8> {
    let literal = match t.literal {
        None => null_bytes(),
        Some(SpecLiteral::Str(s)) => s,
        Some(SpecLiteral::Number(_)) => number_text,
    };
    encode_utf8(t.token_type.spec_name()) + seq![32u8] + t.lexeme + seq![32u8]
        + literal
}

/// Appends the bytes of `b` to `v`.
fn append_bytes(v: &mut Vec<u8>, b: &[u8])
    ensures
        final(v)@ == old(v)@ + b@,
{
    let mut i: usize = 0;
    while i < b.len()
        invariant
            i <= b@.len(),
            v@ == old(v)@ + b@.subrange(0, i as int),
        decreases b@.len() - i,
    {
        v.push(b[i]);
        i = i + 1;
        assert(v@ =~= old(v)@ + b@.subrange(0, i as int));
    }
    assert(b@.subrange(0, b@.len() as int) =~= b@);
}

impl Token {
    /// The printed line of this token (see `token_line`); `number_text` is
    /// printed in place of a number literal.
    pub fn render(&self, number_text: &[u8]) -> (r: Vec<u8>)
        ensures
            r@ == token_line(self@, number_text@),
    {
        let mut v: Vec<u8> = Vec::new();
        append_bytes(&mut v, self.token_type.name().as_bytes());
        v.push(32u8);
        append_bytes(&mut v, self.lexeme.as_slice());
        v.push(32u8);
        match &self.literal {
            None => append_bytes(&mut v, &[110u8, 117, 108, 108]),
            Some(Literal::String(s)) => append_bytes(&mut v, s.as_slice()),
            Some(Literal::Number(_)) => append_bytes(&mut v, number_text),
        }
        v
    }
}

/// A word makes a keyword token exactly when it spells that keyword, byte
/// for byte: `and`, `class`, `else`, `false`, `for`, `fun`, `if`, `nil`,
/// `or`, `print`, `return`, `super`, `this`, `true`, `var`, `while`; every
/// other word (a longer or shorter one, or one in another case) makes an
/// `IDENTIFIER`.
pub proof fn law_keywords_are_exact_words(text: Seq<u8>)
    ensures
        (word_kind(text) == TokenType::AND) == (text == seq![97u8, 110, 100]),  // and
        (word_kind(text) == TokenType::CLASS) == (text == seq![99u8, 108, 97, 115, 115]),  // class
        (word_kind(text) == TokenType::ELSE) == (text == seq![101u8, 108, 115, 101]),  // else
        (word_kind(text) == TokenType::FALSE) == (text == seq![102u8, 97, 108, 115, 101]),  // false
        (word_kind(text) == TokenType::FOR) == (text == seq![102u8, 111, 114]),  // for
        (word_kind(text) == TokenType::FUN) == (text == seq![102u8, 117, 110]),  // fun
        (word_kind(text) == TokenType::IF) == (text == seq![105u8, 102]),  // if
        (word_kind(text) == TokenType::NIL) == (text == seq![110u8, 105, 108]),  // nil
        (word_kind(text) == TokenType::OR) == (text == seq![111u8, 114]),  // or
        (word_kind(text) == TokenType::PRINT) == (text == seq![112u8, 114, 105, 110, 116]),  // print
        (word_kind(text) == TokenType::RETURN) == (text == seq![114u8, 101, 116, 117, 114, 110]),  // return
        (word_kind(text) == TokenType::SUPER) == (text == seq![115u8, 117, 112, 101, 114]),  // super
        (word_kind(text) == TokenType::THIS) == (text == seq![116u8, 104, 105, 115]),  // this
        (word_kind(text) == TokenType::TRUE) == (text == seq![116u8, 114, 117, 101]),  // true
        (word_kind(text) == TokenType::VAR) == (text == seq![118u8, 97, 114]),  // var
        (word_kind(text) == TokenType::WHILE) == (text == seq![119u8, 104, 105, 108, 101]),  // while
        (word_kind(text) == TokenType::IDENTIFIER) == !(
            text == seq![97u8, 110, 100] ||
            text == seq![99u8, 108, 97, 115, 115] ||
            text == seq![101u8, 108, 115, 101] ||
            text == seq![102u8, 97, 108, 115, 101] ||
            text == seq![102u8, 111, 114] ||
            text == seq![102u8, 117, 110] ||
            text == seq![105u8, 102] ||
            text == seq![110u8, 105, 108] ||
            text == seq![111u8, 114] ||
            text == seq![112u8, 114, 105, 110, 116] ||
            text == seq![114u8, 101, 116, 117, 114, 110] ||
            text == seq![115u8, 117, 112, 101, 114] ||
            text == seq![116u8, 104, 105, 115] ||
            text == seq![116u8, 114, 117, 101] ||
            text == seq![118u8, 97, 114] ||
            text == seq![119u8, 104, 105, 108, 101]
        ),
{
    assert(seq![97u8, 110, 100].len() == 3);
    assert(seq![99u8, 108, 97, 115, 115].len() == 5);
    assert(seq![101u8, 108, 115, 101].len() == 4);
    assert(seq![102u8, 97, 108, 115, 101].len() == 5);
    assert(seq![102u8, 111, 114].len() == 3);
    assert(seq![102u8, 117, 110].len() == 3);
    assert(seq![105u8, 102].len() == 2);
    assert(seq![110u8, 105, 108].len() == 3);
    assert(seq![111u8, 114].len() == 2);
    assert(seq![112u8, 114, 105, 110, 116].len() == 5);
    assert(seq![114u8, 101, 116, 117, 114, 110].len() == 6);
    assert(seq![115u8, 117, 112, 101, 114].len() == 5);
    assert(seq![116u8, 104, 105, 115].len() == 4);
    assert(seq![116u8, 114, 117, 101].len() == 4);
    assert(seq![118u8, 97, 114].len() == 3);
    assert(seq![119u8, 104, 105, 108, 101].len() == 5);
}

/// Whether two byte strings are equal.
fn same_bytes(a: &[u8], b: &[u8]) -> (r: bool)
    ensures
        r == (a@ == b@),
{
    if a.len() != b.len() {
        return false;
    }
    let mut i: usize = 0;
    while i < a.len()
        invariant
            a@.len() == b@.len(),
            i <= a@.len(),
            forall|j: int| 0 <= j < i ==> a@[j] == b@[j],
        decreases a@.len() - i,
    {
        if a[i] != b[i] {
            return false;
        }
        i = i + 1;
    }
    assert(a@ =~= b@);
    true
}

impl TokenType {
    /// The kind of token that an identifier-shaped word makes: a keyword's
    /// kind where the word is reserved, else `IDENTIFIER`.
    pub fn get_token_type(text: &[u8]) -> (r: TokenType)
        ensures
            r == word_kind(text@),
    {
        if same_bytes(text, &[97u8, 110, 100]) {
            TokenType::AND
        } else if same_bytes(text, &[99u8, 108, 97, 115, 115]) {
            TokenType::CLASS
        } else if same_bytes(text, &[101u8, 108, 115, 101]) {
            TokenType::ELSE
        } else if same_bytes(text, &[102u8, 97, 108, 115, 101]) {
            TokenType::FALSE
        } else if same_bytes(text, &[102u8, 111, 114]) {
            TokenType::FOR
        } else if same_bytes(text, &[102u8, 117, 110]) {
            TokenType::FUN
        } else if same_bytes(text, &[105u8, 102]) {
            TokenType::IF
        } else if same_bytes(text, &[110u8, 105, 108]) {
            TokenType::NIL
        } else if same_bytes(text, &[111u8, 114]) {
            TokenType::OR
        } else if same_bytes(text, &[112u8, 114, 105, 110, 116]) {
            TokenType::PRINT
        } else if same_bytes(text, &[114u8, 101, 116, 117, 114, 110]) {
            TokenType::RETURN
        } else if same_bytes(text, &[115u8, 117, 112, 101, 114]) {
            TokenType::SUPER
        } else if same_bytes(text, &[116u8, 104, 105, 115]) {
            TokenType::THIS
        } else if same_bytes(text, &[116u8, 114, 117, 101]) {
            TokenType::TRUE
        } else if same_bytes(text, &[118u8, 97, 114]) {
            TokenType::VAR
        } else if same_bytes(text, &[119u8, 104, 105, 108, 101]) {
            TokenType::WHILE
        } else {
            TokenType::IDENTIFIER
        }
    }
}

} // verus!
