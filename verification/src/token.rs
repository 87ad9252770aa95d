//! The token vocabulary shared by the scanner and the parser: a token is a
//! kind together with the exact source substring it was scanned from,
//! delimiters included.

use vstd::prelude::*;

verus! {

/// ASCII code of `"`.
pub const QUOTE: u8 = 34;

/// ASCII code of the line feed.
pub const NEWLINE: u8 = 10;

/// ASCII code of `,`.
pub const COMMA: u8 = 44;

/// ASCII code of `=`.
pub const EQUALS: u8 = 61;

/// ASCII code of `[`.
pub const LBRACKET: u8 = 91;

/// ASCII code of `]`.
pub const RBRACKET: u8 = 93;

/// ASCII code of `#`.
pub const HASH: u8 = 35;

/// ASCII code of `\`.
pub const BACKSLASH: u8 = 92;

/// ASCII code of `.`.
pub const DOT: u8 = 46;

/// ASCII code of `-`.
pub const DASH: u8 = 45;

/// ASCII code of `_`.
pub const UNDERSCORE: u8 = 95;

/// The kinds of token the scanner can emit.
#[derive(PartialEq, Eq, Structural, Clone, Copy, Debug)]
pub enum TokenType {
    Key,
    String,
    TableHeader,
    ArrayStart,
    ArrayEnd,
    Comma,
    Equals,
}

/// The display name of a token kind, used in diagnostics.
pub open spec fn spec_token_type_name(t: TokenType) -> Seq<char> {
    match t {
        TokenType::Key => "key"@,
        TokenType::String => "string"@,
        TokenType::TableHeader => "table header"@,
        TokenType::ArrayStart => "array start"@,
        TokenType::ArrayEnd => "array end"@,
        TokenType::Comma => "comma"@,
        TokenType::Equals => "equals"@,
    }
}

impl TokenType {
    /// A human-readable name for this token kind.
    pub fn name(&self) -> (r: String)
        ensures
            r@ == spec_token_type_name(*self),
    {
        match self {
            TokenType::Key => "key".to_owned(),
            TokenType::String => "string".to_owned(),
            TokenType::TableHeader => "table header".to_owned(),
            TokenType::ArrayStart => "array start".to_owned(),
            TokenType::ArrayEnd => "array end".to_owned(),
            TokenType::Comma => "comma".to_owned(),
            TokenType::Equals => "equals".to_owned(),
        }
    }
}

/// The mathematical model of a token: its kind and its lexeme as a byte
/// sequence.
pub struct SpecToken {
    pub token_type: TokenType,
    pub lexeme: Seq<u8>,
}

/// An immutable token: a kind plus the exact bytes consumed for it,
/// including delimiter bytes such as `[`, `]` and `"`.
#[derive(Debug)]
pub struct Token {
    pub token_type: TokenType,
    pub lexeme: Vec<u8>,
}

impl View for Token {
    type V = SpecToken;

    open spec fn view(&self) -> SpecToken {
        SpecToken { token_type: self.token_type, lexeme: self.lexeme@ }
    }
}

impl Token {
    pub fn new(token_type: TokenType, lexeme: Vec<u8>) -> (t: Token)
        ensures
            t@ == (SpecToken { token_type, lexeme: lexeme@ }),
    {
        Token { token_type, lexeme }
    }
}

} // verus!
