// Every failure the scanner and the parser can report, each from an input
// that triggers it.

use ana::parser::TomlParser;
use ana::scanner::scan;
use ana::token::Token;
use ana::token::TokenType;

#[test]
fn key_dot_followed_by_equals_fails() {
    // The dot's follower is the equals sign, which is not a key-class byte;
    // here the dot is the key's second byte, so the class check rejects it.
    let r = scan(b"a.=x");
    assert!(r.is_err());
}

#[test]
fn key_dot_bad_follower_fails() {
    let r = scan(b"ab.=x");
    assert_eq!(
        r.unwrap_err().msg,
        "Malformed key header in TOML file: keys containing dots must have an ascii alphanumeric after the dot."
    );
}

#[test]
fn key_of_one_byte_at_end_of_input_fails() {
    let r = scan(b"k");
    assert_eq!(
        r.unwrap_err().msg,
        "Malformed key in TOML file, key must have one character."
    );
}

#[test]
fn key_bad_second_byte_fails() {
    let r = scan(b"a.=x");
    assert_eq!(
        r.unwrap_err().msg,
        "Malformed key in TOML file, first character must be ascii alphanumeric, -, or _."
    );
}

#[test]
fn unterminated_string_fails() {
    // End of input before the closing quote is a scan failure.
    let r = scan(b"key=\"unterminated");
    assert_eq!(
        r.unwrap_err().msg,
        "Malformed string in TOML file: end of input before the closing quote."
    );
}

#[test]
fn escape_in_string_fails() {
    let r = scan(b"key=\"a\\b\"");
    assert_eq!(
        r.unwrap_err().msg,
        "Malformed string on TOML file: character escape is not currently supported."
    );
}

#[test]
fn newline_in_string_fails() {
    let r = scan(b"key=\"a\nb\"");
    assert!(r.is_err());
}

#[test]
fn header_without_first_byte_fails() {
    let r = scan(b"[");
    assert_eq!(
        r.unwrap_err().msg,
        "Malformed table header in TOML file, there must be a character after [."
    );
}

#[test]
fn header_bad_first_byte_fails() {
    let r = scan(b"[!a]\n");
    assert_eq!(
        r.unwrap_err().msg,
        "Malformed table header in TOML file, first character must be ascii alphanumeric, -, or _."
    );
}

#[test]
fn header_dot_bad_follower_fails() {
    let r = scan(b"[a.]\n");
    assert_eq!(
        r.unwrap_err().msg,
        "Malformed table header in TOML file: table headers containing dots must have an ascii alphanumeric after the dot."
    );
}

#[test]
fn header_unterminated_fails() {
    let r = scan(b"[abc");
    assert_eq!(
        r.unwrap_err().msg,
        "Malformed table header in TOML file: end of input before the closing ]."
    );
}

#[test]
fn header_followed_by_junk_fails() {
    let r = scan(b"[abc]x\n");
    assert_eq!(
        r.unwrap_err().msg,
        "Malformed table header in TOML file: table headers must have nothing except a newline after the closing ]."
    );
}

fn tok(tt: TokenType, lexeme: &[u8]) -> Token {
    Token::new(tt, lexeme.to_vec())
}

#[test]
fn key_after_key_fails_citing_equals() {
    let tokens = vec![
        tok(TokenType::TableHeader, b"[t]"),
        tok(TokenType::Key, b"one"),
        tok(TokenType::Key, b"two"),
    ];
    let mut parser = TomlParser::new();
    let r = parser.parse(tokens);
    assert_eq!(
        r.unwrap_err().msg,
        "Parse Error: token after key must be equals sign."
    );
}

#[test]
fn end_after_key_fails() {
    let tokens = vec![tok(TokenType::TableHeader, b"[t]"), tok(TokenType::Key, b"one")];
    let mut parser = TomlParser::new();
    let r = parser.parse(tokens);
    assert_eq!(r.unwrap_err().msg, "Parse Error: unexpected end of tokens.");
}

#[test]
fn end_after_equals_fails() {
    let tokens = vec![
        tok(TokenType::TableHeader, b"[t]"),
        tok(TokenType::Key, b"one"),
        tok(TokenType::Equals, b"="),
    ];
    let mut parser = TomlParser::new();
    let r = parser.parse(tokens);
    assert_eq!(r.unwrap_err().msg, "Parse Error: unexpected end of tokens.");
}

#[test]
fn bad_value_after_equals_fails() {
    let tokens = vec![
        tok(TokenType::TableHeader, b"[t]"),
        tok(TokenType::Key, b"one"),
        tok(TokenType::Equals, b"="),
        tok(TokenType::Comma, b","),
    ];
    let mut parser = TomlParser::new();
    let r = parser.parse(tokens);
    assert_eq!(
        r.unwrap_err().msg,
        "Parse Error: token after equals in a key val pair must be either string or array start."
    );
}

#[test]
fn non_key_after_header_fails() {
    let tokens = vec![tok(TokenType::TableHeader, b"[t]"), tok(TokenType::Equals, b"=")];
    let mut parser = TomlParser::new();
    let r = parser.parse(tokens);
    assert_eq!(
        r.unwrap_err().msg,
        "Parse error: token after table header must be a key"
    );
}

#[test]
fn header_after_nonempty_header_fails() {
    // An empty table is only legal at the very end of the tokens.
    let tokens = vec![tok(TokenType::TableHeader, b"[a]"), tok(TokenType::TableHeader, b"[b]")];
    let mut parser = TomlParser::new();
    assert!(parser.parse(tokens).is_err());
}

#[test]
fn stray_token_in_array_fails() {
    let tokens = vec![
        tok(TokenType::TableHeader, b"[t]"),
        tok(TokenType::Key, b"one"),
        tok(TokenType::Equals, b"="),
        tok(TokenType::ArrayStart, b"["),
        tok(TokenType::Equals, b"="),
    ];
    let mut parser = TomlParser::new();
    let r = parser.parse(tokens);
    assert_eq!(
        r.unwrap_err().msg,
        "Parse Error: Unexpected token type in string array."
    );
}

#[test]
fn string_after_string_in_array_fails() {
    let tokens = vec![
        tok(TokenType::TableHeader, b"[t]"),
        tok(TokenType::Key, b"one"),
        tok(TokenType::Equals, b"="),
        tok(TokenType::ArrayStart, b"["),
        tok(TokenType::String, b"\"a\""),
        tok(TokenType::String, b"\"b\""),
    ];
    let mut parser = TomlParser::new();
    let r = parser.parse(tokens);
    assert_eq!(
        r.unwrap_err().msg,
        "Parse Error: the only allowed tokens after a string in an array are , and ]"
    );
}

#[test]
fn unterminated_array_fails() {
    let tokens = vec![
        tok(TokenType::TableHeader, b"[t]"),
        tok(TokenType::Key, b"one"),
        tok(TokenType::Equals, b"="),
        tok(TokenType::ArrayStart, b"["),
        tok(TokenType::String, b"\"a\""),
    ];
    let mut parser = TomlParser::new();
    let r = parser.parse(tokens);
    assert_eq!(r.unwrap_err().msg, "Parse Error: unexpected end of tokens.");
}

#[test]
fn stray_top_level_tokens_are_ignored() {
    // The permissive top-level default: tokens outside any table are skipped.
    let tokens = vec![tok(TokenType::Key, b"one"), tok(TokenType::Key, b"two")];
    let mut parser = TomlParser::new();
    parser.parse(tokens).unwrap();
    assert_eq!(parser.toml.tables.len(), 0);
}
