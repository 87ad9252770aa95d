// The scan-then-parse pipeline on whole inputs.

use ana::document::Value;
use ana::parser::TomlParser;
use ana::scanner::scan;
use ana::token::TokenType;

#[test]
fn scan_header_and_string_key_val() {
    let tokens = scan(b"[tbl]\nkey=\"val\"\n").unwrap();
    assert_eq!(tokens.len(), 4);
    assert!(tokens[0].token_type == TokenType::TableHeader);
    assert_eq!(tokens[0].lexeme, b"[tbl]".to_vec());
    assert!(tokens[1].token_type == TokenType::Key);
    assert_eq!(tokens[1].lexeme, b"key".to_vec());
    assert!(tokens[2].token_type == TokenType::Equals);
    assert_eq!(tokens[2].lexeme, b"=".to_vec());
    assert!(tokens[3].token_type == TokenType::String);
    assert_eq!(tokens[3].lexeme, b"\"val\"".to_vec());

    let mut parser = TomlParser::new();
    parser.parse(tokens).unwrap();
    assert_eq!(parser.toml.tables.len(), 1);
    let table = &parser.toml.tables[0];
    assert_eq!(table.header, b"[tbl]".to_vec());
    assert_eq!(table.key_vals.len(), 1);
    assert_eq!(table.key_vals[0].key, b"key".to_vec());
    match &table.key_vals[0].val {
        Value::String(s) => assert_eq!(*s, b"val".to_vec()),
        Value::ArrayOfStrings(_) => panic!("expected a scalar string value"),
    }
}

#[test]
fn scan_string_array_value() {
    let tokens = scan(b"[tbl]\narr=[\"a\",\"b\"]\n").unwrap();
    let mut parser = TomlParser::new();
    parser.parse(tokens).unwrap();
    assert_eq!(parser.toml.tables.len(), 1);
    let table = &parser.toml.tables[0];
    assert_eq!(table.key_vals.len(), 1);
    assert_eq!(table.key_vals[0].key, b"arr".to_vec());
    match &table.key_vals[0].val {
        Value::ArrayOfStrings(items) => {
            assert_eq!(items.len(), 2);
            assert_eq!(items[0], b"a".to_vec());
            assert_eq!(items[1], b"b".to_vec());
        }
        Value::String(_) => panic!("expected an array value"),
    }
}

#[test]
fn empty_array_value() {
    let tokens = scan(b"[t]\nkk=[]\n").unwrap();
    let mut parser = TomlParser::new();
    parser.parse(tokens).unwrap();
    match &parser.toml.tables[0].key_vals[0].val {
        Value::ArrayOfStrings(items) => assert_eq!(items.len(), 0),
        Value::String(_) => panic!("expected an array value"),
    }
}

#[test]
fn empty_input_scans_and_parses_to_nothing() {
    let tokens = scan(b"").unwrap();
    assert_eq!(tokens.len(), 0);
    let mut parser = TomlParser::new();
    parser.parse(tokens).unwrap();
    assert_eq!(parser.toml.tables.len(), 0);
}

#[test]
fn duplicate_headers_and_keys_are_kept_in_order() {
    let tokens = scan(b"[a]\nk1=\"x\"\nk1=\"y\"\n[a]\nk2=\"z\"\n").unwrap();
    let mut parser = TomlParser::new();
    parser.parse(tokens).unwrap();
    assert_eq!(parser.toml.tables.len(), 2);
    assert_eq!(parser.toml.tables[0].header, b"[a]".to_vec());
    assert_eq!(parser.toml.tables[0].key_vals.len(), 2);
    assert_eq!(parser.toml.tables[0].key_vals[0].key, b"k1".to_vec());
    assert_eq!(parser.toml.tables[0].key_vals[1].key, b"k1".to_vec());
    assert_eq!(parser.toml.tables[1].header, b"[a]".to_vec());
    assert_eq!(parser.toml.tables[1].key_vals[0].key, b"k2".to_vec());
}

#[test]
fn dotted_header_keeps_its_dot() {
    let tokens = scan(b"[a.b]\nkey=\"v\"\n").unwrap();
    assert_eq!(tokens[0].lexeme, b"[a.b]".to_vec());
}

#[test]
fn comment_is_dropped_and_clears_the_line_flag() {
    // After a comment the scanner is not at a line start, so the key bytes
    // that follow are dropped; only the equals sign and the string survive.
    let tokens = scan(b"#c\nkey=\"v\"\n").unwrap();
    assert_eq!(tokens.len(), 2);
    assert!(tokens[0].token_type == TokenType::Equals);
    assert!(tokens[1].token_type == TokenType::String);
    assert_eq!(tokens[1].lexeme, b"\"v\"".to_vec());
}

#[test]
fn tables_parsed_count_matches_headers() {
    let tokens = scan(b"[one]\nk1=\"a\"\n[two]\nk2=\"b\"\n[three]\n").unwrap();
    let mut parser = TomlParser::new();
    parser.parse(tokens).unwrap();
    assert_eq!(parser.toml.tables.len(), 3);
}

#[test]
fn token_type_names() {
    assert_eq!(TokenType::Key.name(), "key");
    assert_eq!(TokenType::String.name(), "string");
    assert_eq!(TokenType::TableHeader.name(), "table header");
    assert_eq!(TokenType::ArrayStart.name(), "array start");
    assert_eq!(TokenType::ArrayEnd.name(), "array end");
    assert_eq!(TokenType::Comma.name(), "comma");
    assert_eq!(TokenType::Equals.name(), "equals");
}
