// The canonical byte form, and the round trip from a document through its
// bytes back to an equal document.

use ana::document::KeyVal;
use ana::document::Table;
use ana::document::Toml;
use ana::document::Value;
use ana::parser::TomlParser;
use ana::scanner::scan;

fn sample_doc() -> Toml {
    let mut table = Table::new(b"[server]".to_vec());
    table.key_vals.push(KeyVal::from_strings("host", "localhost"));
    table.key_vals.push(KeyVal::new(
        b"ports".to_vec(),
        Some(Value::ArrayOfStrings(vec![b"80".to_vec(), b"8080".to_vec()])),
    ));
    let mut other = Table::new(b"[client]".to_vec());
    other.key_vals.push(KeyVal::from_strings("retries", "3"));
    let mut doc = Toml::new();
    doc.tables.push(table);
    doc.tables.push(other);
    doc
}

#[test]
fn value_bytes_requote_strings() {
    assert_eq!(Value::String(b"val".to_vec()).bytes(), b"\"val\"".to_vec());
    assert_eq!(
        Value::ArrayOfStrings(vec![b"a".to_vec(), b"b".to_vec()]).bytes(),
        b"[\"a\",\"b\"]".to_vec()
    );
    assert_eq!(Value::ArrayOfStrings(vec![]).bytes(), b"[]".to_vec());
}

#[test]
fn key_val_bytes() {
    let kv = KeyVal::from_strings("key", "val");
    assert_eq!(kv.bytes(), b"key=\"val\"".to_vec());
}

#[test]
fn key_val_without_value_defaults_to_empty_string() {
    let kv = KeyVal::new(b"key".to_vec(), None);
    assert_eq!(kv.bytes(), b"key=\"\"".to_vec());
}

#[test]
fn table_bytes() {
    let mut table = Table::new(b"[t]".to_vec());
    table.key_vals.push(KeyVal::from_strings("kx", "v"));
    assert_eq!(table.bytes(), b"[t]\nkx=\"v\"\n".to_vec());
}

#[test]
fn toml_bytes_separate_tables_with_blank_lines() {
    let doc = sample_doc();
    assert_eq!(
        doc.bytes(),
        b"[server]\nhost=\"localhost\"\nports=[\"80\",\"8080\"]\n\n[client]\nretries=\"3\"\n\n"
            .to_vec()
    );
}

#[test]
fn round_trip_through_bytes() {
    let doc = sample_doc();
    let bytes = doc.bytes();
    let tokens = scan(&bytes).unwrap();
    let mut parser = TomlParser::new();
    parser.parse(tokens).unwrap();
    let back = &parser.toml;
    assert_eq!(back.tables.len(), doc.tables.len());
    for (t0, t1) in doc.tables.iter().zip(back.tables.iter()) {
        assert_eq!(t0.header, t1.header);
        assert_eq!(t0.key_vals.len(), t1.key_vals.len());
        for (k0, k1) in t0.key_vals.iter().zip(t1.key_vals.iter()) {
            assert_eq!(k0.key, k1.key);
            match (&k0.val, &k1.val) {
                (Value::String(a), Value::String(b)) => assert_eq!(a, b),
                (Value::ArrayOfStrings(a), Value::ArrayOfStrings(b)) => assert_eq!(a, b),
                _ => panic!("value shape changed over the round trip"),
            }
        }
    }
    // And the canonical form is stable: serializing again gives the same bytes.
    assert_eq!(back.bytes(), bytes);
}

#[test]
fn parse_strips_quotes_scanner_adds_them() {
    // The fixed convention, tested in both directions: the parser strips the
    // delimiting quotes from a scanned string lexeme, and the serializer
    // re-adds them.
    let tokens = scan(b"[t]\nkx=\"v\"\n").unwrap();
    let mut parser = TomlParser::new();
    parser.parse(tokens).unwrap();
    match &parser.toml.tables[0].key_vals[0].val {
        Value::String(s) => assert_eq!(*s, b"v".to_vec()),
        Value::ArrayOfStrings(_) => panic!("expected a scalar string value"),
    }
    assert_eq!(parser.toml.bytes(), b"[t]\nkx=\"v\"\n\n".to_vec());
}

#[test]
fn display_form_is_deterministic_text() {
    let doc = sample_doc();
    assert_eq!(
        doc.display_bytes(),
        b"[server]\nKey: host, Val: localhost\nKey: ports, Val: [80, 8080]\n----\n\n[client]\nKey: retries, Val: 3\n----"
            .to_vec()
    );
}

#[test]
fn display_of_empty_array_and_empty_document() {
    assert_eq!(Value::ArrayOfStrings(vec![]).display_bytes(), b"[]".to_vec());
    assert_eq!(Toml::new().display_bytes(), b"".to_vec());
}
