//! The parser: recursive descent with one token of lookahead over the
//! scanner's token sequence, building a document or failing with a
//! description of the first grammar violation.
//!
//! The top-level loop starts a new table at each table-header token and
//! ignores any other top-level token — an intentional permissive default,
//! kept explicit here. Inside a table, entries are parsed until lookahead
//! shows a token that is not a key; a non-key token where a key is expected,
//! and running out of tokens between a key and the end of its value, are
//! failures. A string value is stored with its delimiting quotes stripped.

use crate::document::KeyVal;
use crate::document::SpecKeyVal;
use crate::document::SpecTable;
use crate::document::SpecValue;
use crate::document::Table;
use crate::document::Toml;
use crate::document::Value;
use crate::document::copy_bytes;
use crate::scanner::view_tokens;
use crate::token::QUOTE;
use crate::token::Token;
use crate::token::TokenType;
use crate::token::SpecToken;
use vstd::prelude::*;

verus! {

/// The ways a parse can fail. Used only to state which message the parser
/// reports on which input; the error a caller sees carries the message.
pub enum ParseErrorKind {
    ArrayUnexpectedToken,
    ArrayBadFollower,
    UnexpectedEnd,
    MissingEquals,
    BadValue,
    ExpectedKey,
}

/// The message reported for each way a parse can fail.
pub open spec fn spec_parse_error_message(k: ParseErrorKind) -> Seq<char> {
    match k {
        ParseErrorKind::ArrayUnexpectedToken => "Parse Error: Unexpected token type in string array."@,
        ParseErrorKind::ArrayBadFollower => "Parse Error: the only allowed tokens after a string in an array are , and ]"@,
        ParseErrorKind::UnexpectedEnd => "Parse Error: unexpected end of tokens."@,
        ParseErrorKind::MissingEquals => "Parse Error: token after key must be equals sign."@,
        ParseErrorKind::BadValue => "Parse Error: token after equals in a key val pair must be either string or array start."@,
        ParseErrorKind::ExpectedKey => "Parse error: token after table header must be a key"@,
    }
}

/// A parse failure: a human-readable description of the first grammar
/// violation.
#[derive(Debug)]
pub struct ParseError {
    pub msg: String,
}

/// The text of a string lexeme: the delimiting quotes are stripped when they
/// are present, and a lexeme not shaped like a quoted string is kept as it
/// is.
pub open spec fn spec_strip_quotes(s: Seq<u8>) -> Seq<u8> {
    if s.len() >= 2 && s[0] == QUOTE && s[s.len() - 1] == QUOTE {
        s.subrange(1, s.len() - 1)
    } else {
        s
    }
}

/// Parsing an array body from `i`, the token right after the array start:
/// string tokens make the elements; a comma after a string is consumed; an
/// array-end token closes the array, either right after a string or in place
/// of one; anything else, or running out of tokens mid-array, is a failure.
/// Returns the elements and the index just past the array end.
pub open spec fn spec_parse_string_array(toks: Seq<SpecToken>, i: int) -> Result<
    (Seq<Seq<u8>>, int),
    ParseErrorKind,
>
    decreases toks.len() - i,
        when 0 <= i <= toks.len()
{
    if i >= toks.len() {
        Err(ParseErrorKind::UnexpectedEnd)
    } else if toks[i].token_type == TokenType::ArrayEnd {
        Ok((Seq::empty(), i + 1))
    } else if toks[i].token_type == TokenType::String {
        let elem = spec_strip_quotes(toks[i].lexeme);
        if i + 1 >= toks.len() {
            Err(ParseErrorKind::UnexpectedEnd)
        } else if toks[i + 1].token_type == TokenType::Comma {
            match spec_parse_string_array(toks, i + 2) {
                Ok((rest, j)) => Ok((seq![elem] + rest, j)),
                Err(k) => Err(k),
            }
        } else if toks[i + 1].token_type == TokenType::ArrayEnd {
            Ok((seq![elem], i + 2))
        } else {
            Err(ParseErrorKind::ArrayBadFollower)
        }
    } else {
        Err(ParseErrorKind::ArrayUnexpectedToken)
    }
}

pub proof fn lemma_parse_string_array_bounds(toks: Seq<SpecToken>, i: int)
    requires
        0 <= i <= toks.len(),
    ensures
        spec_parse_string_array(toks, i) matches Ok(r) ==> i < r.1 <= toks.len(),
    decreases toks.len() - i,
{
    if i < toks.len() && toks[i].token_type == TokenType::String && i + 1 < toks.len()
        && toks[i + 1].token_type == TokenType::Comma {
        lemma_parse_string_array_bounds(toks, i + 2);
    }
}

/// Parsing the remainder of one entry from `i`, the token right after the
/// key: it must be an equals sign; the token after that must be a string or
/// an array start; running out of tokens first is a failure. Returns the
/// value and the index of the first unconsumed token.
pub open spec fn spec_parse_key_val(toks: Seq<SpecToken>, i: int) -> Result<
    (SpecValue, int),
    ParseErrorKind,
> {
    if i >= toks.len() {
        Err(ParseErrorKind::UnexpectedEnd)
    } else if toks[i].token_type != TokenType::Equals {
        Err(ParseErrorKind::MissingEquals)
    } else if i + 1 >= toks.len() {
        Err(ParseErrorKind::UnexpectedEnd)
    } else if toks[i + 1].token_type == TokenType::String {
        Ok((SpecValue::String(spec_strip_quotes(toks[i + 1].lexeme)), i + 2))
    } else if toks[i + 1].token_type == TokenType::ArrayStart {
        match spec_parse_string_array(toks, i + 2) {
            Ok((items, j)) => Ok((SpecValue::ArrayOfStrings(items), j)),
            Err(k) => Err(k),
        }
    } else {
        Err(ParseErrorKind::BadValue)
    }
}

pub proof fn lemma_parse_key_val_bounds(toks: Seq<SpecToken>, i: int)
    requires
        0 <= i <= toks.len(),
    ensures
        spec_parse_key_val(toks, i) matches Ok(r) ==> i < r.1 <= toks.len(),
{
    if i + 2 <= toks.len() {
        lemma_parse_string_array_bounds(toks, i + 2);
    }
}

/// Parsing a table body from `i`, the token right after the table header: a
/// key token is expected, then its entry; after each entry the body ends as
/// soon as lookahead shows a token that is not a key, or the tokens run out.
/// A non-key token where a key is expected is a failure; a table body ending
/// with the input is empty only at the end of the tokens. Returns the
/// entries and the index of the first unconsumed token.
pub open spec fn spec_parse_table(toks: Seq<SpecToken>, i: int) -> Result<
    (Seq<SpecKeyVal>, int),
    ParseErrorKind,
>
    decreases toks.len() - i,
        when 0 <= i <= toks.len()
{
    if i >= toks.len() {
        Ok((Seq::empty(), i))
    } else if toks[i].token_type != TokenType::Key {
        Err(ParseErrorKind::ExpectedKey)
    } else {
        match spec_parse_key_val(toks, i + 1) {
            Ok((val, j)) => {
                proof {
                    lemma_parse_key_val_bounds(toks, i + 1);
                }
                let kv = SpecKeyVal { key: toks[i].lexeme, val };
                if j >= toks.len() {
                    Ok((seq![kv], j))
                } else if toks[j].token_type == TokenType::Key {
                    match spec_parse_table(toks, j) {
                        Ok((rest, j2)) => Ok((seq![kv] + rest, j2)),
                        Err(k) => Err(k),
                    }
                } else {
                    Ok((seq![kv], j))
                }
            },
            Err(k) => Err(k),
        }
    }
}

pub proof fn lemma_parse_table_bounds(toks: Seq<SpecToken>, i: int)
    requires
        0 <= i <= toks.len(),
    ensures
        spec_parse_table(toks, i) matches Ok(r) ==> i <= r.1 <= toks.len(),
    decreases toks.len() - i,
{
    if i < toks.len() && toks[i].token_type == TokenType::Key {
        lemma_parse_key_val_bounds(toks, i + 1);
        if spec_parse_key_val(toks, i + 1) is Ok {
            let p = spec_parse_key_val(toks, i + 1)->Ok_0;
            if p.1 < toks.len() && toks[p.1].token_type == TokenType::Key {
                lemma_parse_table_bounds(toks, p.1);
            }
        }
    }
}

/// Parsing a whole token sequence from `i`: each table-header token starts a
/// table whose header is the token's lexeme, followed by its table body; any
/// other top-level token is ignored. Returns the tables in appearance order.
pub open spec fn spec_parse(toks: Seq<SpecToken>, i: int) -> Result<Seq<SpecTable>, ParseErrorKind>
    decreases toks.len() - i,
        when 0 <= i <= toks.len()
{
    if i >= toks.len() {
        Ok(Seq::empty())
    } else if toks[i].token_type == TokenType::TableHeader {
        match spec_parse_table(toks, i + 1) {
            Ok((kvs, j)) => {
                proof {
                    lemma_parse_table_bounds(toks, i + 1);
                }
                match spec_parse(toks, j) {
                    Ok(rest) => Ok(
                        seq![SpecTable { header: toks[i].lexeme, key_vals: kvs }] + rest,
                    ),
                    Err(k) => Err(k),
                }
            },
            Err(k) => Err(k),
        }
    } else {
        spec_parse(toks, i + 1)
    }
}

/// The model of a vector of array elements.
pub open spec fn view_elems(items: Seq<Vec<u8>>) -> Seq<Seq<u8>> {
    Seq::new(items.len(), |i: int| items[i]@)
}

/// Strips the delimiting quotes from a string lexeme; a lexeme not shaped
/// like a quoted string is returned unchanged.
pub fn strip_quotes(lex: &Vec<u8>) -> (r: Vec<u8>)
    ensures
        r@ == spec_strip_quotes(lex@),
{
    if lex.len() >= 2 && lex[0] == QUOTE && lex[lex.len() - 1] == QUOTE {
        let mut r: Vec<u8> = Vec::new();
        let mut i: usize = 1;
        while i < lex.len() - 1
            invariant
                lex@.len() >= 2,
                1 <= i <= lex@.len() - 1,
                r@ == lex@.subrange(1, i as int),
            decreases lex@.len() - i,
        {
            r.push(lex[i]);
            proof {
                assert(lex@.subrange(1, i + 1 as int) =~= lex@.subrange(1, i as int).push(
                    lex@[i as int],
                ));
            }
            i = i + 1;
        }
        r
    } else {
        copy_bytes(lex)
    }
}

/// The parser: owns the document it populates.
pub struct TomlParser {
    pub toml: Toml,
}

impl TomlParser {
    /// A parser holding an empty document.
    pub fn new() -> (p: TomlParser)
        ensures
            p.toml@.tables.len() == 0,
    {
        TomlParser { toml: Toml::new() }
    }

    fn parse_string_array(tokens: &Vec<Token>, start: usize) -> (r: Result<
        (Vec<Vec<u8>>, usize),
        ParseError,
    >)
        requires
            start <= tokens@.len(),
        ensures
            match r {
                Ok(p) => spec_parse_string_array(view_tokens(tokens@), start as int) == Ok::<
                    (Seq<Seq<u8>>, int),
                    ParseErrorKind,
                >((view_elems(p.0@), p.1 as int)) && start < p.1 <= tokens@.len(),
                Err(e) => spec_parse_string_array(view_tokens(tokens@), start as int) matches Err(k)
                    && e.msg@ == spec_parse_error_message(k),
            },
    {
        let ghost vtoks = view_tokens(tokens@);
        let mut items: Vec<Vec<u8>> = Vec::new();
        let mut i: usize = start;
        while i < tokens.len()
            invariant
                start <= i <= tokens@.len(),
                vtoks == view_tokens(tokens@),
                spec_parse_string_array(vtoks, start as int) == match spec_parse_string_array(
                    vtoks,
                    i as int,
                ) {
                    Ok(p) => Ok::<(Seq<Seq<u8>>, int), ParseErrorKind>(
                        (view_elems(items@) + p.0, p.1),
                    ),
                    Err(k) => Err(k),
                },
            decreases tokens@.len() - i,
        {
            let tt = tokens[i].token_type;
            if tt == TokenType::ArrayEnd {
                proof {
                    assert(view_elems(items@) + Seq::<Seq<u8>>::empty() =~= view_elems(items@));
                }
                return Ok((items, i + 1));
            }
            if tt != TokenType::String {
                return Err(
                    ParseError {
                        msg: "Parse Error: Unexpected token type in string array.".to_owned(),
                    },
                );
            }
            let elem = strip_quotes(&tokens[i].lexeme);
            if i + 1 >= tokens.len() {
                return Err(ParseError { msg: "Parse Error: unexpected end of tokens.".to_owned() });
            }
            let next = tokens[i + 1].token_type;
            if next == TokenType::Comma {
                let ghost prev = items@;
                items.push(elem);
                proof {
                    assert(view_elems(items@) =~= view_elems(prev).push(elem@));
                    if spec_parse_string_array(vtoks, i + 2 as int) is Ok {
                        let p = spec_parse_string_array(vtoks, i + 2 as int)->Ok_0;
                        assert(view_elems(prev) + (seq![elem@] + p.0) =~= view_elems(items@) + p.0);
                    }
                }
                i = i + 2;
            } else if next == TokenType::ArrayEnd {
                let ghost prev = items@;
                items.push(elem);
                proof {
                    assert(view_elems(items@) =~= view_elems(prev).push(elem@));
                    assert(view_elems(prev) + seq![elem@] =~= view_elems(items@));
                }
                return Ok((items, i + 2));
            } else {
                return Err(
                    ParseError {
                        msg: "Parse Error: the only allowed tokens after a string in an array are , and ]".to_owned(),
                    },
                );
            }
        }
        Err(ParseError { msg: "Parse Error: unexpected end of tokens.".to_owned() })
    }

    fn parse_key_val(tokens: &Vec<Token>, start: usize) -> (r: Result<(Value, usize), ParseError>)
        requires
            start <= tokens@.len(),
        ensures
            match r {
                Ok(p) => spec_parse_key_val(view_tokens(tokens@), start as int) == Ok::<
                    (SpecValue, int),
                    ParseErrorKind,
                >((p.0@, p.1 as int)) && start < p.1 <= tokens@.len(),
                Err(e) => spec_parse_key_val(view_tokens(tokens@), start as int) matches Err(k)
                    && e.msg@ == spec_parse_error_message(k),
            },
    {
        if start >= tokens.len() {
            return Err(ParseError { msg: "Parse Error: unexpected end of tokens.".to_owned() });
        }
        if tokens[start].token_type != TokenType::Equals {
            return Err(
                ParseError { msg: "Parse Error: token after key must be equals sign.".to_owned() },
            );
        }
        if start + 1 >= tokens.len() {
            return Err(ParseError { msg: "Parse Error: unexpected end of tokens.".to_owned() });
        }
        let tt = tokens[start + 1].token_type;
        if tt == TokenType::String {
            let text = strip_quotes(&tokens[start + 1].lexeme);
            Ok((Value::String(text), start + 2))
        } else if tt == TokenType::ArrayStart {
            match Self::parse_string_array(tokens, start + 2) {
                Ok((items, j)) => {
                    let v = Value::ArrayOfStrings(items);
                    proof {
                        assert(v@ == SpecValue::ArrayOfStrings(view_elems(v->ArrayOfStrings_0@)));
                    }
                    Ok((v, j))
                },
                Err(e) => Err(e),
            }
        } else {
            Err(
                ParseError {
                    msg: "Parse Error: token after equals in a key val pair must be either string or array start.".to_owned(),
                },
            )
        }
    }

    fn parse_table(table: &mut Table, tokens: &Vec<Token>, start: usize) -> (r: Result<
        usize,
        ParseError,
    >)
        requires
            start <= tokens@.len(),
        ensures
            match r {
                Ok(j) => spec_parse_table(view_tokens(tokens@), start as int) matches Ok(p)
                    && final(table)@.key_vals == old(table)@.key_vals + p.0 && p.1 == j as int
                    && final(table)@.header == old(table)@.header && start <= j <= tokens@.len(),
                Err(e) => spec_parse_table(view_tokens(tokens@), start as int) matches Err(k)
                    && e.msg@ == spec_parse_error_message(k),
            },
    {
        let ghost vtoks = view_tokens(tokens@);
        let ghost base = table@.key_vals;
        let ghost mut acc: Seq<SpecKeyVal> = Seq::empty();
        let mut i: usize = start;
        while i < tokens.len()
            invariant
                start <= i <= tokens@.len(),
                vtoks == view_tokens(tokens@),
                table@.header == old(table)@.header,
                base == old(table)@.key_vals,
                table@.key_vals == base + acc,
                spec_parse_table(vtoks, start as int) == match spec_parse_table(vtoks, i as int) {
                    Ok(p) => Ok::<(Seq<SpecKeyVal>, int), ParseErrorKind>((acc + p.0, p.1)),
                    Err(k) => Err(k),
                },
            decreases tokens@.len() - i,
        {
            if tokens[i].token_type != TokenType::Key {
                return Err(
                    ParseError {
                        msg: "Parse error: token after table header must be a key".to_owned(),
                    },
                );
            }
            match Self::parse_key_val(tokens, i + 1) {
                Ok((val, j)) => {
                    let key = copy_bytes(&tokens[i].lexeme);
                    let kv = KeyVal::new(key, Some(val));
                    let ghost kvm = kv@;
                    let ghost acc0 = acc;
                    let ghost prev_kvs = table@.key_vals;
                    table.key_vals.push(kv);
                    proof {
                        assert(kvm == (SpecKeyVal {
                            key: vtoks[i as int].lexeme,
                            val: spec_parse_key_val(vtoks, i + 1 as int)->Ok_0.0,
                        }));
                        acc = acc0.push(kvm);
                        assert(table@.key_vals =~= prev_kvs.push(kvm));
                        assert(base + acc =~= (base + acc0).push(kvm));
                        assert(acc0 + seq![kvm] =~= acc);
                    }
                    if j >= tokens.len() {
                        return Ok(j);
                    }
                    if tokens[j].token_type != TokenType::Key {
                        return Ok(j);
                    }
                    proof {
                        assert(spec_parse_table(vtoks, i as int) == match spec_parse_table(
                            vtoks,
                            j as int,
                        ) {
                            Ok(p) => Ok::<(Seq<SpecKeyVal>, int), ParseErrorKind>(
                                (seq![kvm] + p.0, p.1),
                            ),
                            Err(k) => Err(k),
                        });
                        if spec_parse_table(vtoks, j as int) is Ok {
                            let p = spec_parse_table(vtoks, j as int)->Ok_0;
                            assert(acc0 + (seq![kvm] + p.0) =~= acc + p.0);
                        }
                    }
                    i = j;
                },
                Err(e) => {
                    return Err(e);
                },
            }
        }
        proof {
            assert(acc + Seq::<SpecKeyVal>::empty() =~= acc);
        }
        Ok(i)
    }

    /// Parses a token sequence, appending the tables it describes to this
    /// parser's document, or fails with a description of the first grammar
    /// violation; on failure the document's contents are unspecified.
    pub fn parse(&mut self, tokens: Vec<Token>) -> (r: Result<(), ParseError>)
        ensures
            match r {
                Ok(u) => spec_parse(view_tokens(tokens@), 0) matches Ok(tables)
                    && final(self).toml@.tables == old(self).toml@.tables + tables,
                Err(e) => spec_parse(view_tokens(tokens@), 0) matches Err(k) && e.msg@
                    == spec_parse_error_message(k),
            },
    {
        let ghost vtoks = view_tokens(tokens@);
        let ghost base = self.toml@.tables;
        let ghost mut acc: Seq<SpecTable> = Seq::empty();
        proof {
            assert(base + acc =~= base);
        }
        let mut i: usize = 0;
        while i < tokens.len()
            invariant
                i <= tokens@.len(),
                vtoks == view_tokens(tokens@),
                base == old(self).toml@.tables,
                self.toml@.tables == base + acc,
                spec_parse(vtoks, 0) == match spec_parse(vtoks, i as int) {
                    Ok(rest) => Ok::<Seq<SpecTable>, ParseErrorKind>(acc + rest),
                    Err(k) => Err(k),
                },
            decreases tokens@.len() - i,
        {
            if tokens[i].token_type == TokenType::TableHeader {
                let header = copy_bytes(&tokens[i].lexeme);
                let mut table = Table::new(header);
                match Self::parse_table(&mut table, &tokens, i + 1) {
                    Ok(j) => {
                        let ghost tm = table@;
                        let ghost prev_tables = self.toml@.tables;
                        proof {
                            lemma_parse_table_bounds(vtoks, i + 1 as int);
                            assert(tm.key_vals =~= spec_parse_table(vtoks, i + 1 as int)->Ok_0.0);
                            assert(tm == (SpecTable {
                                header: vtoks[i as int].lexeme,
                                key_vals: spec_parse_table(vtoks, i + 1 as int)->Ok_0.0,
                            }));
                        }
                        self.toml.tables.push(table);
                        proof {
                            let acc0 = acc;
                            acc = acc0.push(tm);
                            assert(self.toml@.tables =~= prev_tables.push(tm));
                            assert(base + acc =~= (base + acc0).push(tm));
                            assert(acc0 + seq![tm] =~= acc);
                            assert(spec_parse(vtoks, i as int) == match spec_parse(
                                vtoks,
                                j as int,
                            ) {
                                Ok(rest) => Ok::<Seq<SpecTable>, ParseErrorKind>(
                                    seq![tm] + rest,
                                ),
                                Err(k) => Err(k),
                            });
                            if spec_parse(vtoks, j as int) is Ok {
                                let rest = spec_parse(vtoks, j as int)->Ok_0;
                                assert(acc0 + (seq![tm] + rest) =~= acc + rest);
                            }
                        }
                        i = j;
                    },
                    Err(e) => {
                        return Err(e);
                    },
                }
            } else {
                i = i + 1;
            }
        }
        proof {
            assert(acc + Seq::<SpecTable>::empty() =~= acc);
        }
        Ok(())
    }
}

} // verus!
