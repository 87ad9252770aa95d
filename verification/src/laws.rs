//! Statements that relate the scanner, the parser and the document model to
//! one another: what an empty input yields, how the number of parsed tables
//! follows the token sequence, and that a serialized document scans and
//! parses back to itself.

use crate::document::SpecKeyVal;
use crate::document::SpecTable;
use crate::document::SpecValue;
use crate::document::spec_quoted;
use crate::parser::ParseErrorKind;
use crate::parser::spec_parse;
use crate::parser::spec_parse_key_val;
use crate::parser::spec_parse_string_array;
use crate::parser::spec_parse_table;
use crate::parser::spec_strip_quotes;
use crate::scanner::ScanErrorKind;
use crate::scanner::spec_is_alpha;
use crate::scanner::spec_is_key_char;
use crate::scanner::spec_scan;
use crate::scanner::spec_scan_header;
use crate::scanner::spec_scan_header_rest;
use crate::scanner::spec_scan_key;
use crate::scanner::spec_scan_key_rest;
use crate::scanner::spec_scan_string;
use crate::token::BACKSLASH;
use crate::token::COMMA;
use crate::token::DOT;
use crate::token::NEWLINE;
use crate::token::QUOTE;
use crate::token::EQUALS;
use crate::token::LBRACKET;
use crate::token::RBRACKET;
use crate::token::SpecToken;
use crate::token::TokenType;
use vstd::prelude::*;

verus! {

/// An empty input scans to an empty token sequence, and an empty token
/// sequence parses to a document with no tables.
pub proof fn lemma_empty_input()
    ensures
        spec_scan(Seq::<u8>::empty(), 0, true) == Ok::<Seq<SpecToken>, ScanErrorKind>(
            Seq::<SpecToken>::empty(),
        ),
        spec_parse(Seq::<SpecToken>::empty(), 0) == Ok::<Seq<SpecTable>, ParseErrorKind>(
            Seq::<SpecTable>::empty(),
        ),
{
}

/// Two keys with no equals sign between them, in table position, fail with
/// the message that the token after a key must be an equals sign — whatever
/// the three lexemes are.
pub proof fn lemma_key_key_fails(h: Seq<u8>, k1: Seq<u8>, k2: Seq<u8>)
    ensures
        spec_parse(
            seq![
                SpecToken { token_type: TokenType::TableHeader, lexeme: h },
                SpecToken { token_type: TokenType::Key, lexeme: k1 },
                SpecToken { token_type: TokenType::Key, lexeme: k2 },
            ],
            0,
        ) == Err::<Seq<SpecTable>, ParseErrorKind>(ParseErrorKind::MissingEquals),
{
    let toks = seq![
        SpecToken { token_type: TokenType::TableHeader, lexeme: h },
        SpecToken { token_type: TokenType::Key, lexeme: k1 },
        SpecToken { token_type: TokenType::Key, lexeme: k2 },
    ];
    assert(spec_parse_key_val(toks, 2) == Err::<(SpecValue, int), ParseErrorKind>(
        ParseErrorKind::MissingEquals,
    ));
    assert(spec_parse_table(toks, 1) == Err::<(Seq<SpecKeyVal>, int), ParseErrorKind>(
        ParseErrorKind::MissingEquals,
    ));
}

/// How many tokens of the given kind stand in the sequence from position `i`
/// on.
pub open spec fn spec_count_kind(toks: Seq<SpecToken>, i: int, tt: TokenType) -> int
    decreases toks.len() - i,
        when 0 <= i <= toks.len()
{
    if i >= toks.len() {
        0
    } else {
        (if toks[i].token_type == tt {
            1int
        } else {
            0int
        }) + spec_count_kind(toks, i + 1, tt)
    }
}

proof fn lemma_count_step(toks: Seq<SpecToken>, i: int, tt: TokenType)
    requires
        0 <= i < toks.len(),
    ensures
        spec_count_kind(toks, i, tt) == (if toks[i].token_type == tt {
            1int
        } else {
            0int
        }) + spec_count_kind(toks, i + 1, tt),
{
}

proof fn lemma_array_consumes_no_header(toks: Seq<SpecToken>, i: int)
    requires
        0 <= i <= toks.len(),
    ensures
        spec_parse_string_array(toks, i) matches Ok(r) ==> spec_count_kind(
            toks,
            i,
            TokenType::TableHeader,
        ) == spec_count_kind(toks, r.1, TokenType::TableHeader),
    decreases toks.len() - i,
{
    crate::parser::lemma_parse_string_array_bounds(toks, i);
    if i < toks.len() {
        if toks[i].token_type == TokenType::ArrayEnd {
            lemma_count_step(toks, i, TokenType::TableHeader);
        } else if toks[i].token_type == TokenType::String && i + 1 < toks.len() {
            if toks[i + 1].token_type == TokenType::Comma {
                lemma_count_step(toks, i, TokenType::TableHeader);
                lemma_count_step(toks, i + 1, TokenType::TableHeader);
                lemma_array_consumes_no_header(toks, i + 2);
            } else if toks[i + 1].token_type == TokenType::ArrayEnd {
                lemma_count_step(toks, i, TokenType::TableHeader);
                lemma_count_step(toks, i + 1, TokenType::TableHeader);
            }
        }
    }
}

proof fn lemma_key_val_consumes_no_header(toks: Seq<SpecToken>, i: int)
    requires
        0 <= i <= toks.len(),
    ensures
        spec_parse_key_val(toks, i) matches Ok(r) ==> spec_count_kind(
            toks,
            i,
            TokenType::TableHeader,
        ) == spec_count_kind(toks, r.1, TokenType::TableHeader),
{
    if i < toks.len() && toks[i].token_type == TokenType::Equals && i + 1 < toks.len() {
        lemma_count_step(toks, i, TokenType::TableHeader);
        lemma_count_step(toks, i + 1, TokenType::TableHeader);
        if toks[i + 1].token_type == TokenType::ArrayStart {
            lemma_array_consumes_no_header(toks, i + 2);
        }
    }
}

proof fn lemma_table_consumes_no_header(toks: Seq<SpecToken>, i: int)
    requires
        0 <= i <= toks.len(),
    ensures
        spec_parse_table(toks, i) matches Ok(r) ==> spec_count_kind(
            toks,
            i,
            TokenType::TableHeader,
        ) == spec_count_kind(toks, r.1, TokenType::TableHeader),
    decreases toks.len() - i,
{
    if i < toks.len() && toks[i].token_type == TokenType::Key {
        lemma_count_step(toks, i, TokenType::TableHeader);
        crate::parser::lemma_parse_key_val_bounds(toks, i + 1);
        lemma_key_val_consumes_no_header(toks, i + 1);
        if spec_parse_key_val(toks, i + 1) is Ok {
            let p = spec_parse_key_val(toks, i + 1)->Ok_0;
            if p.1 < toks.len() && toks[p.1].token_type == TokenType::Key {
                lemma_table_consumes_no_header(toks, p.1);
            }
        }
    }
}

/// When a parse succeeds, the document has exactly one table per
/// table-header token: tables are opened by table-header tokens and by
/// nothing else, and no table body consumes one.
pub proof fn lemma_parse_table_count(toks: Seq<SpecToken>, i: int)
    requires
        0 <= i <= toks.len(),
    ensures
        spec_parse(toks, i) matches Ok(tables) ==> tables.len() == spec_count_kind(
            toks,
            i,
            TokenType::TableHeader,
        ),
    decreases toks.len() - i,
{
    if i < toks.len() {
        lemma_count_step(toks, i, TokenType::TableHeader);
        if toks[i].token_type == TokenType::TableHeader {
            crate::parser::lemma_parse_table_bounds(toks, i + 1);
            lemma_table_consumes_no_header(toks, i + 1);
            if spec_parse_table(toks, i + 1) is Ok {
                let p = spec_parse_table(toks, i + 1)->Ok_0;
                lemma_parse_table_count(toks, p.1);
            }
        } else {
            lemma_parse_table_count(toks, i + 1);
        }
    }
}

/// The permissive top-level default, stated exactly: a token sequence with
/// no table-header token parses to a document with no tables — every such
/// token is ignored, and nothing else can fail outside a table.
pub proof fn lemma_no_header_no_tables(toks: Seq<SpecToken>, i: int)
    requires
        0 <= i <= toks.len(),
        forall|p: int| 0 <= p < toks.len() ==> #[trigger] toks[p].token_type != TokenType::TableHeader,
    ensures
        spec_parse(toks, i) == Ok::<Seq<SpecTable>, ParseErrorKind>(Seq::<SpecTable>::empty()),
    decreases toks.len() - i,
{
    if i < toks.len() {
        lemma_no_header_no_tables(toks, i + 1);
    }
}

/// Stripping the quotes that `spec_quoted` adds gives the text back, for
/// every byte sequence.
pub proof fn lemma_strip_quoted(s: Seq<u8>)
    ensures
        spec_strip_quotes(spec_quoted(s)) == s,
{
    let q = spec_quoted(s);
    assert(q[0] == crate::token::QUOTE);
    assert(q[q.len() - 1] == crate::token::QUOTE);
    assert(q.subrange(1, q.len() - 1) =~= s);
}

/// The token the scanner emits for a quoted string with the given text.
pub open spec fn spec_string_token(s: Seq<u8>) -> SpecToken {
    SpecToken { token_type: TokenType::String, lexeme: spec_quoted(s) }
}

/// The array-end token.
pub open spec fn spec_array_end_token() -> SpecToken {
    SpecToken { token_type: TokenType::ArrayEnd, lexeme: seq![RBRACKET] }
}

/// The tokens of an array body: string tokens with comma tokens between
/// them.
pub open spec fn spec_array_item_tokens(items: Seq<Seq<u8>>) -> Seq<SpecToken>
    decreases items.len(),
{
    if items.len() == 0 {
        Seq::empty()
    } else if items.len() == 1 {
        seq![spec_string_token(items[0])]
    } else {
        seq![
            spec_string_token(items[0]),
            SpecToken { token_type: TokenType::Comma, lexeme: seq![COMMA] },
        ] + spec_array_item_tokens(items.drop_first())
    }
}

/// The tokens of a value: one string token, or an array enclosed in
/// array-start and array-end tokens.
pub open spec fn spec_value_tokens(v: SpecValue) -> Seq<SpecToken> {
    match v {
        SpecValue::String(s) => seq![spec_string_token(s)],
        SpecValue::ArrayOfStrings(items) => seq![
            SpecToken { token_type: TokenType::ArrayStart, lexeme: seq![LBRACKET] },
        ] + spec_array_item_tokens(items) + seq![spec_array_end_token()],
    }
}

/// The tokens of one entry: key, equals sign, value.
pub open spec fn spec_key_val_tokens(kv: SpecKeyVal) -> Seq<SpecToken> {
    seq![
        SpecToken { token_type: TokenType::Key, lexeme: kv.key },
        SpecToken { token_type: TokenType::Equals, lexeme: seq![EQUALS] },
    ] + spec_value_tokens(kv.val)
}

/// The tokens of a run of entries.
pub open spec fn spec_key_vals_tokens(kvs: Seq<SpecKeyVal>) -> Seq<SpecToken>
    decreases kvs.len(),
{
    if kvs.len() == 0 {
        Seq::empty()
    } else {
        spec_key_val_tokens(kvs[0]) + spec_key_vals_tokens(kvs.drop_first())
    }
}

/// The tokens of one table: its header token, then its entries.
pub open spec fn spec_table_tokens(t: SpecTable) -> Seq<SpecToken> {
    seq![SpecToken { token_type: TokenType::TableHeader, lexeme: t.header }]
        + spec_key_vals_tokens(t.key_vals)
}

/// The tokens of a whole document.
pub open spec fn spec_toml_tokens(tables: Seq<SpecTable>) -> Seq<SpecToken>
    decreases tables.len(),
{
    if tables.len() == 0 {
        Seq::empty()
    } else {
        spec_table_tokens(tables[0]) + spec_toml_tokens(tables.drop_first())
    }
}

/// Every table but the last has at least one entry. An empty table anywhere
/// else cannot parse back: the next table's header stands where the empty
/// table's first key is expected.
pub open spec fn spec_tables_parseable(tables: Seq<SpecTable>) -> bool {
    forall|i: int| 0 <= i < tables.len() - 1 ==> #[trigger] tables[i].key_vals.len() >= 1
}

proof fn lemma_subrange_shift<T>(s: Seq<T>, i: int, a: int, b: int, whole: Seq<T>)
    requires
        0 <= i,
        i + whole.len() <= s.len(),
        s.subrange(i, i + whole.len()) == whole,
        0 <= a <= b <= whole.len(),
    ensures
        s.subrange(i + a, i + b) == whole.subrange(a, b),
{
    assert forall|k: int| 0 <= k < b - a implies s.subrange(i + a, i + b)[k] == whole.subrange(
        a,
        b,
    )[k] by {
        assert(s.subrange(i + a, i + b)[k] == s[i + a + k]);
        assert(s.subrange(i, i + whole.len())[a + k] == s[i + a + k]);
        assert(whole.subrange(a, b)[k] == whole[a + k]);
    }
    assert(s.subrange(i + a, i + b) =~= whole.subrange(a, b));
}

proof fn lemma_parse_array_at(toks: Seq<SpecToken>, i: int, items: Seq<Seq<u8>>)
    requires
        0 <= i,
        i + spec_array_item_tokens(items).len() + 1 <= toks.len(),
        toks.subrange(i, i + spec_array_item_tokens(items).len() + 1) == spec_array_item_tokens(
            items,
        ) + seq![spec_array_end_token()],
    ensures
        spec_parse_string_array(toks, i) == Ok::<(Seq<Seq<u8>>, int), ParseErrorKind>(
            (items, i + spec_array_item_tokens(items).len() + 1),
        ),
    decreases items.len(),
{
    let n = spec_array_item_tokens(items).len() as int;
    let sub = toks.subrange(i, i + n + 1);
    if items.len() == 0 {
        assert(toks[i] == sub[0]);
        assert(sub[0] == spec_array_end_token());
        assert(items =~= Seq::<Seq<u8>>::empty());
    } else if items.len() == 1 {
        assert(toks[i] == sub[0]);
        assert(sub[0] == spec_string_token(items[0]));
        assert(toks[i + 1] == sub[1]);
        assert(sub[1] == spec_array_end_token());
        lemma_strip_quoted(items[0]);
        assert(seq![items[0]] =~= items);
    } else {
        let rest = items.drop_first();
        let rt = spec_array_item_tokens(rest);
        assert(spec_array_item_tokens(items) == seq![
            spec_string_token(items[0]),
            SpecToken { token_type: TokenType::Comma, lexeme: seq![COMMA] },
        ] + rt);
        assert(toks[i] == sub[0]);
        assert(sub[0] == spec_string_token(items[0]));
        assert(toks[i + 1] == sub[1]);
        assert(sub[1] == (SpecToken { token_type: TokenType::Comma, lexeme: seq![COMMA] }));
        lemma_strip_quoted(items[0]);
        let whole = spec_array_item_tokens(items) + seq![spec_array_end_token()];
        lemma_subrange_shift(toks, i, 2, n + 1, whole);
        assert(whole.subrange(2, n + 1) =~= rt + seq![spec_array_end_token()]);
        lemma_parse_array_at(toks, i + 2, rest);
        assert(seq![items[0]] + rest =~= items);
    }
}

proof fn lemma_parse_value_at(toks: Seq<SpecToken>, i: int, v: SpecValue)
    requires
        0 <= i,
        i + 1 + spec_value_tokens(v).len() <= toks.len(),
        toks.subrange(i, i + 1 + spec_value_tokens(v).len()) == seq![
            SpecToken { token_type: TokenType::Equals, lexeme: seq![EQUALS] },
        ] + spec_value_tokens(v),
    ensures
        spec_parse_key_val(toks, i) == Ok::<(SpecValue, int), ParseErrorKind>(
            (v, i + 1 + spec_value_tokens(v).len()),
        ),
{
    let vt = spec_value_tokens(v);
    let sub = toks.subrange(i, i + 1 + vt.len());
    assert(toks[i] == sub[0]);
    assert(sub[0] == (SpecToken { token_type: TokenType::Equals, lexeme: seq![EQUALS] }));
    match v {
        SpecValue::String(s) => {
            assert(vt == seq![spec_string_token(s)]);
            assert(toks[i + 1] == sub[1]);
            assert(sub[1] == spec_string_token(s));
            lemma_strip_quoted(s);
        },
        SpecValue::ArrayOfStrings(items) => {
            let it = spec_array_item_tokens(items);
            assert(vt == seq![
                SpecToken { token_type: TokenType::ArrayStart, lexeme: seq![LBRACKET] },
            ] + it + seq![spec_array_end_token()]);
            assert(toks[i + 1] == sub[1]);
            assert(sub[1] == (SpecToken {
                token_type: TokenType::ArrayStart,
                lexeme: seq![LBRACKET],
            }));
            let whole = seq![
                SpecToken { token_type: TokenType::Equals, lexeme: seq![EQUALS] },
            ] + vt;
            lemma_subrange_shift(toks, i, 2, whole.len() as int, whole);
            assert(whole.subrange(2, whole.len() as int) =~= it + seq![spec_array_end_token()]);
            lemma_parse_array_at(toks, i + 2, items);
        },
    }
}

proof fn lemma_parse_key_vals_at(toks: Seq<SpecToken>, i: int, kvs: Seq<SpecKeyVal>)
    requires
        kvs.len() >= 1,
        0 <= i,
        i + spec_key_vals_tokens(kvs).len() <= toks.len(),
        toks.subrange(i, i + spec_key_vals_tokens(kvs).len()) == spec_key_vals_tokens(kvs),
        i + spec_key_vals_tokens(kvs).len() == toks.len() || toks[i + spec_key_vals_tokens(
            kvs,
        ).len()].token_type != TokenType::Key,
    ensures
        spec_parse_table(toks, i) == Ok::<(Seq<SpecKeyVal>, int), ParseErrorKind>(
            (kvs, i + spec_key_vals_tokens(kvs).len()),
        ),
    decreases kvs.len(),
{
    let l = spec_key_vals_tokens(kvs).len() as int;
    let sub = toks.subrange(i, i + l);
    let kvt = spec_key_val_tokens(kvs[0]);
    let vt = spec_value_tokens(kvs[0].val);
    let restt = spec_key_vals_tokens(kvs.drop_first());
    assert(spec_key_vals_tokens(kvs) == kvt + restt);
    assert(toks[i] == sub[0]);
    assert(sub[0] == (SpecToken { token_type: TokenType::Key, lexeme: kvs[0].key }));
    let whole = spec_key_vals_tokens(kvs);
    lemma_subrange_shift(toks, i, 1, 2 + vt.len() as int, whole);
    assert(whole.subrange(1, 2 + vt.len() as int) =~= seq![
        SpecToken { token_type: TokenType::Equals, lexeme: seq![EQUALS] },
    ] + vt);
    lemma_parse_value_at(toks, i + 1, kvs[0].val);
    let j = i + 2 + vt.len();
    assert(j == i + kvt.len());
    assert((SpecKeyVal { key: toks[i].lexeme, val: kvs[0].val }) == kvs[0]);
    if kvs.len() == 1 {
        assert(restt =~= Seq::<SpecToken>::empty());
        assert(j == i + l);
        assert(seq![kvs[0]] =~= kvs);
    } else {
        let rest = kvs.drop_first();
        assert(restt == spec_key_val_tokens(rest[0]) + spec_key_vals_tokens(rest.drop_first()));
        assert(toks[j] == sub[j - i]);
        assert(sub[j - i] == restt[0]);
        assert(restt[0] == (SpecToken { token_type: TokenType::Key, lexeme: rest[0].key }));
        lemma_subrange_shift(toks, i, kvt.len() as int, l, whole);
        assert(whole.subrange(kvt.len() as int, l) =~= restt);
        lemma_parse_key_vals_at(toks, j, rest);
        assert(seq![kvs[0]] + rest =~= kvs);
    }
}

proof fn lemma_parse_toml_at(toks: Seq<SpecToken>, i: int, tables: Seq<SpecTable>)
    requires
        spec_tables_parseable(tables),
        0 <= i <= toks.len(),
        toks.subrange(i, toks.len() as int) == spec_toml_tokens(tables),
    ensures
        spec_parse(toks, i) == Ok::<Seq<SpecTable>, ParseErrorKind>(tables),
    decreases tables.len(),
{
    let sub = toks.subrange(i, toks.len() as int);
    if tables.len() == 0 {
        assert(toks.len() - i == 0);
        assert(tables =~= Seq::<SpecTable>::empty());
    } else {
        let tt = spec_table_tokens(tables[0]);
        let rest = tables.drop_first();
        let restt = spec_toml_tokens(rest);
        assert(spec_toml_tokens(tables) == tt + restt);
        let kvs = tables[0].key_vals;
        let kt = spec_key_vals_tokens(kvs);
        assert(tt == seq![
            SpecToken { token_type: TokenType::TableHeader, lexeme: tables[0].header },
        ] + kt);
        assert(toks[i] == sub[0]);
        assert(sub[0] == (SpecToken {
            token_type: TokenType::TableHeader,
            lexeme: tables[0].header,
        }));
        let j = i + 1 + kt.len();
        assert(spec_tables_parseable(rest)) by {
            assert forall|k: int| 0 <= k < rest.len() - 1 implies #[trigger] rest[k].key_vals.len()
                >= 1 by {
                assert(rest[k] == tables[k + 1]);
                assert(tables[k + 1].key_vals.len() >= 1);
            }
        }
        if kvs.len() == 0 {
            assert(tables.len() == 1) by {
                if tables.len() >= 2 {
                    assert(tables[0].key_vals.len() >= 1);
                }
            }
            assert(kt =~= Seq::<SpecToken>::empty());
            assert(restt =~= Seq::<SpecToken>::empty());
            assert(toks.len() == i + 1);
            assert(kvs =~= Seq::<SpecKeyVal>::empty());
            assert(tables[0] == (SpecTable {
                header: toks[i].lexeme,
                key_vals: Seq::<SpecKeyVal>::empty(),
            }));
            assert(seq![tables[0]] =~= tables);
        } else {
            if rest.len() == 0 {
                assert(restt =~= Seq::<SpecToken>::empty());
                assert(toks.len() == j);
            } else {
                assert(restt == spec_table_tokens(rest[0]) + spec_toml_tokens(rest.drop_first()));
                assert(toks[j] == sub[j - i]);
                assert(sub[j - i] == restt[0]);
                assert(restt[0] == (SpecToken {
                    token_type: TokenType::TableHeader,
                    lexeme: rest[0].header,
                }));
            }
            let whole = spec_toml_tokens(tables);
            assert(whole.len() == toks.len() - i);
            lemma_subrange_shift(toks, i, 1, 1 + kt.len() as int, whole);
            assert(whole.subrange(1, 1 + kt.len() as int) =~= kt);
            lemma_parse_key_vals_at(toks, i + 1, kvs);
            lemma_subrange_shift(toks, i, tt.len() as int, whole.len() as int, whole);
            assert(whole.subrange(tt.len() as int, whole.len() as int) =~= restt);
            lemma_parse_toml_at(toks, j, rest);
            assert(tables[0] == (SpecTable { header: toks[i].lexeme, key_vals: kvs }));
            assert(seq![tables[0]] + rest =~= tables);
        }
    }
}

/// Text that can stand between quotes: no quote, no backslash, no newline —
/// exactly the bytes on which the string scanner cannot fail or stop early.
pub open spec fn spec_text_wf(s: Seq<u8>) -> bool {
    forall|p: int|
        0 <= p < s.len() ==> #[trigger] s[p] != QUOTE && s[p] != BACKSLASH && s[p] != NEWLINE
}

/// A header lexeme the scanner reproduces verbatim: brackets around a
/// nonempty name whose first byte is key-class, with no `]` inside and every
/// dot followed by a key-class byte.
pub open spec fn spec_header_wf(h: Seq<u8>) -> bool {
    &&& h.len() >= 3
    &&& h[0] == LBRACKET
    &&& h[h.len() - 1] == RBRACKET
    &&& spec_is_key_char(h[1])
    &&& forall|k: int| 1 <= k < h.len() - 1 ==> #[trigger] h[k] != RBRACKET
    &&& forall|k: int|
        1 <= k < h.len() - 1 && #[trigger] h[k] == DOT ==> k + 1 < h.len() - 1 && spec_is_key_char(
            h[k + 1],
        )
}

/// A key lexeme the scanner reproduces verbatim when an equals sign follows:
/// at least two bytes, an alphabetic byte then a key-class byte, no equals
/// sign inside, and every dot followed by a key-class byte.
pub open spec fn spec_key_wf(k: Seq<u8>) -> bool {
    &&& k.len() >= 2
    &&& spec_is_alpha(k[0])
    &&& spec_is_key_char(k[1])
    &&& forall|p: int| 0 <= p < k.len() ==> #[trigger] k[p] != EQUALS
    &&& forall|p: int|
        2 <= p < k.len() && #[trigger] k[p] == DOT ==> p + 1 < k.len() && spec_is_key_char(
            k[p + 1],
        )
}

/// A value whose texts the scanner reproduces verbatim.
pub open spec fn spec_value_wf(v: SpecValue) -> bool {
    match v {
        SpecValue::String(s) => spec_text_wf(s),
        SpecValue::ArrayOfStrings(items) => forall|p: int|
            0 <= p < items.len() ==> spec_text_wf(#[trigger] items[p]),
    }
}

/// An entry that round-trips through the canonical byte form.
pub open spec fn spec_key_val_wf(kv: SpecKeyVal) -> bool {
    spec_key_wf(kv.key) && spec_value_wf(kv.val)
}

/// A table that round-trips through the canonical byte form.
pub open spec fn spec_table_wf(t: SpecTable) -> bool {
    spec_header_wf(t.header) && forall|p: int|
        0 <= p < t.key_vals.len() ==> spec_key_val_wf(#[trigger] t.key_vals[p])
}

/// A document that round-trips through the canonical byte form: every table
/// well-formed, and every table but the last nonempty.
pub open spec fn spec_toml_wf(tables: Seq<SpecTable>) -> bool {
    (forall|p: int| 0 <= p < tables.len() ==> spec_table_wf(#[trigger] tables[p]))
        && spec_tables_parseable(tables)
}

/// Scanning from `i` yields the given tokens and then continues at `j` with
/// the given line flag: the shape of every step of the scan-side round trip.
pub open spec fn spec_scan_prefix(
    input: Seq<u8>,
    i: int,
    nl: bool,
    toks: Seq<SpecToken>,
    j: int,
    nl2: bool,
) -> bool {
    spec_scan(input, i, nl) == (match spec_scan(input, j, nl2) {
        Ok(rest) => Ok::<Seq<SpecToken>, ScanErrorKind>(toks + rest),
        Err(k) => Err(k),
    })
}

proof fn lemma_scan_prefix_trans(
    input: Seq<u8>,
    i: int,
    nl: bool,
    t1: Seq<SpecToken>,
    j: int,
    nl2: bool,
    t2: Seq<SpecToken>,
    k: int,
    nl3: bool,
)
    requires
        spec_scan_prefix(input, i, nl, t1, j, nl2),
        spec_scan_prefix(input, j, nl2, t2, k, nl3),
    ensures
        spec_scan_prefix(input, i, nl, t1 + t2, k, nl3),
{
    if spec_scan(input, k, nl3) is Ok {
        let rest = spec_scan(input, k, nl3)->Ok_0;
        assert(t1 + (t2 + rest) =~= (t1 + t2) + rest);
    }
}

/// The token type of each single-byte token.
pub open spec fn spec_single_token_type(c: u8) -> TokenType {
    if c == LBRACKET {
        TokenType::ArrayStart
    } else if c == RBRACKET {
        TokenType::ArrayEnd
    } else if c == COMMA {
        TokenType::Comma
    } else {
        TokenType::Equals
    }
}

proof fn lemma_scan_single_at(input: Seq<u8>, i: int, nl: bool)
    requires
        0 <= i < input.len(),
        input[i] == RBRACKET || input[i] == COMMA || input[i] == EQUALS || (input[i] == LBRACKET
            && !nl),
    ensures
        spec_scan_prefix(
            input,
            i,
            nl,
            seq![
                SpecToken {
                    token_type: spec_single_token_type(input[i]),
                    lexeme: seq![input[i]],
                },
            ],
            i + 1,
            nl,
        ),
{
}

proof fn lemma_scan_newline_at(input: Seq<u8>, i: int, nl: bool)
    requires
        0 <= i < input.len(),
        input[i] == NEWLINE,
    ensures
        spec_scan_prefix(input, i, nl, Seq::<SpecToken>::empty(), i + 1, true),
{
    if spec_scan(input, i + 1, true) is Ok {
        let rest = spec_scan(input, i + 1, true)->Ok_0;
        assert(Seq::<SpecToken>::empty() + rest =~= rest);
    }
}

proof fn lemma_scan_string_body_at(input: Seq<u8>, i: int, s: Seq<u8>)
    requires
        0 <= i,
        spec_text_wf(s),
        i + s.len() + 1 <= input.len(),
        input.subrange(i, i + s.len() + 1) == s + seq![QUOTE],
    ensures
        spec_scan_string(input, i) == Ok::<(Seq<u8>, int), ScanErrorKind>(
            (s + seq![QUOTE], i + s.len() + 1),
        ),
    decreases s.len(),
{
    let whole = s + seq![QUOTE];
    let sub = input.subrange(i, i + s.len() + 1);
    if s.len() == 0 {
        assert(input[i] == sub[0]);
        assert(sub[0] == QUOTE);
        assert(seq![QUOTE] =~= s + seq![QUOTE]);
    } else {
        assert(input[i] == sub[0]);
        assert(sub[0] == s[0]);
        assert(s[0] != QUOTE && s[0] != BACKSLASH && s[0] != NEWLINE);
        let rest = s.drop_first();
        lemma_subrange_shift(input, i, 1, s.len() + 1 as int, whole);
        assert(whole.subrange(1, s.len() + 1 as int) =~= rest + seq![QUOTE]);
        assert(spec_text_wf(rest)) by {
            assert forall|p: int| 0 <= p < rest.len() implies #[trigger] rest[p] != QUOTE
                && rest[p] != BACKSLASH && rest[p] != NEWLINE by {
                assert(rest[p] == s[p + 1]);
            }
        }
        lemma_scan_string_body_at(input, i + 1, rest);
        assert(seq![s[0]] + (rest + seq![QUOTE]) =~= s + seq![QUOTE]);
    }
}

proof fn lemma_scan_string_token_at(input: Seq<u8>, i: int, nl: bool, s: Seq<u8>)
    requires
        0 <= i,
        spec_text_wf(s),
        i + s.len() + 2 <= input.len(),
        input.subrange(i, i + s.len() + 2) == spec_quoted(s),
    ensures
        spec_scan_prefix(input, i, nl, seq![spec_string_token(s)], i + s.len() + 2, false),
{
    let sub = input.subrange(i, i + s.len() + 2);
    assert(input[i] == sub[0]);
    assert(sub[0] == QUOTE);
    lemma_subrange_shift(input, i, 1, s.len() + 2 as int, spec_quoted(s));
    assert(spec_quoted(s).subrange(1, s.len() + 2 as int) =~= s + seq![QUOTE]);
    lemma_scan_string_body_at(input, i + 1, s);
    assert(seq![QUOTE] + (s + seq![QUOTE]) =~= spec_quoted(s));
}

proof fn lemma_scan_header_rest_at(input: Seq<u8>, i: int, hrest: Seq<u8>)
    requires
        0 <= i,
        i + hrest.len() + 1 <= input.len(),
        input.subrange(i, i + hrest.len() + 1) == hrest + seq![RBRACKET],
        forall|p: int| 0 <= p < hrest.len() ==> #[trigger] hrest[p] != RBRACKET,
        forall|p: int|
            0 <= p < hrest.len() && #[trigger] hrest[p] == DOT ==> p + 1 < hrest.len()
                && spec_is_key_char(hrest[p + 1]),
        i + hrest.len() + 1 == input.len() || input[i + hrest.len() + 1] == NEWLINE,
    ensures
        spec_scan_header_rest(input, i) == Ok::<(Seq<u8>, int), ScanErrorKind>(
            (hrest + seq![RBRACKET], i + hrest.len() + 1),
        ),
    decreases hrest.len(),
{
    let whole = hrest + seq![RBRACKET];
    let sub = input.subrange(i, i + hrest.len() + 1);
    if hrest.len() == 0 {
        assert(input[i] == sub[0]);
        assert(sub[0] == RBRACKET);
        assert(seq![RBRACKET] =~= whole);
    } else {
        assert(input[i] == sub[0]);
        assert(sub[0] == hrest[0]);
        assert(input[i + 1] == sub[1]);
        assert(sub[1] == whole[1]);
        let rest = hrest.drop_first();
        lemma_subrange_shift(input, i, 1, hrest.len() + 1 as int, whole);
        assert(whole.subrange(1, hrest.len() + 1 as int) =~= rest + seq![RBRACKET]);
        assert forall|p: int| 0 <= p < rest.len() implies #[trigger] rest[p] != RBRACKET by {
            assert(rest[p] == hrest[p + 1]);
        }
        assert forall|p: int| 0 <= p < rest.len() && #[trigger] rest[p] == DOT implies p + 1
            < rest.len() && spec_is_key_char(rest[p + 1]) by {
            assert(rest[p] == hrest[p + 1]);
            assert(hrest[p + 1] == DOT);
            assert(p + 2 < hrest.len() && spec_is_key_char(hrest[p + 2]));
            if p + 1 < rest.len() {
                assert(rest[p + 1] == hrest[p + 2]);
            }
        }
        if hrest[0] == DOT {
            assert(spec_is_key_char(hrest[1]));
            assert(sub[1] == hrest[1]);
        }
        lemma_scan_header_rest_at(input, i + 1, rest);
        assert(seq![hrest[0]] + (rest + seq![RBRACKET]) =~= whole);
    }
}

proof fn lemma_scan_header_token_at(input: Seq<u8>, i: int, h: Seq<u8>)
    requires
        spec_header_wf(h),
        0 <= i,
        i + h.len() <= input.len(),
        input.subrange(i, i + h.len()) == h,
        i + h.len() == input.len() || input[i + h.len()] == NEWLINE,
    ensures
        spec_scan_prefix(
            input,
            i,
            true,
            seq![SpecToken { token_type: TokenType::TableHeader, lexeme: h }],
            i + h.len(),
            false,
        ),
{
    let sub = input.subrange(i, i + h.len());
    assert(input[i] == sub[0]);
    assert(sub[0] == h[0]);
    assert(input[i + 1] == sub[1]);
    assert(sub[1] == h[1]);
    let hrest = h.subrange(2, h.len() - 1);
    lemma_subrange_shift(input, i, 2, h.len() as int, h);
    assert(h.subrange(2, h.len() as int) =~= hrest + seq![RBRACKET]);
    assert forall|p: int| 0 <= p < hrest.len() implies #[trigger] hrest[p] != RBRACKET by {
        assert(hrest[p] == h[p + 2]);
    }
    assert forall|p: int| 0 <= p < hrest.len() && #[trigger] hrest[p] == DOT implies p + 1
        < hrest.len() && spec_is_key_char(hrest[p + 1]) by {
        assert(hrest[p] == h[p + 2]);
        assert(h[p + 2] == DOT);
        assert(p + 3 < h.len() - 1 && spec_is_key_char(h[p + 3]));
        assert(hrest[p + 1] == h[p + 3]);
    }
    lemma_scan_header_rest_at(input, i + 2, hrest);
    assert(spec_scan_header(input, i + 1) == Ok::<(Seq<u8>, int), ScanErrorKind>(
        (seq![h[1]] + (hrest + seq![RBRACKET]), i + h.len()),
    ));
    assert(seq![h[1]] + (hrest + seq![RBRACKET]) =~= h.subrange(1, h.len() as int));
    assert(seq![LBRACKET] + h.subrange(1, h.len() as int) =~= h);
    if spec_scan(input, i + h.len(), false) is Ok {
        let rest = spec_scan(input, i + h.len(), false)->Ok_0;
        assert(spec_scan(input, i, true) == Ok::<Seq<SpecToken>, ScanErrorKind>(
            seq![SpecToken { token_type: TokenType::TableHeader, lexeme: h }] + rest,
        ));
    }
}

proof fn lemma_scan_key_rest_at(input: Seq<u8>, i: int, krest: Seq<u8>)
    requires
        0 <= i,
        krest.len() >= 1,
        i + krest.len() < input.len(),
        input.subrange(i, i + krest.len()) == krest,
        input[i + krest.len()] == EQUALS,
        forall|p: int| 0 <= p < krest.len() ==> #[trigger] krest[p] != EQUALS,
        forall|p: int|
            0 <= p < krest.len() && #[trigger] krest[p] == DOT ==> p + 1 < krest.len()
                && spec_is_key_char(krest[p + 1]),
    ensures
        spec_scan_key_rest(input, i) == Ok::<(Seq<u8>, int), ScanErrorKind>(
            (krest, i + krest.len()),
        ),
    decreases krest.len(),
{
    let sub = input.subrange(i, i + krest.len());
    assert(input[i] == sub[0]);
    assert(sub[0] == krest[0]);
    if krest.len() == 1 {
        assert(krest[0] != DOT);
        assert(seq![krest[0]] =~= krest);
    } else {
        assert(input[i + 1] == sub[1]);
        assert(sub[1] == krest[1]);
        if krest[0] == DOT {
            assert(spec_is_key_char(krest[1]));
        }
        let rest = krest.drop_first();
        lemma_subrange_shift(input, i, 1, krest.len() as int, krest);
        assert(krest.subrange(1, krest.len() as int) =~= rest);
        assert forall|p: int| 0 <= p < rest.len() implies #[trigger] rest[p] != EQUALS by {
            assert(rest[p] == krest[p + 1]);
        }
        assert forall|p: int| 0 <= p < rest.len() && #[trigger] rest[p] == DOT implies p + 1
            < rest.len() && spec_is_key_char(rest[p + 1]) by {
            assert(rest[p] == krest[p + 1]);
            assert(krest[p + 1] == DOT);
            assert(p + 2 < krest.len() && spec_is_key_char(krest[p + 2]));
            if p + 1 < rest.len() {
                assert(rest[p + 1] == krest[p + 2]);
            }
        }
        lemma_scan_key_rest_at(input, i + 1, rest);
        assert(seq![krest[0]] + rest =~= krest);
    }
}

proof fn lemma_scan_key_token_at(input: Seq<u8>, i: int, k: Seq<u8>)
    requires
        spec_key_wf(k),
        0 <= i,
        i + k.len() < input.len(),
        input.subrange(i, i + k.len()) == k,
        input[i + k.len()] == EQUALS,
    ensures
        spec_scan_prefix(
            input,
            i,
            true,
            seq![SpecToken { token_type: TokenType::Key, lexeme: k }],
            i + k.len(),
            false,
        ),
{
    let sub = input.subrange(i, i + k.len());
    assert(input[i] == sub[0]);
    assert(sub[0] == k[0]);
    assert(input[i + 1] == sub[1]);
    assert(sub[1] == k[1]);
    if k.len() == 2 {
        assert(spec_scan_key(input, i + 1) == Ok::<(Seq<u8>, int), ScanErrorKind>(
            (seq![k[1]], i + 2),
        ));
        assert(seq![k[0]] + seq![k[1]] =~= k);
    } else {
        assert(input[i + 2] == sub[2]);
        assert(sub[2] == k[2]);
        assert(k[2] != EQUALS);
        let krest = k.subrange(2, k.len() as int);
        lemma_subrange_shift(input, i, 2, k.len() as int, k);
        assert forall|p: int| 0 <= p < krest.len() implies #[trigger] krest[p] != EQUALS by {
            assert(krest[p] == k[p + 2]);
        }
        assert forall|p: int| 0 <= p < krest.len() && #[trigger] krest[p] == DOT implies p + 1
            < krest.len() && spec_is_key_char(krest[p + 1]) by {
            assert(krest[p] == k[p + 2]);
            assert(k[p + 2] == DOT);
            assert(p + 3 < k.len() && spec_is_key_char(k[p + 3]));
            if p + 1 < krest.len() {
                assert(krest[p + 1] == k[p + 3]);
            }
        }
        lemma_scan_key_rest_at(input, i + 2, krest);
        assert(spec_scan_key(input, i + 1) == Ok::<(Seq<u8>, int), ScanErrorKind>(
            (seq![k[1]] + krest, i + k.len()),
        ));
        assert(seq![k[1]] + krest =~= k.subrange(1, k.len() as int));
        assert(seq![k[0]] + (seq![k[1]] + krest) =~= k);
    }
    if spec_scan(input, i + k.len(), false) is Ok {
        let rest = spec_scan(input, i + k.len(), false)->Ok_0;
        assert(spec_scan(input, i, true) == Ok::<Seq<SpecToken>, ScanErrorKind>(
            seq![SpecToken { token_type: TokenType::Key, lexeme: k }] + rest,
        ));
    }
}

proof fn lemma_scan_array_items_at(input: Seq<u8>, i: int, items: Seq<Seq<u8>>)
    requires
        0 <= i,
        forall|p: int| 0 <= p < items.len() ==> spec_text_wf(#[trigger] items[p]),
        i + crate::document::spec_array_items_bytes(items).len() + 1 <= input.len(),
        input.subrange(i, i + crate::document::spec_array_items_bytes(items).len() + 1)
            == crate::document::spec_array_items_bytes(items) + seq![RBRACKET],
    ensures
        spec_scan_prefix(
            input,
            i,
            false,
            spec_array_item_tokens(items) + seq![spec_array_end_token()],
            i + crate::document::spec_array_items_bytes(items).len() + 1,
            false,
        ),
    decreases items.len(),
{
    let n = crate::document::spec_array_items_bytes(items).len() as int;
    let whole = crate::document::spec_array_items_bytes(items) + seq![RBRACKET];
    let sub = input.subrange(i, i + n + 1);
    if items.len() == 0 {
        assert(input[i] == sub[0]);
        assert(sub[0] == RBRACKET);
        lemma_scan_single_at(input, i, false);
        assert(seq![
            SpecToken { token_type: spec_single_token_type(RBRACKET), lexeme: seq![RBRACKET] },
        ] =~= spec_array_item_tokens(items) + seq![spec_array_end_token()]);
    } else if items.len() == 1 {
        let q = spec_quoted(items[0]);
        assert(crate::document::spec_array_items_bytes(items) == q);
        lemma_subrange_shift(input, i, 0, q.len() as int, whole);
        assert(whole.subrange(0, q.len() as int) =~= q);
        lemma_scan_string_token_at(input, i, false, items[0]);
        assert(input[i + q.len()] == sub[q.len() as int]);
        assert(sub[q.len() as int] == RBRACKET);
        lemma_scan_single_at(input, i + q.len(), false);
        lemma_scan_prefix_trans(
            input,
            i,
            false,
            seq![spec_string_token(items[0])],
            i + q.len(),
            false,
            seq![
                SpecToken { token_type: spec_single_token_type(RBRACKET), lexeme: seq![RBRACKET] },
            ],
            i + n + 1,
            false,
        );
        assert(seq![spec_string_token(items[0])] + seq![
            SpecToken { token_type: spec_single_token_type(RBRACKET), lexeme: seq![RBRACKET] },
        ] =~= spec_array_item_tokens(items) + seq![spec_array_end_token()]);
    } else {
        let q = spec_quoted(items[0]);
        let rest = items.drop_first();
        let rb = crate::document::spec_array_items_bytes(rest);
        assert(crate::document::spec_array_items_bytes(items) == q + seq![COMMA] + rb);
        lemma_subrange_shift(input, i, 0, q.len() as int, whole);
        assert(whole.subrange(0, q.len() as int) =~= q);
        lemma_scan_string_token_at(input, i, false, items[0]);
        assert(input[i + q.len()] == sub[q.len() as int]);
        assert(sub[q.len() as int] == COMMA);
        lemma_scan_single_at(input, i + q.len(), false);
        lemma_subrange_shift(input, i, q.len() + 1 as int, n + 1, whole);
        assert(whole.subrange(q.len() + 1 as int, n + 1) =~= rb + seq![RBRACKET]);
        assert forall|p: int| 0 <= p < rest.len() implies spec_text_wf(#[trigger] rest[p]) by {
            assert(rest[p] == items[p + 1]);
        }
        lemma_scan_array_items_at(input, i + q.len() + 1, rest);
        lemma_scan_prefix_trans(
            input,
            i,
            false,
            seq![spec_string_token(items[0])],
            i + q.len(),
            false,
            seq![SpecToken { token_type: spec_single_token_type(COMMA), lexeme: seq![COMMA] }],
            i + q.len() + 1,
            false,
        );
        lemma_scan_prefix_trans(
            input,
            i,
            false,
            seq![spec_string_token(items[0])] + seq![
                SpecToken { token_type: spec_single_token_type(COMMA), lexeme: seq![COMMA] },
            ],
            i + q.len() + 1,
            false,
            spec_array_item_tokens(rest) + seq![spec_array_end_token()],
            i + n + 1,
            false,
        );
        assert((seq![spec_string_token(items[0])] + seq![
            SpecToken { token_type: spec_single_token_type(COMMA), lexeme: seq![COMMA] },
        ]) + (spec_array_item_tokens(rest) + seq![spec_array_end_token()])
            =~= spec_array_item_tokens(items) + seq![spec_array_end_token()]);
    }
}

proof fn lemma_scan_value_at(input: Seq<u8>, i: int, v: SpecValue)
    requires
        spec_value_wf(v),
        0 <= i,
        i + crate::document::spec_value_bytes(v).len() <= input.len(),
        input.subrange(i, i + crate::document::spec_value_bytes(v).len())
            == crate::document::spec_value_bytes(v),
    ensures
        spec_scan_prefix(
            input,
            i,
            false,
            spec_value_tokens(v),
            i + crate::document::spec_value_bytes(v).len(),
            false,
        ),
{
    let vb = crate::document::spec_value_bytes(v);
    let sub = input.subrange(i, i + vb.len());
    match v {
        SpecValue::String(s) => {
            assert(vb == spec_quoted(s));
            lemma_scan_string_token_at(input, i, false, s);
            assert(seq![spec_string_token(s)] =~= spec_value_tokens(v));
        },
        SpecValue::ArrayOfStrings(items) => {
            let ib = crate::document::spec_array_items_bytes(items);
            assert(vb == seq![LBRACKET] + ib + seq![RBRACKET]);
            assert(input[i] == sub[0]);
            assert(sub[0] == LBRACKET);
            lemma_scan_single_at(input, i, false);
            lemma_subrange_shift(input, i, 1, vb.len() as int, vb);
            assert(vb.subrange(1, vb.len() as int) =~= ib + seq![RBRACKET]);
            lemma_scan_array_items_at(input, i + 1, items);
            lemma_scan_prefix_trans(
                input,
                i,
                false,
                seq![
                    SpecToken {
                        token_type: spec_single_token_type(LBRACKET),
                        lexeme: seq![LBRACKET],
                    },
                ],
                i + 1,
                false,
                spec_array_item_tokens(items) + seq![spec_array_end_token()],
                i + vb.len(),
                false,
            );
            assert(seq![
                SpecToken { token_type: spec_single_token_type(LBRACKET), lexeme: seq![LBRACKET] },
            ] + (spec_array_item_tokens(items) + seq![spec_array_end_token()])
                =~= spec_value_tokens(v));
        },
    }
}

proof fn lemma_scan_key_val_line_at(input: Seq<u8>, i: int, kv: SpecKeyVal)
    requires
        spec_key_val_wf(kv),
        0 <= i,
        i + crate::document::spec_key_val_bytes(kv).len() + 1 <= input.len(),
        input.subrange(i, i + crate::document::spec_key_val_bytes(kv).len() + 1)
            == crate::document::spec_key_val_bytes(kv) + seq![NEWLINE],
    ensures
        spec_scan_prefix(
            input,
            i,
            true,
            spec_key_val_tokens(kv),
            i + crate::document::spec_key_val_bytes(kv).len() + 1,
            true,
        ),
{
    let kb = crate::document::spec_key_val_bytes(kv);
    let vb = crate::document::spec_value_bytes(kv.val);
    let whole = kb + seq![NEWLINE];
    let sub = input.subrange(i, i + kb.len() + 1);
    assert(kb == kv.key + seq![EQUALS] + vb);
    let kl = kv.key.len() as int;
    lemma_subrange_shift(input, i, 0, kl, whole);
    assert(whole.subrange(0, kl) =~= kv.key);
    assert(input[i + kl] == sub[kl]);
    assert(sub[kl] == EQUALS);
    lemma_scan_key_token_at(input, i, kv.key);
    lemma_scan_single_at(input, i + kl, false);
    lemma_subrange_shift(input, i, kl + 1, kl + 1 + vb.len() as int, whole);
    assert(whole.subrange(kl + 1, kl + 1 + vb.len() as int) =~= vb);
    lemma_scan_value_at(input, i + kl + 1, kv.val);
    assert(input[i + kb.len()] == sub[kb.len() as int]);
    assert(sub[kb.len() as int] == NEWLINE);
    lemma_scan_newline_at(input, i + kb.len(), false);
    let key_tok = seq![SpecToken { token_type: TokenType::Key, lexeme: kv.key }];
    let eq_tok = seq![
        SpecToken { token_type: spec_single_token_type(EQUALS), lexeme: seq![EQUALS] },
    ];
    lemma_scan_prefix_trans(
        input,
        i,
        true,
        key_tok,
        i + kl,
        false,
        eq_tok,
        i + kl + 1,
        false,
    );
    lemma_scan_prefix_trans(
        input,
        i,
        true,
        key_tok + eq_tok,
        i + kl + 1,
        false,
        spec_value_tokens(kv.val),
        i + kb.len(),
        false,
    );
    lemma_scan_prefix_trans(
        input,
        i,
        true,
        (key_tok + eq_tok) + spec_value_tokens(kv.val),
        i + kb.len(),
        false,
        Seq::<SpecToken>::empty(),
        i + kb.len() + 1,
        true,
    );
    assert(((key_tok + eq_tok) + spec_value_tokens(kv.val)) + Seq::<SpecToken>::empty()
        =~= spec_key_val_tokens(kv));
}

proof fn lemma_scan_entries_at(input: Seq<u8>, i: int, kvs: Seq<SpecKeyVal>)
    requires
        0 <= i,
        forall|p: int| 0 <= p < kvs.len() ==> spec_key_val_wf(#[trigger] kvs[p]),
        i + crate::document::spec_key_vals_bytes(kvs).len() <= input.len(),
        input.subrange(i, i + crate::document::spec_key_vals_bytes(kvs).len())
            == crate::document::spec_key_vals_bytes(kvs),
    ensures
        spec_scan_prefix(
            input,
            i,
            true,
            spec_key_vals_tokens(kvs),
            i + crate::document::spec_key_vals_bytes(kvs).len(),
            true,
        ),
    decreases kvs.len(),
{
    let whole = crate::document::spec_key_vals_bytes(kvs);
    if kvs.len() == 0 {
        if spec_scan(input, i, true) is Ok {
            let rest = spec_scan(input, i, true)->Ok_0;
            assert(spec_key_vals_tokens(kvs) + rest =~= rest);
        }
    } else {
        let kb = crate::document::spec_key_val_bytes(kvs[0]);
        let rest = kvs.drop_first();
        let rb = crate::document::spec_key_vals_bytes(rest);
        assert(whole == kb + seq![NEWLINE] + rb);
        lemma_subrange_shift(input, i, 0, kb.len() + 1 as int, whole);
        assert(whole.subrange(0, kb.len() + 1 as int) =~= kb + seq![NEWLINE]);
        lemma_scan_key_val_line_at(input, i, kvs[0]);
        lemma_subrange_shift(input, i, kb.len() + 1 as int, whole.len() as int, whole);
        assert(whole.subrange(kb.len() + 1 as int, whole.len() as int) =~= rb);
        assert forall|p: int| 0 <= p < rest.len() implies spec_key_val_wf(#[trigger] rest[p]) by {
            assert(rest[p] == kvs[p + 1]);
        }
        lemma_scan_entries_at(input, i + kb.len() + 1, rest);
        lemma_scan_prefix_trans(
            input,
            i,
            true,
            spec_key_val_tokens(kvs[0]),
            i + kb.len() + 1,
            true,
            spec_key_vals_tokens(rest),
            i + whole.len(),
            true,
        );
        assert(spec_key_val_tokens(kvs[0]) + spec_key_vals_tokens(rest) =~= spec_key_vals_tokens(
            kvs,
        ));
    }
}

proof fn lemma_scan_table_at(input: Seq<u8>, i: int, t: SpecTable)
    requires
        spec_table_wf(t),
        0 <= i,
        i + crate::document::spec_table_bytes(t).len() <= input.len(),
        input.subrange(i, i + crate::document::spec_table_bytes(t).len())
            == crate::document::spec_table_bytes(t),
    ensures
        spec_scan_prefix(
            input,
            i,
            true,
            spec_table_tokens(t),
            i + crate::document::spec_table_bytes(t).len(),
            true,
        ),
{
    let whole = crate::document::spec_table_bytes(t);
    let sub = input.subrange(i, i + whole.len());
    let h = t.header;
    let kb = crate::document::spec_key_vals_bytes(t.key_vals);
    assert(whole == h + seq![NEWLINE] + kb);
    let hl = h.len() as int;
    lemma_subrange_shift(input, i, 0, hl, whole);
    assert(whole.subrange(0, hl) =~= h);
    assert(input[i + hl] == sub[hl]);
    assert(sub[hl] == NEWLINE);
    lemma_scan_header_token_at(input, i, h);
    lemma_scan_newline_at(input, i + hl, false);
    lemma_subrange_shift(input, i, hl + 1, whole.len() as int, whole);
    assert(whole.subrange(hl + 1, whole.len() as int) =~= kb);
    lemma_scan_entries_at(input, i + hl + 1, t.key_vals);
    let th_tok = seq![SpecToken { token_type: TokenType::TableHeader, lexeme: h }];
    lemma_scan_prefix_trans(
        input,
        i,
        true,
        th_tok,
        i + hl,
        false,
        Seq::<SpecToken>::empty(),
        i + hl + 1,
        true,
    );
    lemma_scan_prefix_trans(
        input,
        i,
        true,
        th_tok + Seq::<SpecToken>::empty(),
        i + hl + 1,
        true,
        spec_key_vals_tokens(t.key_vals),
        i + whole.len(),
        true,
    );
    assert((th_tok + Seq::<SpecToken>::empty()) + spec_key_vals_tokens(t.key_vals)
        =~= spec_table_tokens(t));
}

proof fn lemma_scan_toml_at(input: Seq<u8>, i: int, tables: Seq<SpecTable>)
    requires
        0 <= i <= input.len(),
        forall|p: int| 0 <= p < tables.len() ==> spec_table_wf(#[trigger] tables[p]),
        input.subrange(i, input.len() as int) == crate::document::spec_toml_bytes(tables),
    ensures
        spec_scan(input, i, true) == Ok::<Seq<SpecToken>, ScanErrorKind>(spec_toml_tokens(tables)),
    decreases tables.len(),
{
    let whole = crate::document::spec_toml_bytes(tables);
    let sub = input.subrange(i, input.len() as int);
    if tables.len() == 0 {
        assert(input.len() - i == 0);
        assert(spec_toml_tokens(tables) =~= Seq::<SpecToken>::empty());
    } else {
        let tb = crate::document::spec_table_bytes(tables[0]);
        let rest = tables.drop_first();
        let rb = crate::document::spec_toml_bytes(rest);
        assert(whole == tb + seq![NEWLINE] + rb);
        assert(whole.len() == input.len() - i);
        lemma_subrange_shift(input, i, 0, tb.len() as int, whole);
        assert(whole.subrange(0, tb.len() as int) =~= tb);
        lemma_scan_table_at(input, i, tables[0]);
        assert(input[i + tb.len()] == sub[tb.len() as int]);
        assert(sub[tb.len() as int] == NEWLINE);
        lemma_scan_newline_at(input, i + tb.len(), true);
        lemma_subrange_shift(input, i, tb.len() + 1 as int, whole.len() as int, whole);
        assert(whole.subrange(tb.len() + 1 as int, whole.len() as int) =~= rb);
        assert(input.subrange(i + tb.len() + 1, input.len() as int) == rb);
        assert forall|p: int| 0 <= p < rest.len() implies spec_table_wf(#[trigger] rest[p]) by {
            assert(rest[p] == tables[p + 1]);
        }
        lemma_scan_toml_at(input, i + tb.len() + 1, rest);
        lemma_scan_prefix_trans(
            input,
            i,
            true,
            spec_table_tokens(tables[0]),
            i + tb.len(),
            true,
            Seq::<SpecToken>::empty(),
            i + tb.len() + 1,
            true,
        );
        assert((spec_table_tokens(tables[0]) + Seq::<SpecToken>::empty()) + spec_toml_tokens(rest)
            =~= spec_toml_tokens(tables));
    }
}

/// A document parses back from its own token sequence: tables, keys and
/// values return exactly, in order — provided every table but the last has
/// at least one entry.
pub proof fn lemma_parse_round_trip(tables: Seq<SpecTable>)
    requires
        spec_tables_parseable(tables),
    ensures
        spec_parse(spec_toml_tokens(tables), 0) == Ok::<Seq<SpecTable>, ParseErrorKind>(tables),
{
    let toks = spec_toml_tokens(tables);
    assert(toks.subrange(0, toks.len() as int) =~= toks);
    lemma_parse_toml_at(toks, 0, tables);
}

/// The round trip: a well-formed document's canonical bytes scan to exactly
/// its token sequence, and that token sequence parses back to the document
/// itself — same tables, keys and values in the same order.
pub proof fn lemma_round_trip(tables: Seq<SpecTable>)
    requires
        spec_toml_wf(tables),
    ensures
        spec_scan(crate::document::spec_toml_bytes(tables), 0, true) == Ok::<
            Seq<SpecToken>,
            ScanErrorKind,
        >(spec_toml_tokens(tables)),
        spec_parse(spec_toml_tokens(tables), 0) == Ok::<Seq<SpecTable>, ParseErrorKind>(tables),
{
    let input = crate::document::spec_toml_bytes(tables);
    assert(input.subrange(0, input.len() as int) =~= input);
    lemma_scan_toml_at(input, 0, tables);
    lemma_parse_round_trip(tables);
}

} // verus!
