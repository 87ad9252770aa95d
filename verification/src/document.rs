//! The in-memory document model built by the parser — a document owns an
//! ordered sequence of tables, a table owns a header and an ordered sequence
//! of key/value entries — together with its canonical byte serialization.
//!
//! Duplicate headers and duplicate keys are kept in appearance order, never
//! merged. Values store their text without the delimiting quotes; the
//! canonical byte form re-adds them, so that serialized output scans and
//! parses back to the same document.

use crate::token::COMMA;
use crate::token::EQUALS;
use crate::token::LBRACKET;
use crate::token::NEWLINE;
use crate::token::QUOTE;
use crate::token::RBRACKET;
use vstd::prelude::*;
use vstd::string::StrSliceExecFns;
use vstd::string::StringSliceAdditionalSpecFns;

verus! {

/// Model of a value: a single string or an ordered array of strings, each
/// stored as its bytes without delimiting quotes.
pub enum SpecValue {
    String(Seq<u8>),
    ArrayOfStrings(Seq<Seq<u8>>),
}

/// Model of one key/value entry.
pub struct SpecKeyVal {
    pub key: Seq<u8>,
    pub val: SpecValue,
}

/// Model of a table: its verbatim header lexeme (brackets included) and its
/// entries in appearance order.
pub struct SpecTable {
    pub header: Seq<u8>,
    pub key_vals: Seq<SpecKeyVal>,
}

/// Model of a whole document: its tables in appearance order.
pub struct SpecToml {
    pub tables: Seq<SpecTable>,
}

/// A string surrounded by double quotes, as it appears in source text and in
/// the canonical byte form.
pub open spec fn spec_quoted(s: Seq<u8>) -> Seq<u8> {
    seq![QUOTE] + s + seq![QUOTE]
}

/// The rendering of array items: quoted strings separated by commas.
pub open spec fn spec_array_items_bytes(items: Seq<Seq<u8>>) -> Seq<u8>
    decreases items.len(),
{
    if items.len() == 0 {
        Seq::empty()
    } else if items.len() == 1 {
        spec_quoted(items[0])
    } else {
        spec_quoted(items[0]) + seq![COMMA] + spec_array_items_bytes(items.drop_first())
    }
}

/// Canonical bytes of a value: `"text"` for a string, `["a","b"]` for an
/// array (no spaces).
pub open spec fn spec_value_bytes(v: SpecValue) -> Seq<u8> {
    match v {
        SpecValue::String(s) => spec_quoted(s),
        SpecValue::ArrayOfStrings(items) => seq![LBRACKET] + spec_array_items_bytes(items) + seq![RBRACKET],
    }
}

/// Canonical bytes of one entry: `key=value`, no spaces.
pub open spec fn spec_key_val_bytes(kv: SpecKeyVal) -> Seq<u8> {
    kv.key + seq![EQUALS] + spec_value_bytes(kv.val)
}

/// Canonical bytes of a run of entries: each entry on its own line.
pub open spec fn spec_key_vals_bytes(kvs: Seq<SpecKeyVal>) -> Seq<u8>
    decreases kvs.len(),
{
    if kvs.len() == 0 {
        Seq::empty()
    } else {
        spec_key_val_bytes(kvs[0]) + seq![NEWLINE] + spec_key_vals_bytes(kvs.drop_first())
    }
}

/// Canonical bytes of one table: the header line followed by its entries.
pub open spec fn spec_table_bytes(t: SpecTable) -> Seq<u8> {
    t.header + seq![NEWLINE] + spec_key_vals_bytes(t.key_vals)
}

/// Canonical bytes of a document: each table followed by a blank line.
pub open spec fn spec_toml_bytes(tables: Seq<SpecTable>) -> Seq<u8>
    decreases tables.len(),
{
    if tables.len() == 0 {
        Seq::empty()
    } else {
        spec_table_bytes(tables[0]) + seq![NEWLINE] + spec_toml_bytes(tables.drop_first())
    }
}

/// ASCII code of a space.
pub const SPACE: u8 = 32;

/// The bytes of the label `Key: ` in the display form.
pub open spec fn spec_key_label() -> Seq<u8> {
    seq![75u8, 101u8, 121u8, 58u8, SPACE]
}

/// The bytes of the label `, Val: ` in the display form.
pub open spec fn spec_val_label() -> Seq<u8> {
    seq![COMMA, SPACE, 86u8, 97u8, 108u8, 58u8, SPACE]
}

/// The bytes of the rule `----` that closes a table's display form.
pub open spec fn spec_table_rule() -> Seq<u8> {
    seq![45u8, 45u8, 45u8, 45u8]
}

/// The display rendering of array items: the texts separated by `, `.
pub open spec fn spec_display_items(items: Seq<Seq<u8>>) -> Seq<u8>
    decreases items.len(),
{
    if items.len() == 0 {
        Seq::empty()
    } else if items.len() == 1 {
        items[0]
    } else {
        items[0] + seq![COMMA, SPACE] + spec_display_items(items.drop_first())
    }
}

/// The display rendering of a value: the bare text, or the items in
/// brackets separated by `, `.
pub open spec fn spec_display_value(v: SpecValue) -> Seq<u8> {
    match v {
        SpecValue::String(s) => s,
        SpecValue::ArrayOfStrings(items) => seq![LBRACKET] + spec_display_items(items)
            + seq![RBRACKET],
    }
}

/// The display rendering of one entry: `Key: k, Val: v`.
pub open spec fn spec_display_key_val(kv: SpecKeyVal) -> Seq<u8> {
    spec_key_label() + kv.key + spec_val_label() + spec_display_value(kv.val)
}

/// The display rendering of a run of entries, one per line.
pub open spec fn spec_display_key_vals(kvs: Seq<SpecKeyVal>) -> Seq<u8>
    decreases kvs.len(),
{
    if kvs.len() == 0 {
        Seq::empty()
    } else {
        spec_display_key_val(kvs[0]) + seq![NEWLINE] + spec_display_key_vals(kvs.drop_first())
    }
}

/// The display rendering of one table: the header line, its entries, and a
/// closing rule.
pub open spec fn spec_display_table(t: SpecTable) -> Seq<u8> {
    t.header + seq![NEWLINE] + spec_display_key_vals(t.key_vals) + spec_table_rule()
}

/// The display rendering of a document: the tables separated by blank
/// lines.
pub open spec fn spec_display_toml(tables: Seq<SpecTable>) -> Seq<u8>
    decreases tables.len(),
{
    if tables.len() == 0 {
        Seq::empty()
    } else if tables.len() == 1 {
        spec_display_table(tables[0])
    } else {
        spec_display_table(tables[0]) + seq![NEWLINE, NEWLINE] + spec_display_toml(
            tables.drop_first(),
        )
    }
}

/// Appends a copy of `src` to `dst`.
pub fn push_all(dst: &mut Vec<u8>, src: &Vec<u8>)
    ensures
        final(dst)@ == old(dst)@ + src@,
{
    let mut i: usize = 0;
    while i < src.len()
        invariant
            i <= src.len(),
            dst@ == old(dst)@ + src@.take(i as int),
        decreases src.len() - i,
    {
        dst.push(src[i]);
        proof {
            assert(old(dst)@ + src@.take(i + 1 as int) =~= (old(dst)@ + src@.take(i as int)).push(
                src@[i as int],
            ));
        }
        i = i + 1;
    }
    proof {
        assert(src@.take(src@.len() as int) =~= src@);
    }
}

/// Returns a copy of `src`.
pub fn copy_bytes(src: &Vec<u8>) -> (r: Vec<u8>)
    ensures
        r@ == src@,
{
    let mut r: Vec<u8> = Vec::new();
    push_all(&mut r, src);
    proof {
        assert(Seq::<u8>::empty() + src@ =~= src@);
    }
    r
}

/// A value: a single string or an ordered array of strings, quotes stripped.
#[derive(Debug)]
pub enum Value {
    String(Vec<u8>),
    ArrayOfStrings(Vec<Vec<u8>>),
}

impl View for Value {
    type V = SpecValue;

    open spec fn view(&self) -> SpecValue {
        match self {
            Value::String(s) => SpecValue::String(s@),
            Value::ArrayOfStrings(items) => SpecValue::ArrayOfStrings(
                Seq::new(items@.len(), |i: int| items@[i]@),
            ),
        }
    }
}

proof fn lemma_array_items_push(items: Seq<Seq<u8>>, x: Seq<u8>)
    ensures
        spec_array_items_bytes(items.push(x)) == if items.len() == 0 {
            spec_quoted(x)
        } else {
            spec_array_items_bytes(items) + seq![COMMA] + spec_quoted(x)
        },
    decreases items.len(),
{
    if items.len() == 0 {
        assert(items.push(x).len() == 1);
        assert(items.push(x)[0] == x);
    } else if items.len() == 1 {
        assert(items.push(x).drop_first() =~= items.drop_first().push(x));
        lemma_array_items_push(items.drop_first(), x);
    } else {
        assert(items.push(x).drop_first() =~= items.drop_first().push(x));
        lemma_array_items_push(items.drop_first(), x);
        assert(spec_array_items_bytes(items.push(x)) == spec_quoted(items[0]) + seq![COMMA] + (
        spec_array_items_bytes(items.drop_first()) + seq![COMMA] + spec_quoted(x)));
        assert(spec_quoted(items[0]) + seq![COMMA] + (spec_array_items_bytes(items.drop_first())
            + seq![COMMA] + spec_quoted(x)) =~= (spec_quoted(items[0]) + seq![COMMA]
            + spec_array_items_bytes(items.drop_first())) + seq![COMMA] + spec_quoted(x));
    }
}

impl Value {
    /// The canonical bytes of this value.
    pub fn bytes(&self) -> (r: Vec<u8>)
        ensures
            r@ == spec_value_bytes(self@),
    {
        match self {
            Value::String(s) => {
                let mut r: Vec<u8> = Vec::new();
                r.push(QUOTE);
                push_all(&mut r, s);
                r.push(QUOTE);
                proof {
                    assert(r@ =~= spec_quoted(s@));
                }
                r
            },
            Value::ArrayOfStrings(items) => {
                let ghost model = Seq::new(items@.len(), |i: int| items@[i]@);
                let mut r: Vec<u8> = Vec::new();
                r.push(LBRACKET);
                let mut i: usize = 0;
                while i < items.len()
                    invariant
                        i <= items.len(),
                        model == Seq::new(items@.len(), |k: int| items@[k]@),
                        r@ == seq![LBRACKET] + spec_array_items_bytes(model.take(i as int)),
                    decreases items.len() - i,
                {
                    if i > 0 {
                        r.push(COMMA);
                    }
                    r.push(QUOTE);
                    push_all(&mut r, &items[i]);
                    r.push(QUOTE);
                    proof {
                        lemma_array_items_push(model.take(i as int), model[i as int]);
                        assert(model.take(i + 1 as int) =~= model.take(i as int).push(
                            model[i as int],
                        ));
                        if i == 0 {
                            assert(r@ =~= seq![LBRACKET] + spec_quoted(model[0]));
                        } else {
                            assert(r@ =~= seq![LBRACKET] + (spec_array_items_bytes(model.take(i as int))
                                + seq![COMMA] + spec_quoted(model[i as int])));
                        }
                    }
                    i = i + 1;
                }
                r.push(RBRACKET);
                proof {
                    assert(model.take(model.len() as int) =~= model);
                    assert(r@ =~= seq![LBRACKET] + spec_array_items_bytes(model) + seq![RBRACKET]);
                }
                r
            },
        }
    }
}

/// One key/value entry. Every entry reachable from a finished table has had
/// its value set by the parser; the empty-string default exists only for the
/// transient state during parsing.
#[derive(Debug)]
pub struct KeyVal {
    pub key: Vec<u8>,
    pub val: Value,
}

impl View for KeyVal {
    type V = SpecKeyVal;

    open spec fn view(&self) -> SpecKeyVal {
        SpecKeyVal { key: self.key@, val: self.val@ }
    }
}

impl KeyVal {
    /// Builds an entry; a missing value defaults to the empty string.
    pub fn new(key: Vec<u8>, val: Option<Value>) -> (kv: KeyVal)
        ensures
            kv@.key == key@,
            match val {
                Some(v) => kv@.val == v@,
                None => kv@.val == SpecValue::String(Seq::<u8>::empty()),
            },
    {
        if let Some(val) = val {
            KeyVal { key, val }
        } else {
            let kv = KeyVal { key, val: Value::String(Vec::new()) };
            proof {
                assert(Seq::<u8>::empty() =~= kv.val@->String_0);
            }
            kv
        }
    }

    /// Builds a string-valued entry from plain text.
    pub fn from_strings(key: &str, val: &str) -> (kv: KeyVal)
        ensures
            kv@.key == key.spec_bytes(),
            kv@.val == SpecValue::String(val.spec_bytes()),
    {
        KeyVal { key: key.as_bytes_vec(), val: Value::String(val.as_bytes_vec()) }
    }

    /// The canonical bytes of this entry: `key=value`.
    pub fn bytes(&self) -> (r: Vec<u8>)
        ensures
            r@ == spec_key_val_bytes(self@),
    {
        let mut r: Vec<u8> = Vec::new();
        push_all(&mut r, &self.key);
        r.push(EQUALS);
        let vb = self.val.bytes();
        push_all(&mut r, &vb);
        proof {
            assert(r@ =~= spec_key_val_bytes(self@));
        }
        r
    }
}

/// A table: its verbatim header lexeme and its entries in appearance order.
#[derive(Debug)]
pub struct Table {
    pub header: Vec<u8>,
    pub key_vals: Vec<KeyVal>,
}

impl View for Table {
    type V = SpecTable;

    open spec fn view(&self) -> SpecTable {
        SpecTable {
            header: self.header@,
            key_vals: Seq::new(self.key_vals@.len(), |i: int| self.key_vals@[i]@),
        }
    }
}

proof fn lemma_key_vals_push(kvs: Seq<SpecKeyVal>, kv: SpecKeyVal)
    ensures
        spec_key_vals_bytes(kvs.push(kv)) == spec_key_vals_bytes(kvs) + spec_key_val_bytes(kv)
            + seq![NEWLINE],
    decreases kvs.len(),
{
    if kvs.len() == 0 {
        assert(kvs.push(kv)[0] == kv);
        assert(kvs.push(kv).drop_first() =~= Seq::<SpecKeyVal>::empty());
        assert(spec_key_vals_bytes(Seq::<SpecKeyVal>::empty()) == Seq::<u8>::empty());
        assert(spec_key_vals_bytes(kvs.push(kv)) =~= spec_key_val_bytes(kv) + seq![NEWLINE]);
        assert(spec_key_vals_bytes(kvs) + spec_key_val_bytes(kv) + seq![NEWLINE] =~= spec_key_val_bytes(
            kv,
        ) + seq![NEWLINE]);
    } else {
        assert(kvs.push(kv).drop_first() =~= kvs.drop_first().push(kv));
        lemma_key_vals_push(kvs.drop_first(), kv);
        assert(spec_key_vals_bytes(kvs.push(kv)) =~= spec_key_vals_bytes(kvs) + spec_key_val_bytes(
            kv,
        ) + seq![NEWLINE]);
    }
}

impl Table {
    /// Builds an empty table with the given header lexeme.
    pub fn new(header: Vec<u8>) -> (t: Table)
        ensures
            t@.header == header@,
            t@.key_vals.len() == 0,
    {
        Table { header, key_vals: Vec::new() }
    }

    /// The canonical bytes of this table: header line, then one line per
    /// entry.
    pub fn bytes(&self) -> (r: Vec<u8>)
        ensures
            r@ == spec_table_bytes(self@),
    {
        let mut r: Vec<u8> = Vec::new();
        push_all(&mut r, &self.header);
        r.push(NEWLINE);
        let ghost model = self@.key_vals;
        let mut i: usize = 0;
        while i < self.key_vals.len()
            invariant
                i <= self.key_vals.len(),
                model == self@.key_vals,
                r@ == self@.header + seq![NEWLINE] + spec_key_vals_bytes(model.take(i as int)),
            decreases self.key_vals.len() - i,
        {
            let kb = self.key_vals[i].bytes();
            push_all(&mut r, &kb);
            r.push(NEWLINE);
            proof {
                lemma_key_vals_push(model.take(i as int), model[i as int]);
                assert(model.take(i + 1 as int) =~= model.take(i as int).push(model[i as int]));
                assert(r@ =~= self@.header + seq![NEWLINE] + spec_key_vals_bytes(model.take(
                    i + 1 as int,
                )));
            }
            i = i + 1;
        }
        proof {
            assert(model.take(model.len() as int) =~= model);
        }
        r
    }
}

/// The root of the document model: tables in appearance order, duplicates
/// kept.
#[derive(Debug)]
pub struct Toml {
    pub tables: Vec<Table>,
}

impl View for Toml {
    type V = SpecToml;

    open spec fn view(&self) -> SpecToml {
        SpecToml { tables: Seq::new(self.tables@.len(), |i: int| self.tables@[i]@) }
    }
}

proof fn lemma_tables_push(tables: Seq<SpecTable>, t: SpecTable)
    ensures
        spec_toml_bytes(tables.push(t)) == spec_toml_bytes(tables) + spec_table_bytes(t)
            + seq![NEWLINE],
    decreases tables.len(),
{
    if tables.len() == 0 {
        assert(tables.push(t)[0] == t);
        assert(tables.push(t).drop_first() =~= Seq::<SpecTable>::empty());
        assert(spec_toml_bytes(Seq::<SpecTable>::empty()) == Seq::<u8>::empty());
        assert(spec_toml_bytes(tables.push(t)) =~= spec_table_bytes(t) + seq![NEWLINE]);
        assert(spec_toml_bytes(tables) + spec_table_bytes(t) + seq![NEWLINE] =~= spec_table_bytes(t)
            + seq![NEWLINE]);
    } else {
        assert(tables.push(t).drop_first() =~= tables.drop_first().push(t));
        lemma_tables_push(tables.drop_first(), t);
        assert(spec_toml_bytes(tables.push(t)) =~= spec_toml_bytes(tables) + spec_table_bytes(t)
            + seq![NEWLINE]);
    }
}

impl Toml {
    /// Builds an empty document.
    pub fn new() -> (d: Toml)
        ensures
            d@.tables.len() == 0,
    {
        Toml { tables: Vec::new() }
    }

    /// The canonical bytes of this document: each table followed by a blank
    /// line.
    pub fn bytes(&self) -> (r: Vec<u8>)
        ensures
            r@ == spec_toml_bytes(self@.tables),
    {
        let mut r: Vec<u8> = Vec::new();
        let ghost model = self@.tables;
        let mut i: usize = 0;
        while i < self.tables.len()
            invariant
                i <= self.tables.len(),
                model == self@.tables,
                r@ == spec_toml_bytes(model.take(i as int)),
            decreases self.tables.len() - i,
        {
            let tb = self.tables[i].bytes();
            push_all(&mut r, &tb);
            r.push(NEWLINE);
            proof {
                lemma_tables_push(model.take(i as int), model[i as int]);
                assert(model.take(i + 1 as int) =~= model.take(i as int).push(model[i as int]));
                assert(r@ =~= spec_toml_bytes(model.take(i + 1 as int)));
            }
            i = i + 1;
        }
        proof {
            assert(model.take(model.len() as int) =~= model);
        }
        r
    }
}

proof fn lemma_display_items_push(items: Seq<Seq<u8>>, x: Seq<u8>)
    ensures
        spec_display_items(items.push(x)) == if items.len() == 0 {
            x
        } else {
            spec_display_items(items) + seq![COMMA, SPACE] + x
        },
    decreases items.len(),
{
    if items.len() == 0 {
        assert(items.push(x).len() == 1);
        assert(items.push(x)[0] == x);
    } else if items.len() == 1 {
        assert(items.push(x).drop_first() =~= items.drop_first().push(x));
        lemma_display_items_push(items.drop_first(), x);
    } else {
        assert(items.push(x).drop_first() =~= items.drop_first().push(x));
        lemma_display_items_push(items.drop_first(), x);
        assert(items[0] + seq![COMMA, SPACE] + (spec_display_items(items.drop_first()) + seq![
            COMMA,
            SPACE,
        ] + x) =~= (items[0] + seq![COMMA, SPACE] + spec_display_items(items.drop_first())) + seq![
            COMMA,
            SPACE,
        ] + x);
    }
}

proof fn lemma_display_key_vals_push(kvs: Seq<SpecKeyVal>, kv: SpecKeyVal)
    ensures
        spec_display_key_vals(kvs.push(kv)) == spec_display_key_vals(kvs) + spec_display_key_val(
            kv,
        ) + seq![NEWLINE],
    decreases kvs.len(),
{
    if kvs.len() == 0 {
        assert(kvs.push(kv)[0] == kv);
        assert(kvs.push(kv).drop_first() =~= Seq::<SpecKeyVal>::empty());
        assert(spec_display_key_vals(Seq::<SpecKeyVal>::empty()) == Seq::<u8>::empty());
        assert(spec_display_key_vals(kvs.push(kv)) =~= spec_display_key_val(kv) + seq![NEWLINE]);
        assert(spec_display_key_vals(kvs) + spec_display_key_val(kv) + seq![NEWLINE]
            =~= spec_display_key_val(kv) + seq![NEWLINE]);
    } else {
        assert(kvs.push(kv).drop_first() =~= kvs.drop_first().push(kv));
        lemma_display_key_vals_push(kvs.drop_first(), kv);
        assert(spec_display_key_vals(kvs.push(kv)) =~= spec_display_key_vals(kvs)
            + spec_display_key_val(kv) + seq![NEWLINE]);
    }
}

proof fn lemma_display_tables_push(tables: Seq<SpecTable>, t: SpecTable)
    ensures
        spec_display_toml(tables.push(t)) == if tables.len() == 0 {
            spec_display_table(t)
        } else {
            spec_display_toml(tables) + seq![NEWLINE, NEWLINE] + spec_display_table(t)
        },
    decreases tables.len(),
{
    if tables.len() == 0 {
        assert(tables.push(t).len() == 1);
        assert(tables.push(t)[0] == t);
    } else if tables.len() == 1 {
        assert(tables.push(t).drop_first() =~= tables.drop_first().push(t));
        lemma_display_tables_push(tables.drop_first(), t);
    } else {
        assert(tables.push(t).drop_first() =~= tables.drop_first().push(t));
        lemma_display_tables_push(tables.drop_first(), t);
        assert(spec_display_table(tables[0]) + seq![NEWLINE, NEWLINE] + (spec_display_toml(
            tables.drop_first(),
        ) + seq![NEWLINE, NEWLINE] + spec_display_table(t)) =~= (spec_display_table(tables[0])
            + seq![NEWLINE, NEWLINE] + spec_display_toml(tables.drop_first())) + seq![
            NEWLINE,
            NEWLINE,
        ] + spec_display_table(t));
    }
}

impl Value {
    /// The display rendering of this value: the bare text, or the items in
    /// brackets separated by `, `.
    pub fn display_bytes(&self) -> (r: Vec<u8>)
        ensures
            r@ == spec_display_value(self@),
    {
        match self {
            Value::String(s) => copy_bytes(s),
            Value::ArrayOfStrings(items) => {
                let ghost model = Seq::new(items@.len(), |i: int| items@[i]@);
                let mut r: Vec<u8> = Vec::new();
                r.push(LBRACKET);
                let mut i: usize = 0;
                while i < items.len()
                    invariant
                        i <= items.len(),
                        model == Seq::new(items@.len(), |k: int| items@[k]@),
                        r@ == seq![LBRACKET] + spec_display_items(model.take(i as int)),
                    decreases items.len() - i,
                {
                    if i > 0 {
                        r.push(COMMA);
                        r.push(SPACE);
                    }
                    push_all(&mut r, &items[i]);
                    proof {
                        lemma_display_items_push(model.take(i as int), model[i as int]);
                        assert(model.take(i + 1 as int) =~= model.take(i as int).push(
                            model[i as int],
                        ));
                        if i == 0 {
                            assert(r@ =~= seq![LBRACKET] + model[0]);
                        } else {
                            assert(r@ =~= seq![LBRACKET] + (spec_display_items(model.take(i as int))
                                + seq![COMMA, SPACE] + model[i as int]));
                        }
                    }
                    i = i + 1;
                }
                r.push(RBRACKET);
                proof {
                    assert(model.take(model.len() as int) =~= model);
                    assert(r@ =~= seq![LBRACKET] + spec_display_items(model) + seq![RBRACKET]);
                }
                r
            },
        }
    }
}

impl KeyVal {
    /// The display rendering of this entry: `Key: k, Val: v`.
    pub fn display_bytes(&self) -> (r: Vec<u8>)
        ensures
            r@ == spec_display_key_val(self@),
    {
        let mut r: Vec<u8> = Vec::new();
        r.push(75);
        r.push(101);
        r.push(121);
        r.push(58);
        r.push(SPACE);
        proof {
            assert(r@ =~= spec_key_label());
        }
        push_all(&mut r, &self.key);
        r.push(COMMA);
        r.push(SPACE);
        r.push(86);
        r.push(97);
        r.push(108);
        r.push(58);
        r.push(SPACE);
        let vd = self.val.display_bytes();
        push_all(&mut r, &vd);
        proof {
            assert(r@ =~= spec_display_key_val(self@));
        }
        r
    }
}

impl Table {
    /// The display rendering of this table: the header line, one line per
    /// entry, and a closing `----` rule.
    pub fn display_bytes(&self) -> (r: Vec<u8>)
        ensures
            r@ == spec_display_table(self@),
    {
        let mut r: Vec<u8> = Vec::new();
        push_all(&mut r, &self.header);
        r.push(NEWLINE);
        let ghost model = self@.key_vals;
        let mut i: usize = 0;
        while i < self.key_vals.len()
            invariant
                i <= self.key_vals.len(),
                model == self@.key_vals,
                r@ == self@.header + seq![NEWLINE] + spec_display_key_vals(model.take(i as int)),
            decreases self.key_vals.len() - i,
        {
            let kd = self.key_vals[i].display_bytes();
            push_all(&mut r, &kd);
            r.push(NEWLINE);
            proof {
                lemma_display_key_vals_push(model.take(i as int), model[i as int]);
                assert(model.take(i + 1 as int) =~= model.take(i as int).push(model[i as int]));
                assert(r@ =~= self@.header + seq![NEWLINE] + spec_display_key_vals(model.take(
                    i + 1 as int,
                )));
            }
            i = i + 1;
        }
        r.push(45);
        r.push(45);
        r.push(45);
        r.push(45);
        proof {
            assert(model.take(model.len() as int) =~= model);
            assert(r@ =~= spec_display_table(self@));
        }
        r
    }
}

impl Toml {
    /// The display rendering of this document: the tables' renderings
    /// separated by blank lines. A diagnostic form, deterministic but not
    /// meant to be scanned back.
    pub fn display_bytes(&self) -> (r: Vec<u8>)
        ensures
            r@ == spec_display_toml(self@.tables),
    {
        let mut r: Vec<u8> = Vec::new();
        let ghost model = self@.tables;
        let mut i: usize = 0;
        while i < self.tables.len()
            invariant
                i <= self.tables.len(),
                model == self@.tables,
                r@ == spec_display_toml(model.take(i as int)),
            decreases self.tables.len() - i,
        {
            if i > 0 {
                r.push(NEWLINE);
                r.push(NEWLINE);
            }
            let td = self.tables[i].display_bytes();
            push_all(&mut r, &td);
            proof {
                lemma_display_tables_push(model.take(i as int), model[i as int]);
                assert(model.take(i + 1 as int) =~= model.take(i as int).push(model[i as int]));
                if i == 0 {
                    assert(r@ =~= spec_display_table(model[0]));
                } else {
                    assert(r@ =~= spec_display_toml(model.take(i as int)) + seq![NEWLINE, NEWLINE]
                        + spec_display_table(model[i as int]));
                }
            }
            i = i + 1;
        }
        proof {
            assert(model.take(model.len() as int) =~= model);
        }
        r
    }
}

} // verus!
