//! The scanner: one forward pass over a byte sequence with one byte of
//! lookahead, producing an ordered token sequence or the description of the
//! first malformed construct.
//!
//! A `new_line` flag, true at the start of input and right after a newline
//! byte, gates which constructs are legal: table headers and bare keys are
//! recognized only at the start of a line. Whitespace and unrecognized bytes
//! are dropped silently; comments are dropped through their terminating
//! newline and leave the flag cleared.

use crate::token::BACKSLASH;
use crate::token::COMMA;
use crate::token::DASH;
use crate::token::DOT;
use crate::token::EQUALS;
use crate::token::HASH;
use crate::token::LBRACKET;
use crate::token::NEWLINE;
use crate::token::QUOTE;
use crate::token::RBRACKET;
use crate::token::SpecToken;
use crate::token::Token;
use crate::token::TokenType;
use crate::token::UNDERSCORE;
use vstd::prelude::*;

verus! {

/// The ways a scan can fail. Used only to state which message the scanner
/// reports on which input; the error a caller sees carries the message.
pub enum ScanErrorKind {
    KeyMissingChar,
    KeyBadChar,
    KeyDotBadFollower,
    HeaderMissingChar,
    HeaderBadChar,
    HeaderDotBadFollower,
    HeaderUnterminated,
    HeaderBadEnd,
    StringEscapeOrNewline,
    StringUnterminated,
}

/// The message reported for each way a scan can fail.
pub open spec fn spec_scan_error_message(k: ScanErrorKind) -> Seq<char> {
    match k {
        ScanErrorKind::KeyMissingChar => "Malformed key in TOML file, key must have one character."@,
        ScanErrorKind::KeyBadChar => "Malformed key in TOML file, first character must be ascii alphanumeric, -, or _."@,
        ScanErrorKind::KeyDotBadFollower => "Malformed key header in TOML file: keys containing dots must have an ascii alphanumeric after the dot."@,
        ScanErrorKind::HeaderMissingChar => "Malformed table header in TOML file, there must be a character after [."@,
        ScanErrorKind::HeaderBadChar => "Malformed table header in TOML file, first character must be ascii alphanumeric, -, or _."@,
        ScanErrorKind::HeaderDotBadFollower => "Malformed table header in TOML file: table headers containing dots must have an ascii alphanumeric after the dot."@,
        ScanErrorKind::HeaderUnterminated => "Malformed table header in TOML file: end of input before the closing ]."@,
        ScanErrorKind::HeaderBadEnd => "Malformed table header in TOML file: table headers must have nothing except a newline after the closing ]."@,
        ScanErrorKind::StringEscapeOrNewline => "Malformed string on TOML file: character escape is not currently supported."@,
        ScanErrorKind::StringUnterminated => "Malformed string in TOML file: end of input before the closing quote."@,
    }
}

/// A scan failure: a human-readable description of the first malformed
/// construct.
#[derive(Debug)]
pub struct ScanError {
    pub msg: String,
}

/// The key-character class: ASCII alphanumeric, `-` or `_`. These are the
/// only bytes permitted at the start of a key or table-header segment.
pub open spec fn spec_is_key_char(b: u8) -> bool {
    (48 <= b && b <= 57) || (65 <= b && b <= 90) || (97 <= b && b <= 122) || b == DASH || b
        == UNDERSCORE
}

/// ASCII alphabetic bytes, the only bytes that can begin a key.
pub open spec fn spec_is_alpha(b: u8) -> bool {
    (65 <= b && b <= 90) || (97 <= b && b <= 122)
}

/// Whether a byte is in the key-character class.
pub fn is_char_valid_th_ascii(b: u8) -> (r: bool)
    ensures
        r == spec_is_key_char(b),
{
    (48 <= b && b <= 57) || (65 <= b && b <= 90) || (97 <= b && b <= 122) || b == DASH || b
        == UNDERSCORE
}

/// The index just past a comment whose body starts at `i`: everything up to
/// and including the first newline (or the end of input) is dropped.
pub open spec fn spec_comment_end(input: Seq<u8>, i: int) -> int
    decreases input.len() - i,
        when 0 <= i <= input.len()
{
    if i >= input.len() {
        i
    } else if input[i] == NEWLINE {
        i + 1
    } else {
        spec_comment_end(input, i + 1)
    }
}

pub proof fn lemma_comment_end_bounds(input: Seq<u8>, i: int)
    requires
        0 <= i <= input.len(),
    ensures
        i <= spec_comment_end(input, i) <= input.len(),
    decreases input.len() - i,
{
    if i >= input.len() {
    } else if input[i] == NEWLINE {
    } else {
        lemma_comment_end_bounds(input, i + 1);
    }
}

/// Scanning a string body from `i`, the byte right after the opening quote:
/// bytes are taken verbatim through the closing quote; a backslash or a raw
/// newline before it, or running out of input, is a failure. Returns the
/// lexeme after the opening quote and the index just past the closing quote.
pub open spec fn spec_scan_string(input: Seq<u8>, i: int) -> Result<(Seq<u8>, int), ScanErrorKind>
    decreases input.len() - i,
        when 0 <= i <= input.len()
{
    if i >= input.len() {
        Err(ScanErrorKind::StringUnterminated)
    } else if input[i] == BACKSLASH || input[i] == NEWLINE {
        Err(ScanErrorKind::StringEscapeOrNewline)
    } else if input[i] == QUOTE {
        Ok((seq![QUOTE], i + 1))
    } else {
        match spec_scan_string(input, i + 1) {
            Ok((rest, j)) => Ok((seq![input[i]] + rest, j)),
            Err(k) => Err(k),
        }
    }
}

pub proof fn lemma_scan_string_bounds(input: Seq<u8>, i: int)
    requires
        0 <= i <= input.len(),
    ensures
        spec_scan_string(input, i) matches Ok(r) ==> i < r.1 <= input.len(),
    decreases input.len() - i,
{
    if i < input.len() && input[i] != BACKSLASH && input[i] != NEWLINE && input[i] != QUOTE {
        lemma_scan_string_bounds(input, i + 1);
    }
}

/// Scanning the tail of a table header from `i`, the byte right after its
/// first (already validated) byte: bytes are taken verbatim; a dot must be
/// followed by a key-class byte; a `]` closes the header and must be followed
/// by a newline or the end of input; running out of input first is a
/// failure. Returns the lexeme from `i` through `]` and the index just past
/// the `]`.
pub open spec fn spec_scan_header_rest(input: Seq<u8>, i: int) -> Result<
    (Seq<u8>, int),
    ScanErrorKind,
>
    decreases input.len() - i,
        when 0 <= i <= input.len()
{
    if i >= input.len() {
        Err(ScanErrorKind::HeaderUnterminated)
    } else if input[i] == DOT {
        if i + 1 >= input.len() || !spec_is_key_char(input[i + 1]) {
            Err(ScanErrorKind::HeaderDotBadFollower)
        } else {
            match spec_scan_header_rest(input, i + 1) {
                Ok((rest, j)) => Ok((seq![DOT] + rest, j)),
                Err(k) => Err(k),
            }
        }
    } else if input[i] == RBRACKET {
        if i + 1 < input.len() && input[i + 1] != NEWLINE {
            Err(ScanErrorKind::HeaderBadEnd)
        } else {
            Ok((seq![RBRACKET], i + 1))
        }
    } else {
        match spec_scan_header_rest(input, i + 1) {
            Ok((rest, j)) => Ok((seq![input[i]] + rest, j)),
            Err(k) => Err(k),
        }
    }
}

pub proof fn lemma_scan_header_rest_bounds(input: Seq<u8>, i: int)
    requires
        0 <= i <= input.len(),
    ensures
        spec_scan_header_rest(input, i) matches Ok(r) ==> i < r.1 <= input.len(),
    decreases input.len() - i,
{
    if i < input.len() && input[i] != RBRACKET {
        lemma_scan_header_rest_bounds(input, i + 1);
    }
}

/// Scanning a table header from `i`, the byte right after the `[`: the first
/// byte must be in the key-character class; the rest follows the header-tail
/// rule. Returns the lexeme after the `[` (closing `]` included) and the
/// index just past the `]`.
pub open spec fn spec_scan_header(input: Seq<u8>, i: int) -> Result<(Seq<u8>, int), ScanErrorKind> {
    if i >= input.len() {
        Err(ScanErrorKind::HeaderMissingChar)
    } else if !spec_is_key_char(input[i]) {
        Err(ScanErrorKind::HeaderBadChar)
    } else {
        match spec_scan_header_rest(input, i + 1) {
            Ok((rest, j)) => Ok((seq![input[i]] + rest, j)),
            Err(k) => Err(k),
        }
    }
}

pub proof fn lemma_scan_header_bounds(input: Seq<u8>, i: int)
    requires
        0 <= i <= input.len(),
    ensures
        spec_scan_header(input, i) matches Ok(r) ==> i < r.1 <= input.len(),
{
    if i < input.len() {
        lemma_scan_header_rest_bounds(input, i + 1);
    }
}

/// Scanning the tail of a key from `i`: bytes are taken verbatim; a dot must
/// be followed by a key-class byte; the key ends as soon as lookahead shows
/// an equals sign (the equals sign itself stays unconsumed) or input runs
/// out. Returns the lexeme from `i` on and the index of the first unconsumed
/// byte.
pub open spec fn spec_scan_key_rest(input: Seq<u8>, i: int) -> Result<(Seq<u8>, int), ScanErrorKind>
    decreases input.len() - i,
        when 0 <= i <= input.len()
{
    if i >= input.len() {
        Ok((Seq::empty(), i))
    } else if input[i] == DOT && (i + 1 >= input.len() || !spec_is_key_char(input[i + 1])) {
        Err(ScanErrorKind::KeyDotBadFollower)
    } else if i + 1 < input.len() && input[i + 1] == EQUALS {
        Ok((seq![input[i]], i + 1))
    } else {
        match spec_scan_key_rest(input, i + 1) {
            Ok((rest, j)) => Ok((seq![input[i]] + rest, j)),
            Err(k) => Err(k),
        }
    }
}

pub proof fn lemma_scan_key_rest_bounds(input: Seq<u8>, i: int)
    requires
        0 <= i <= input.len(),
    ensures
        spec_scan_key_rest(input, i) matches Ok(r) ==> i <= r.1 <= input.len(),
    decreases input.len() - i,
{
    if i < input.len() && !(input[i] == DOT && (i + 1 >= input.len() || !spec_is_key_char(
        input[i + 1],
    ))) && !(i + 1 < input.len() && input[i + 1] == EQUALS) {
        lemma_scan_key_rest_bounds(input, i + 1);
    }
}

/// Scanning a key from `i`, the byte right after its first (alphabetic)
/// byte: a key needs a second byte, which must be in the key-character
/// class; the rest follows the key-tail rule. Returns the lexeme after the
/// first byte and the index of the first unconsumed byte.
pub open spec fn spec_scan_key(input: Seq<u8>, i: int) -> Result<(Seq<u8>, int), ScanErrorKind> {
    if i >= input.len() {
        Err(ScanErrorKind::KeyMissingChar)
    } else if !spec_is_key_char(input[i]) {
        Err(ScanErrorKind::KeyBadChar)
    } else if i + 1 < input.len() && input[i + 1] == EQUALS {
        Ok((seq![input[i]], i + 1))
    } else {
        match spec_scan_key_rest(input, i + 1) {
            Ok((rest, j)) => Ok((seq![input[i]] + rest, j)),
            Err(k) => Err(k),
        }
    }
}

pub proof fn lemma_scan_key_bounds(input: Seq<u8>, i: int)
    requires
        0 <= i <= input.len(),
    ensures
        spec_scan_key(input, i) matches Ok(r) ==> i < r.1 <= input.len(),
{
    if i < input.len() {
        lemma_scan_key_rest_bounds(input, i + 1);
    }
}

/// The whole scan from position `i` with the given line flag: the token
/// sequence of the rest of the input, or the first failure. Dispatch, in
/// priority order: comments; table headers (at line start); strings; keys
/// (at line start); newlines; the single-byte tokens `[`, `]`, `,`, `=`;
/// everything else is dropped.
pub open spec fn spec_scan(input: Seq<u8>, i: int, new_line: bool) -> Result<
    Seq<SpecToken>,
    ScanErrorKind,
>
    decreases input.len() - i,
        when 0 <= i <= input.len()
{
    if i >= input.len() {
        Ok(Seq::empty())
    } else {
        let c = input[i];
        if c == HASH {
            proof {
                lemma_comment_end_bounds(input, i + 1);
            }
            spec_scan(input, spec_comment_end(input, i + 1), false)
        } else if new_line && c == LBRACKET {
            match spec_scan_header(input, i + 1) {
                Ok((lex, j)) => {
                    proof {
                        lemma_scan_header_bounds(input, i + 1);
                    }
                    match spec_scan(input, j, false) {
                        Ok(toks) => Ok(
                            seq![
                                SpecToken {
                                    token_type: TokenType::TableHeader,
                                    lexeme: seq![LBRACKET] + lex,
                                },
                            ] + toks,
                        ),
                        Err(k) => Err(k),
                    }
                },
                Err(k) => Err(k),
            }
        } else if c == QUOTE {
            match spec_scan_string(input, i + 1) {
                Ok((lex, j)) => {
                    proof {
                        lemma_scan_string_bounds(input, i + 1);
                    }
                    match spec_scan(input, j, false) {
                        Ok(toks) => Ok(
                            seq![
                                SpecToken { token_type: TokenType::String, lexeme: seq![QUOTE] + lex },
                            ] + toks,
                        ),
                        Err(k) => Err(k),
                    }
                },
                Err(k) => Err(k),
            }
        } else if new_line && spec_is_alpha(c) {
            match spec_scan_key(input, i + 1) {
                Ok((lex, j)) => {
                    proof {
                        lemma_scan_key_bounds(input, i + 1);
                    }
                    match spec_scan(input, j, false) {
                        Ok(toks) => Ok(
                            seq![
                                SpecToken { token_type: TokenType::Key, lexeme: seq![c] + lex },
                            ] + toks,
                        ),
                        Err(k) => Err(k),
                    }
                },
                Err(k) => Err(k),
            }
        } else if c == NEWLINE {
            match spec_scan(input, i + 1, true) {
                Ok(toks) => Ok(toks),
                Err(k) => Err(k),
            }
        } else if c == LBRACKET || c == RBRACKET || c == COMMA || c == EQUALS {
            let tt = if c == LBRACKET {
                TokenType::ArrayStart
            } else if c == RBRACKET {
                TokenType::ArrayEnd
            } else if c == COMMA {
                TokenType::Comma
            } else {
                TokenType::Equals
            };
            match spec_scan(input, i + 1, new_line) {
                Ok(toks) => Ok(seq![SpecToken { token_type: tt, lexeme: seq![c] }] + toks),
                Err(k) => Err(k),
            }
        } else {
            spec_scan(input, i + 1, new_line)
        }
    }
}

/// The model of a token vector.
pub open spec fn view_tokens(ts: Seq<Token>) -> Seq<SpecToken> {
    Seq::new(ts.len(), |i: int| ts[i]@)
}

fn skip_comment(input: &[u8], start: usize) -> (r: usize)
    requires
        start <= input@.len(),
    ensures
        start <= r <= input@.len(),
        r == spec_comment_end(input@, start as int),
{
    let mut i: usize = start;
    while i < input.len()
        invariant
            start <= i <= input@.len(),
            spec_comment_end(input@, start as int) == spec_comment_end(input@, i as int),
        decreases input@.len() - i,
    {
        if input[i] == NEWLINE {
            return i + 1;
        }
        i = i + 1;
    }
    i
}

fn scan_string(input: &[u8], start: usize) -> (r: Result<(Vec<u8>, usize), ScanError>)
    requires
        start <= input@.len(),
    ensures
        match r {
            Ok(p) => spec_scan_string(input@, start as int) == Ok::<(Seq<u8>, int), ScanErrorKind>(
                (p.0@, p.1 as int),
            ),
            Err(e) => spec_scan_string(input@, start as int) matches Err(k) && e.msg@
                == spec_scan_error_message(k),
        },
{
    let mut lex: Vec<u8> = Vec::new();
    let mut i: usize = start;
    while i < input.len()
        invariant
            start <= i <= input@.len(),
            spec_scan_string(input@, start as int) == match spec_scan_string(input@, i as int) {
                Ok(p) => Ok::<(Seq<u8>, int), ScanErrorKind>((lex@ + p.0, p.1)),
                Err(k) => Err(k),
            },
        decreases input@.len() - i,
    {
        let c = input[i];
        if c == BACKSLASH || c == NEWLINE {
            return Err(
                ScanError {
                    msg: "Malformed string on TOML file: character escape is not currently supported.".to_owned(),
                },
            );
        }
        let ghost prev = lex@;
        lex.push(c);
        if c == QUOTE {
            proof {
                assert(prev + seq![QUOTE] =~= lex@);
            }
            return Ok((lex, i + 1));
        }
        proof {
            if spec_scan_string(input@, i + 1 as int) is Ok {
                let p = spec_scan_string(input@, i + 1 as int)->Ok_0;
                assert(prev + (seq![c] + p.0) =~= lex@ + p.0);
            }
        }
        i = i + 1;
    }
    Err(
        ScanError {
            msg: "Malformed string in TOML file: end of input before the closing quote.".to_owned(),
        },
    )
}

fn scan_table_header(input: &[u8], start: usize) -> (r: Result<(Vec<u8>, usize), ScanError>)
    requires
        start <= input@.len(),
    ensures
        match r {
            Ok(p) => spec_scan_header(input@, start as int) == Ok::<(Seq<u8>, int), ScanErrorKind>(
                (p.0@, p.1 as int),
            ),
            Err(e) => spec_scan_header(input@, start as int) matches Err(k) && e.msg@
                == spec_scan_error_message(k),
        },
{
    if start >= input.len() {
        return Err(
            ScanError {
                msg: "Malformed table header in TOML file, there must be a character after [.".to_owned(),
            },
        );
    }
    let first = input[start];
    if !is_char_valid_th_ascii(first) {
        return Err(
            ScanError {
                msg: "Malformed table header in TOML file, first character must be ascii alphanumeric, -, or _.".to_owned(),
            },
        );
    }
    let mut lex: Vec<u8> = Vec::new();
    lex.push(first);
    let mut i: usize = start + 1;
    while i < input.len()
        invariant
            start + 1 <= i <= input@.len(),
            start < input@.len(),
            spec_is_key_char(input@[start as int]),
            spec_scan_header(input@, start as int) == match spec_scan_header_rest(
                input@,
                i as int,
            ) {
                Ok(p) => Ok::<(Seq<u8>, int), ScanErrorKind>((lex@ + p.0, p.1)),
                Err(k) => Err(k),
            },
        decreases input@.len() - i,
    {
        let c = input[i];
        if c == DOT {
            if i + 1 >= input.len() || !is_char_valid_th_ascii(input[i + 1]) {
                return Err(
                    ScanError {
                        msg: "Malformed table header in TOML file: table headers containing dots must have an ascii alphanumeric after the dot.".to_owned(),
                    },
                );
            }
        }
        let ghost prev = lex@;
        if c == RBRACKET {
            if i + 1 < input.len() && input[i + 1] != NEWLINE {
                return Err(
                    ScanError {
                        msg: "Malformed table header in TOML file: table headers must have nothing except a newline after the closing ].".to_owned(),
                    },
                );
            }
            lex.push(c);
            proof {
                assert(prev + seq![RBRACKET] =~= lex@);
            }
            return Ok((lex, i + 1));
        }
        lex.push(c);
        proof {
            if spec_scan_header_rest(input@, i + 1 as int) is Ok {
                let p = spec_scan_header_rest(input@, i + 1 as int)->Ok_0;
                assert(prev + (seq![c] + p.0) =~= lex@ + p.0);
            }
        }
        i = i + 1;
    }
    Err(
        ScanError {
            msg: "Malformed table header in TOML file: end of input before the closing ].".to_owned(),
        },
    )
}

fn scan_key(input: &[u8], start: usize) -> (r: Result<(Vec<u8>, usize), ScanError>)
    requires
        start <= input@.len(),
    ensures
        match r {
            Ok(p) => spec_scan_key(input@, start as int) == Ok::<(Seq<u8>, int), ScanErrorKind>(
                (p.0@, p.1 as int),
            ),
            Err(e) => spec_scan_key(input@, start as int) matches Err(k) && e.msg@
                == spec_scan_error_message(k),
        },
{
    if start >= input.len() {
        return Err(
            ScanError {
                msg: "Malformed key in TOML file, key must have one character.".to_owned(),
            },
        );
    }
    let first = input[start];
    if !is_char_valid_th_ascii(first) {
        return Err(
            ScanError {
                msg: "Malformed key in TOML file, first character must be ascii alphanumeric, -, or _.".to_owned(),
            },
        );
    }
    let mut lex: Vec<u8> = Vec::new();
    lex.push(first);
    if start + 1 < input.len() && input[start + 1] == EQUALS {
        proof {
            assert(lex@ =~= seq![input@[start as int]]);
        }
        return Ok((lex, start + 1));
    }
    let mut i: usize = start + 1;
    while i < input.len()
        invariant
            start + 1 <= i <= input@.len(),
            start < input@.len(),
            spec_scan_key(input@, start as int) == match spec_scan_key_rest(input@, i as int) {
                Ok(p) => Ok::<(Seq<u8>, int), ScanErrorKind>((lex@ + p.0, p.1)),
                Err(k) => Err(k),
            },
        decreases input@.len() - i,
    {
        let c = input[i];
        if c == DOT {
            if i + 1 >= input.len() || !is_char_valid_th_ascii(input[i + 1]) {
                return Err(
                    ScanError {
                        msg: "Malformed key header in TOML file: keys containing dots must have an ascii alphanumeric after the dot.".to_owned(),
                    },
                );
            }
        }
        let ghost prev = lex@;
        lex.push(c);
        if i + 1 < input.len() && input[i + 1] == EQUALS {
            proof {
                assert(prev + seq![c] =~= lex@);
            }
            return Ok((lex, i + 1));
        }
        proof {
            if spec_scan_key_rest(input@, i + 1 as int) is Ok {
                let p = spec_scan_key_rest(input@, i + 1 as int)->Ok_0;
                assert(prev + (seq![c] + p.0) =~= lex@ + p.0);
            }
        }
        i = i + 1;
    }
    proof {
        assert(lex@ + Seq::<u8>::empty() =~= lex@);
    }
    Ok((lex, input.len()))
}

/// Scans a byte sequence into its token sequence, or fails on the first
/// malformed construct with a description of it.
pub fn scan(input: &[u8]) -> (r: Result<Vec<Token>, ScanError>)
    ensures
        match r {
            Ok(tokens) => spec_scan(input@, 0, true) == Ok::<Seq<SpecToken>, ScanErrorKind>(
                view_tokens(tokens@),
            ),
            Err(e) => spec_scan(input@, 0, true) matches Err(k) && e.msg@
                == spec_scan_error_message(k),
        },
{
    let mut tokens: Vec<Token> = Vec::new();
    let mut new_line: bool = true;
    let mut i: usize = 0;
    while i < input.len()
        invariant
            i <= input@.len(),
            spec_scan(input@, 0, true) == match spec_scan(input@, i as int, new_line) {
                Ok(rest) => Ok::<Seq<SpecToken>, ScanErrorKind>(view_tokens(tokens@) + rest),
                Err(k) => Err(k),
            },
        decreases input@.len() - i,
    {
        let ghost prev_tokens = tokens@;
        let ghost prev_i = i as int;
        let ghost prev_nl = new_line;
        let c = input[i];
        if c == HASH {
            new_line = false;
            i = skip_comment(input, i + 1);
        } else if new_line && c == LBRACKET {
            new_line = false;
            match scan_table_header(input, i + 1) {
                Ok((lex, j)) => {
                    proof {
                        lemma_scan_header_bounds(input@, i + 1 as int);
                    }
                    let mut full: Vec<u8> = Vec::new();
                    full.push(LBRACKET);
                    crate::document::push_all(&mut full, &lex);
                    proof {
                        assert(full@ =~= seq![LBRACKET] + lex@);
                    }
                    tokens.push(Token::new(TokenType::TableHeader, full));
                    i = j;
                },
                Err(e) => {
                    return Err(e);
                },
            }
        } else if c == QUOTE {
            new_line = false;
            match scan_string(input, i + 1) {
                Ok((lex, j)) => {
                    proof {
                        lemma_scan_string_bounds(input@, i + 1 as int);
                    }
                    let mut full: Vec<u8> = Vec::new();
                    full.push(QUOTE);
                    crate::document::push_all(&mut full, &lex);
                    proof {
                        assert(full@ =~= seq![QUOTE] + lex@);
                    }
                    tokens.push(Token::new(TokenType::String, full));
                    i = j;
                },
                Err(e) => {
                    return Err(e);
                },
            }
        } else if new_line && ((65 <= c && c <= 90) || (97 <= c && c <= 122)) {
            new_line = false;
            match scan_key(input, i + 1) {
                Ok((lex, j)) => {
                    proof {
                        lemma_scan_key_bounds(input@, i + 1 as int);
                    }
                    let mut full: Vec<u8> = Vec::new();
                    full.push(c);
                    crate::document::push_all(&mut full, &lex);
                    proof {
                        assert(full@ =~= seq![c] + lex@);
                    }
                    tokens.push(Token::new(TokenType::Key, full));
                    i = j;
                },
                Err(e) => {
                    return Err(e);
                },
            }
        } else if c == NEWLINE {
            new_line = true;
            i = i + 1;
        } else if c == LBRACKET || c == RBRACKET || c == COMMA || c == EQUALS {
            let tt = if c == LBRACKET {
                TokenType::ArrayStart
            } else if c == RBRACKET {
                TokenType::ArrayEnd
            } else if c == COMMA {
                TokenType::Comma
            } else {
                TokenType::Equals
            };
            let mut single: Vec<u8> = Vec::new();
            single.push(c);
            proof {
                assert(single@ =~= seq![c]);
            }
            tokens.push(Token::new(tt, single));
            i = i + 1;
        } else {
            i = i + 1;
        }
        proof {
            if tokens@.len() == prev_tokens.len() + 1 {
                let t = tokens@.last()@;
                assert(view_tokens(tokens@) =~= view_tokens(prev_tokens).push(t));
                if spec_scan(input@, i as int, new_line) is Ok {
                    let rest = spec_scan(input@, i as int, new_line)->Ok_0;
                    assert(view_tokens(prev_tokens) + (seq![t] + rest) =~= view_tokens(tokens@)
                        + rest);
                }
            } else {
                assert(tokens@ == prev_tokens);
            }
        }
    }
    proof {
        assert(view_tokens(tokens@) + Seq::<SpecToken>::empty() =~= view_tokens(tokens@));
    }
    Ok(tokens)
}

} // verus!
