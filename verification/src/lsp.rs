//! Text helpers of the language server: declaration identities, file URI
//! decoding, type and word extraction, and the call around a cursor.

use vstd::prelude::*;
use vstd::utf8::{decode_utf8, valid_utf8};
use crate::modules::{qualified, qualify_declaration};
use crate::syntax::ast::{MethodDecl, Parameter, Program, Stmt, StmtKind};
use crate::syntax::lexer::{lex, lexed, Span, Token, TokenKind};
use crate::text::{chars_of, push_chars, push_str, string_of, utf8_checked, utf8_error_message};

verus! {

broadcast use vstd::std_specs::vec::group_vec_axioms;

/// The kinds of declarations the server indexes.
#[derive(Clone, Copy, Debug, PartialEq, Eq, Structural)]
pub enum DeclarationKind {
    Function,
    Class,
    Interface,
    Trait,
    Method,
    Property,
}

pub open spec fn kind_label(kind: DeclarationKind) -> Seq<char> {
    match kind {
        DeclarationKind::Function => "function"@,
        DeclarationKind::Class => "class"@,
        DeclarationKind::Interface => "interface"@,
        DeclarationKind::Trait => "trait"@,
        DeclarationKind::Method => "method"@,
        DeclarationKind::Property => "property"@,
    }
}

impl DeclarationKind {
    pub fn as_str(self) -> (label: &'static str)
        ensures
            label@ == kind_label(self),
    {
        match self {
            DeclarationKind::Function => "function",
            DeclarationKind::Class => "class",
            DeclarationKind::Interface => "interface",
            DeclarationKind::Trait => "trait",
            DeclarationKind::Method => "method",
            DeclarationKind::Property => "property",
        }
    }
}

/// A declaration's identity: its file, kind, owner and name joined by `|`.
#[derive(Clone, Debug, PartialEq, Eq)]
pub struct DeclarationId(String);

impl View for DeclarationId {
    type V = Seq<char>;

    closed spec fn view(&self) -> Seq<char> {
        self.0@
    }
}

pub open spec fn declaration_text(path: Seq<char>, kind: DeclarationKind, owner: Option<Seq<char>>, name: Seq<char>) -> Seq<char> {
    path + "|"@ + kind_label(kind) + "|"@ + match owner {
        Some(o) => o,
        None => Seq::empty(),
    } + "|"@ + name
}

impl DeclarationId {
    pub fn new(path: &str, kind: DeclarationKind, owner: Option<&str>, name: &str) -> (id: DeclarationId)
        ensures
            id@ == declaration_text(
                path@,
                kind,
                match owner {
                    Some(o) => Some(o@),
                    None => None,
                },
                name@,
            ),
    {
        let mut out = chars_of(path);
        push_str(&mut out, "|");
        push_str(&mut out, kind.as_str());
        push_str(&mut out, "|");
        match owner {
            Some(o) => push_str(&mut out, o),
            None => {},
        }
        push_str(&mut out, "|");
        push_str(&mut out, name);
        DeclarationId(string_of(out.as_slice()))
    }

    pub fn as_str(&self) -> (text: &str)
        ensures
            text@ == self@,
    {
        self.0.as_str()
    }
}

/// A detail appended to a label: ` — ` and the text, or nothing.
pub fn suffix(text: &str) -> (out: String)
    ensures
        out@ == if text@.len() == 0 {
            Seq::<char>::empty()
        } else {
            " — "@ + text@
        },
{
    let chars = chars_of(text);
    if chars.len() == 0 {
        let empty = String::new();
        assert(empty@ =~= Seq::<char>::empty());
        return empty;
    }
    let mut out = chars_of(" — ");
    push_chars(&mut out, chars.as_slice());
    string_of(out.as_slice())
}

/// A declared name inside its namespace.
pub fn canonical(namespace: &str, name: &str) -> (q: String)
    ensures
        q@ == qualified(namespace@, name@),
{
    qualify_declaration(namespace, name)
}

/// A byte of a word at the cursor: an ASCII letter or digit, `_` or `\`.
pub open spec fn word_byte(b: u8) -> bool {
    (48 <= b <= 57) || (65 <= b <= 90) || (97 <= b <= 122) || b == 95 || b == 92
}

pub fn is_word(b: u8) -> (word: bool)
    ensures
        word == word_byte(b),
{
    (48 <= b && b <= 57) || (65 <= b && b <= 90) || (97 <= b && b <= 122) || b == 95 || b == 92
}

/// The value of a hexadecimal digit.
pub open spec fn hex_digit(b: u8) -> Option<u8> {
    if 48 <= b <= 57 {
        Some((b - 48) as u8)
    } else if 97 <= b <= 102 {
        Some((b - 87) as u8)
    } else if 65 <= b <= 70 {
        Some((b - 55) as u8)
    } else {
        None
    }
}

/// The byte two characters after `%` stand for, read as `u8` from base
/// 16: an optional `+`, then hexadecimal digits.
pub open spec fn escape_value(pair: Seq<u8>) -> Option<u8> {
    if pair[0] == 43 {
        hex_digit(pair[1])
    } else {
        match (hex_digit(pair[0]), hex_digit(pair[1])) {
            (Some(a), Some(b)) => Some((a * 16 + b) as u8),
            _ => None,
        }
    }
}

/// The bytes of `s` from `i` with `%` escapes decoded, or why they are
/// malformed.
pub open spec fn unescape(s: Seq<u8>, i: int) -> Result<Seq<u8>, Seq<char>>
    decreases s.len() - i,
{
    if i < 0 || i >= s.len() {
        Ok(Seq::empty())
    } else if s[i] == 37 {
        if i + 3 > s.len() {
            Err("truncated percent escape in file URI"@)
        } else if !valid_utf8(s.subrange(i + 1, i + 3)) {
            Err(utf8_error_message(s.subrange(i + 1, i + 3)))
        } else {
            match escape_value(s.subrange(i + 1, i + 3)) {
                None => Err("invalid percent escape in file URI"@),
                Some(v) => match unescape(s, i + 3) {
                    Ok(rest) => Ok(seq![v] + rest),
                    Err(m) => Err(m),
                },
            }
        }
    } else {
        match unescape(s, i + 1) {
            Ok(rest) => Ok(seq![s[i]] + rest),
            Err(m) => Err(m),
        }
    }
}

/// A file URI path decoded: its `%` escapes replaced by their bytes, which
/// must form UTF-8 text.
pub open spec fn percent_decoded(value: Seq<char>) -> Result<Seq<char>, Seq<char>> {
    match unescape(vstd::utf8::encode_utf8(value), 0) {
        Err(m) => Err(m),
        Ok(bytes) => if valid_utf8(bytes) {
            Ok(decode_utf8(bytes))
        } else {
            Err("file URI path is not valid UTF-8"@)
        },
    }
}

fn hex_of(b: u8) -> (v: Option<u8>)
    ensures
        v == hex_digit(b),
{
    if 48 <= b && b <= 57 {
        Some(b - 48)
    } else if 97 <= b && b <= 102 {
        Some(b - 87)
    } else if 65 <= b && b <= 70 {
        Some(b - 55)
    } else {
        None
    }
}

/// Decodes the `%` escapes of a file URI path.
pub fn percent_decode(value: &str) -> (decoded: Result<String, String>)
    ensures
        match percent_decoded(value@) {
            Ok(t) => decoded matches Ok(d) && d@ == t,
            Err(m) => decoded matches Err(e) && e@ == m,
        },
{
    let bytes = value.as_bytes();
    let ghost s = bytes@;
    let mut output: Vec<u8> = Vec::new();
    let mut index: usize = 0;
    while index < bytes.len()
        invariant
            index <= s.len(),
            s == bytes@,
            s == vstd::utf8::encode_utf8(value@),
            match unescape(s, 0) {
                Ok(all) => unescape(s, index as int) matches Ok(rest) && all == output@ + rest,
                Err(m) => unescape(s, index as int) == Err::<Seq<u8>, Seq<char>>(m),
            },
        decreases bytes.len() - index,
    {
        if bytes[index] == 37 {
            if bytes.len() - index < 3 {
                return Err("truncated percent escape in file URI".to_owned());
            }
            let pair = [bytes[index + 1], bytes[index + 2]];
            assert(pair@ =~= s.subrange(index as int + 1, index as int + 3));
            match utf8_checked(&pair) {
                Err(message) => return Err(message),
                Ok(_) => {},
            }
            let value = if pair[0] == 43 {
                hex_of(pair[1])
            } else {
                match (hex_of(pair[0]), hex_of(pair[1])) {
                    (Some(a), Some(b)) => Some(a * 16 + b),
                    _ => None,
                }
            };
            match value {
                None => return Err("invalid percent escape in file URI".to_owned()),
                Some(v) => {
                    let ghost before = output@;
                    output.push(v);
                    proof {
                        if let Ok(all) = unescape(s, 0) {
                            assert(all == before + (seq![v] + unescape(s, index as int + 3)->Ok_0));
                            assert(all =~= output@ + unescape(s, index as int + 3)->Ok_0);
                        }
                    }
                    index = index + 3;
                },
            }
        } else {
            let ghost before = output@;
            output.push(bytes[index]);
            proof {
                if let Ok(all) = unescape(s, 0) {
                    assert(all =~= output@ + unescape(s, index as int + 1)->Ok_0);
                }
            }
            index = index + 1;
        }
    }
    match utf8_checked(output.as_slice()) {
        Ok(text) => Ok(text.to_owned()),
        Err(_) => Err("file URI path is not valid UTF-8".to_owned()),
    }
}

/// Tokens written with nothing between them: after an opening bracket, a
/// namespace separator, `->` or `::`; before a closing bracket, `,`, `:`,
/// `;`, a namespace separator, `->` or `::`; a call's `(` after a name, a
/// variable or a closing bracket; and around `?`.
pub open spec fn tight(left: TokenKind, right: TokenKind) -> bool {
    ||| (left is LParen || left is LBracket || left is NamespaceSeparator || left is Arrow || left is DoubleColon)
    ||| (right is RParen || right is RBracket || right is Comma || right is Colon || right is Semicolon
        || right is NamespaceSeparator || right is Arrow || right is DoubleColon)
    ||| (right is LParen && (left is Identifier || left is Variable || left is RParen || left is RBracket))
    ||| right is Question
    ||| left is Question
}

/// What the formatter puts between two tokens on one line.
pub fn token_gap(left: TokenKind, right: TokenKind) -> (gap: &'static str)
    ensures
        gap@ == if tight(left, right) {
            ""@
        } else {
            " "@
        },
{
    if matches!(
        left,
        TokenKind::LParen | TokenKind::LBracket | TokenKind::NamespaceSeparator | TokenKind::Arrow
            | TokenKind::DoubleColon
    ) || matches!(
        right,
        TokenKind::RParen | TokenKind::RBracket | TokenKind::Comma | TokenKind::Colon | TokenKind::Semicolon
            | TokenKind::NamespaceSeparator | TokenKind::Arrow | TokenKind::DoubleColon
    ) || (right == TokenKind::LParen && matches!(
        left,
        TokenKind::Identifier | TokenKind::Variable | TokenKind::RParen | TokenKind::RBracket
    )) || right == TokenKind::Question || left == TokenKind::Question {
        ""
    } else {
        " "
    }
}

/// Whether a token other than the end lies wholly inside `start..end`.
pub fn has_token_between(tokens: &[Token], start: usize, end: usize) -> (found: bool)
    ensures
        found == exists|k: int|
            0 <= k < tokens@.len() && !(tokens@[k].kind is Eof) && tokens@[k].span.start >= start
                && #[trigger] tokens@[k].span.end <= end,
{
    let mut i: usize = 0;
    while i < tokens.len()
        invariant
            i <= tokens@.len(),
            forall|k: int|
                0 <= k < i ==> !(!(tokens@[k].kind is Eof) && tokens@[k].span.start >= start && #[trigger] tokens@[k].span.end
                    <= end),
        decreases tokens.len() - i,
    {
        let token = &tokens[i];
        if token.kind != TokenKind::Eof && token.span.start >= start && token.span.end <= end {
            return true;
        }
        i = i + 1;
    }
    false
}

/// The first byte of a word at `i` or before it: the start of the run of
/// word bytes that ends at `i`.
pub open spec fn word_start(b: Seq<u8>, i: int) -> int
    decreases i,
{
    if 0 < i <= b.len() && word_byte(b[i - 1]) {
        word_start(b, i - 1)
    } else {
        i
    }
}

/// The end of the run of word bytes that starts at `i`.
pub open spec fn word_end(b: Seq<u8>, i: int) -> int
    decreases b.len() - i,
{
    if 0 <= i < b.len() && word_byte(b[i]) {
        word_end(b, i + 1)
    } else {
        i
    }
}

/// ASCII bytes as characters.
pub open spec fn ascii_text(b: Seq<u8>) -> Seq<char> {
    b.map_values(|x: u8| x as char)
}

/// The word around `offset` (clamped to the text): its name, its span
/// with a `$` before it included, and whether it had one; nothing when
/// no word byte touches the offset.
pub open spec fn word_around(b: Seq<u8>, offset: int) -> Option<(Seq<char>, Span, bool)> {
    let o = if offset < b.len() { offset } else { b.len() as int };
    let s = word_start(b, o);
    let e = word_end(b, o);
    let variable = s > 0 && b[s - 1] == 36;
    if s == e {
        None
    } else {
        Some((ascii_text(b.subrange(s, e)), Span { start: (if variable { s - 1 } else { s }) as usize, end: e as usize }, variable))
    }
}

proof fn lemma_word_bounds(b: Seq<u8>, o: int)
    requires
        0 <= o <= b.len(),
    ensures
        0 <= word_start(b, o) <= o,
        o <= word_end(b, o) <= b.len(),
        forall|k: int| word_start(b, o) <= k < o ==> word_byte(#[trigger] b[k]),
        forall|k: int| o <= k < word_end(b, o) ==> word_byte(#[trigger] b[k]),
    decreases b.len() + o,
{
    if 0 < o && word_byte(b[o - 1]) {
        lemma_word_bounds(b, o - 1);
    }
    lemma_word_end_bounds(b, o);
}

proof fn lemma_word_end_bounds(b: Seq<u8>, o: int)
    requires
        0 <= o <= b.len(),
    ensures
        o <= word_end(b, o) <= b.len(),
        forall|k: int| o <= k < word_end(b, o) ==> word_byte(#[trigger] b[k]),
    decreases b.len() - o,
{
    if o < b.len() && word_byte(b[o]) {
        lemma_word_end_bounds(b, o + 1);
    }
}

/// The word at a byte offset of the text, with the `$` of a variable.
pub fn word_at(text: &str, offset: usize) -> (word: Option<(String, Span, bool)>)
    requires
        offset >= vstd::utf8::encode_utf8(text@).len() || vstd::utf8::is_char_boundary(vstd::utf8::encode_utf8(text@), offset as int),
    ensures
        match word_around(vstd::utf8::encode_utf8(text@), offset as int) {
            Some(w) => word matches Some(found) && found.0@ == w.0 && found.1 == w.1 && found.2 == w.2,
            None => word is None,
        },
{
    let bytes = text.as_bytes();
    let ghost b = bytes@;
    let o = if offset < bytes.len() { offset } else { bytes.len() };
    let mut start = o;
    while start > 0 && is_word(bytes[start - 1])
        invariant
            start <= o,
            o <= b.len(),
            b == bytes@,
            word_start(b, start as int) == word_start(b, o as int),
        decreases start,
    {
        start = start - 1;
    }
    let mut end = o;
    while end < bytes.len() && is_word(bytes[end])
        invariant
            o <= end <= b.len(),
            b == bytes@,
            word_end(b, end as int) == word_end(b, o as int),
        decreases bytes.len() - end,
    {
        end = end + 1;
    }
    proof {
        lemma_word_bounds(b, o as int);
    }
    let variable = start > 0 && bytes[start - 1] == 36;
    if start == end {
        return None;
    }
    let mut name: Vec<char> = Vec::new();
    let mut k: usize = start;
    while k < end
        invariant
            start <= k <= end,
            end <= b.len(),
            b == bytes@,
            name@ == ascii_text(b.subrange(start as int, k as int)),
        decreases end - k,
    {
        name.push(bytes[k] as char);
        assert(ascii_text(b.subrange(start as int, k as int + 1)) =~= ascii_text(b.subrange(start as int, k as int)).push(
            b[k as int] as char,
        ));
        k = k + 1;
    }
    let span_start = if variable { start - 1 } else { start };
    Some((string_of(name.as_slice()), Span { start: span_start, end }, variable))
}

/// The text `$name` or `name` lexes as exactly one variable or name token
/// covering all of it, with nothing reported.
pub open spec fn lexes_as_one(text: Seq<char>, expected: TokenKind) -> bool {
    let l = lexed(text);
    &&& l.1.len() == 0
    &&& l.0.len() == 2
    &&& l.0[0].kind == expected
    &&& l.0[0].span == Span { start: 0, end: vstd::utf8::encode_utf8(text).len() as usize }
}

/// Whether a new name is a valid identifier, or a valid variable name
/// when `variable`.
pub fn valid_identifier(name: &str, variable: bool) -> (valid: bool)
    ensures
        valid == lexes_as_one(
            if variable {
                "$"@ + name@
            } else {
                name@
            },
            if variable {
                TokenKind::Variable
            } else {
                TokenKind::Identifier
            },
        ),
{
    let mut chars: Vec<char> = Vec::new();
    if variable {
        push_str(&mut chars, "$");
    }
    push_str(&mut chars, name);
    let text = string_of(chars.as_slice());
    let expected = if variable { TokenKind::Variable } else { TokenKind::Identifier };
    let lexed_text = lex(text.as_str());
    let length = text.as_str().len();
    lexed_text.diagnostics.len() == 0 && lexed_text.tokens.len() == 2 && lexed_text.tokens[0].kind == expected
        && lexed_text.tokens[0].span.start == 0 && lexed_text.tokens[0].span.end == length
}

/// Where a quoted string that opens before `j` ends: after its closing
/// quote `q`, or at the end of the text; a backslash skips the byte after
/// it.
pub open spec fn quoted_end(b: Seq<u8>, j: int, q: u8) -> int
    decreases b.len() - j,
{
    if j < 0 || j >= b.len() {
        j
    } else if b[j] == 92 {
        if j + 2 <= b.len() {
            quoted_end(b, j + 2, q)
        } else {
            b.len() as int
        }
    } else if b[j] == q {
        j + 1
    } else {
        quoted_end(b, j + 1, q)
    }
}

/// The first newline at `j` or after it, or the end of the text.
pub open spec fn line_end(b: Seq<u8>, j: int) -> int
    decreases b.len() - j,
{
    if j < 0 || j >= b.len() {
        b.len() as int
    } else if b[j] == 10 {
        j
    } else {
        line_end(b, j + 1)
    }
}

/// The first `*/` at `j` or after it.
pub open spec fn block_close(b: Seq<u8>, j: int) -> Option<int>
    decreases b.len() - j,
{
    if j < 0 || j + 1 >= b.len() {
        None
    } else if b[j] == 42 && b[j + 1] == 47 {
        Some(j)
    } else {
        block_close(b, j + 1)
    }
}

proof fn lemma_quoted_end(b: Seq<u8>, j: int, q: u8)
    requires
        0 <= j <= b.len(),
    ensures
        quoted_end(b, j, q) >= j,
        quoted_end(b, j, q) <= b.len(),
    decreases b.len() - j,
{
    if j < b.len() {
        if b[j] == 92 {
            if j + 2 <= b.len() {
                lemma_quoted_end(b, j + 2, q);
            }
        } else if b[j] != q {
            lemma_quoted_end(b, j + 1, q);
        }
    }
}

proof fn lemma_line_end(b: Seq<u8>, j: int)
    requires
        0 <= j <= b.len(),
    ensures
        j <= line_end(b, j) <= b.len(),
    decreases b.len() - j,
{
    if j < b.len() && b[j] != 10 {
        lemma_line_end(b, j + 1);
    }
}

proof fn lemma_block_close(b: Seq<u8>, j: int)
    requires
        0 <= j,
    ensures
        block_close(b, j) matches Some(k) ==> j <= k && k + 1 < b.len(),
    decreases b.len() - j,
{
    if j + 1 < b.len() && !(b[j] == 42 && b[j + 1] == 47) {
        lemma_block_close(b, j + 1);
    }
}

/// The comments of a text from byte `i` on, skipping quoted strings: a
/// `//` comment up to its line's end, a `/*` comment up to just after its
/// `*/` or to the end.
pub open spec fn comments_from(b: Seq<u8>, i: int) -> Seq<Span>
    decreases b.len() + 2 - i,
{
    if i < 0 || i + 1 >= b.len() {
        Seq::empty()
    } else if b[i] == 39 || b[i] == 34 {
        let next = quoted_end(b, i + 1, b[i]);
        if next > i && next <= b.len() {
            comments_from(b, next)
        } else {
            Seq::empty()
        }
    } else if b[i] == 47 && b[i + 1] == 47 {
        let end = line_end(b, i);
        if end > i && end <= b.len() {
            seq![Span { start: i as usize, end: end as usize }] + comments_from(b, end)
        } else {
            Seq::empty()
        }
    } else if b[i] == 47 && b[i + 1] == 42 {
        let end = match block_close(b, i + 2) {
            Some(k) => k + 2,
            None => b.len() as int,
        };
        if end > i && end <= b.len() {
            seq![Span { start: i as usize, end: end as usize }] + comments_from(b, end)
        } else {
            Seq::empty()
        }
    } else {
        comments_from(b, i + 1)
    }
}

/// The comments of a text, in order.
pub fn comment_spans(text: &str) -> (spans: Vec<Span>)
    ensures
        spans@ == comments_from(vstd::utf8::encode_utf8(text@), 0),
{
    let bytes = text.as_bytes();
    let ghost b = bytes@;
    let mut spans: Vec<Span> = Vec::new();
    let mut index: usize = 0;
    while index < bytes.len() && bytes.len() - index > 1
        invariant
            b == bytes@,
            index <= b.len(),
            comments_from(b, 0) == spans@ + comments_from(b, index as int),
        decreases b.len() + 2 - index,
    {
        if bytes[index] == 39 || bytes[index] == 34 {
            let quote = bytes[index];
            let ghost at = index as int;
            index = index + 1;
            let mut closed = false;
            while !closed && index < bytes.len()
                invariant
                    b == bytes@,
                    at + 1 <= index <= b.len(),
                    at + 1 < b.len(),
                    closed ==> index as int == quoted_end(b, at + 1, quote),
                    !closed ==> quoted_end(b, index as int, quote) == quoted_end(b, at + 1, quote),
                decreases b.len() + 2 - index,
            {
                if bytes[index] == 92 {
                    index = if bytes.len() - index >= 2 { index + 2 } else { bytes.len() };
                } else if bytes[index] == quote {
                    index = index + 1;
                    closed = true;
                } else {
                    index = index + 1;
                }
            }
            proof {
                lemma_quoted_end(b, at + 1, quote);
            }
            assert(index as int == quoted_end(b, at + 1, quote));
        } else if bytes[index] == 47 && bytes[index + 1] == 47 {
            let start = index;
            proof {
                lemma_line_end(b, start as int);
            }
            while index < bytes.len() && bytes[index] != 10
                invariant
                    b == bytes@,
                    start <= index <= b.len(),
                    line_end(b, index as int) == line_end(b, start as int),
                decreases b.len() - index,
            {
                index = index + 1;
            }
            let ghost before = spans@;
            spans.push(Span { start, end: index });
            assert(spans@ =~= before + seq![Span { start, end: index }]);
        } else if bytes[index] == 47 && bytes[index + 1] == 42 {
            let start = index;
            let mut k: usize = index + 2;
            proof {
                lemma_block_close(b, k as int);
            }
            while k < bytes.len() && bytes.len() - k > 1 && !(bytes[k] == 42 && bytes[k + 1] == 47)
                invariant
                    b == bytes@,
                    start + 2 <= k <= b.len(),
                    block_close(b, k as int) == block_close(b, start + 2),
                decreases b.len() - k,
            {
                k = k + 1;
            }
            let found = k < bytes.len() && bytes.len() - k > 1;
            index = if found { k + 2 } else { bytes.len() };
            let ghost before = spans@;
            spans.push(Span { start, end: index });
            assert(spans@ =~= before + seq![Span { start, end: index }]);
        } else {
            index = index + 1;
        }
    }
    assert(comments_from(b, index as int) =~= Seq::<Span>::empty());
    spans
}


/// A declaration the server indexed: its kind, where its name is, where
/// the declaration starts, and whether its documentation deprecates it.
#[derive(Clone, Copy, Debug, PartialEq, Eq)]
pub struct Declaration {
    pub kind: DeclarationKind,
    pub name_span: Span,
    pub start: usize,
    pub deprecated: bool,
}

/// What classifying a token looks at: the document's declarations and
/// tokens, the spans of its parameters, of its other local variables and
/// of its type parameters, and the span of its namespace name.
pub struct SemanticContext {
    pub declarations: Vec<Declaration>,
    pub tokens: Vec<Token>,
    pub parameter_spans: Vec<Span>,
    pub local_spans: Vec<Span>,
    pub type_parameter_spans: Vec<Span>,
    pub namespace_span: Option<Span>,
}

/// The first declaration from `i` on whose name is at `span`.
pub open spec fn declaration_at(ds: Seq<Declaration>, span: Span, i: int) -> Option<Declaration>
    decreases ds.len() - i,
{
    if i < 0 || i >= ds.len() {
        None
    } else if ds[i].name_span == span {
        Some(ds[i])
    } else {
        declaration_at(ds, span, i + 1)
    }
}

/// The token type of a declaration kind: function 3, type 1, method 4,
/// property 5.
pub open spec fn declaration_type(kind: DeclarationKind) -> u32 {
    match kind {
        DeclarationKind::Function => 3,
        DeclarationKind::Class | DeclarationKind::Interface | DeclarationKind::Trait => 1,
        DeclarationKind::Method => 4,
        DeclarationKind::Property => 5,
    }
}

/// A `static` written between the start of a member's declaration and its
/// name.
pub open spec fn marked_static(ts: Seq<Token>, d: Declaration) -> bool {
    exists|k: int|
        0 <= k < ts.len() && ts[k].kind is Static && d.start <= ts[k].span.start && #[trigger] ts[k].span.end
            <= d.name_span.start
}

/// The modifiers of a declaration: declaration (1), static (2) for a
/// static method or property, deprecated (4).
pub open spec fn declaration_modifiers(ts: Seq<Token>, d: Declaration) -> u32 {
    let is_static = (d.kind is Method || d.kind is Property) && marked_static(ts, d);
    (1 + (if is_static { 2int } else { 0 }) + (if d.deprecated { 4int } else { 0 })) as u32
}

/// How many tokens from `i` on start before `offset`, stopping at the
/// first that does not.
pub open spec fn before_count(ts: Seq<Token>, offset: usize, i: int) -> int
    decreases ts.len() - i,
{
    if 0 <= i < ts.len() && ts[i].span.start < offset {
        before_count(ts, offset, i + 1)
    } else {
        i
    }
}

/// The first token from `i` on that starts at `offset` or later.
pub open spec fn first_from(ts: Seq<Token>, offset: usize, i: int) -> Option<TokenKind>
    decreases ts.len() - i,
{
    if i < 0 || i >= ts.len() {
        None
    } else if ts[i].span.start >= offset {
        Some(ts[i].kind)
    } else {
        first_from(ts, offset, i + 1)
    }
}

/// Keywords, the open tag and the literals `true`, `false` and `null`.
pub open spec fn keyword_token(k: TokenKind) -> bool {
    k is OpenTag || k is Function || k is Namespace || k is Class || k is Interface || k is Trait || k is Use
        || k is Const || k is InsteadOf || k is Implements || k is Extends || k is Abstract || k is Final
        || k is Public || k is Protected || k is Private || k is Static || k is New || k is InstanceOf
        || k is Throw || k is Try || k is Catch || k is Finally || k is Using || k is Return || k is If
        || k is ElseIf || k is Else || k is While || k is For || k is Foreach || k is As || k is Break
        || k is Continue || k is Match || k is Default || k is Echo || k is True || k is False || k is Null
}

/// The type of a name by the tokens around it: a method after `->` or
/// `::` and before `(`, a property after `->` or `::`, a function before
/// `(`, a namespace after `namespace` or `use`, else a type.
pub open spec fn name_type(previous: Option<TokenKind>, next: Option<TokenKind>) -> (u32, u32) {
    let member = previous matches Some(p) && (p is Arrow || p is DoubleColon);
    let call = next matches Some(n) && n is LParen;
    if member && call {
        (4, 0)
    } else if member {
        (5, 0)
    } else if call {
        (3, 0)
    } else if previous matches Some(p) && (p is Namespace || p is Use) {
        (0, 0)
    } else {
        (1, 0)
    }
}

/// The semantic token type and modifiers of a token: a declared name by
/// its declaration; a variable as a parameter (6) or variable (7),
/// declared or not; a name as a type parameter, a namespace part or by
/// its neighbours; a string 9, a number 10, a keyword 8, anything else 11.
pub open spec fn semantic_kind_spec(c: SemanticContext, t: Token) -> (u32, u32) {
    match declaration_at(c.declarations@, t.span, 0) {
        Some(d) => (declaration_type(d.kind), declaration_modifiers(c.tokens@, d)),
        None => match t.kind {
            TokenKind::Variable => {
                let parameter = c.parameter_spans@.contains(t.span);
                let declared = parameter || c.local_spans@.contains(t.span);
                (if parameter { 6 } else { 7 }, if declared { 1 } else { 0 })
            },
            TokenKind::Identifier => if c.type_parameter_spans@.contains(t.span) {
                (2, 1)
            } else if c.namespace_span matches Some(n) && n.start <= t.span.start && t.span.end <= n.end {
                (0, 0)
            } else {
                let k = before_count(c.tokens@, t.span.start, 0);
                let previous = if k > 0 { Some(c.tokens@[k - 1].kind) } else { None };
                name_type(previous, first_from(c.tokens@, t.span.end, 0))
            },
            TokenKind::String => (9, 0),
            TokenKind::Integer | TokenKind::Float => (10, 0),
            k => if keyword_token(k) { (8, 0) } else { (11, 0) },
        },
    }
}

fn contains_span(spans: &Vec<Span>, span: Span) -> (found: bool)
    ensures
        found == spans@.contains(span),
{
    let mut i: usize = 0;
    while i < spans.len()
        invariant
            i <= spans@.len(),
            forall|j: int| 0 <= j < i ==> spans@[j] != span,
        decreases spans.len() - i,
    {
        if spans[i] == span {
            return true;
        }
        i = i + 1;
    }
    false
}

fn has_static_modifier(tokens: &Vec<Token>, d: &Declaration) -> (found: bool)
    ensures
        found == marked_static(tokens@, *d),
{
    let mut i: usize = 0;
    while i < tokens.len()
        invariant
            i <= tokens@.len(),
            forall|k: int|
                0 <= k < i ==> !(tokens@[k].kind is Static && d.start <= tokens@[k].span.start && #[trigger] tokens@[k].span.end
                    <= d.name_span.start),
        decreases tokens.len() - i,
    {
        let t = &tokens[i];
        if t.kind == TokenKind::Static && d.start <= t.span.start && t.span.end <= d.name_span.start {
            return true;
        }
        i = i + 1;
    }
    false
}

/// Classifies a token for semantic highlighting: its token type and its
/// modifier bits.
pub fn semantic_kind(context: &SemanticContext, token: &Token) -> (k: (u32, u32))
    ensures
        k == semantic_kind_spec(*context, *token),
{
    let ds = &context.declarations;
    let mut i: usize = 0;
    while i < ds.len()
        invariant
            i <= ds@.len(),
            ds@ == context.declarations@,
            declaration_at(ds@, token.span, 0) == declaration_at(ds@, token.span, i as int),
        decreases ds.len() - i,
    {
        if ds[i].name_span == token.span {
            let d = ds[i];
            assert(d == ds@[i as int]);
            assert(declaration_at(ds@, token.span, 0) == Some(d));
            let kind: u32 = match d.kind {
                DeclarationKind::Function => 3,
                DeclarationKind::Class => 1,
                DeclarationKind::Interface => 1,
                DeclarationKind::Trait => 1,
                DeclarationKind::Method => 4,
                DeclarationKind::Property => 5,
            };
            let member = d.kind == DeclarationKind::Method || d.kind == DeclarationKind::Property;
            let mut modifiers: u32 = 1;
            if member && has_static_modifier(&context.tokens, &d) {
                modifiers = modifiers + 2;
            }
            if d.deprecated {
                modifiers = modifiers + 4;
            }
            assert(kind == declaration_type(d.kind));
            assert(modifiers == declaration_modifiers(context.tokens@, d));
            return (kind, modifiers);
        }
        i = i + 1;
    }
    match token.kind {
        TokenKind::Variable => {
            let parameter = contains_span(&context.parameter_spans, token.span);
            let declared = parameter || contains_span(&context.local_spans, token.span);
            (if parameter { 6 } else { 7 }, if declared { 1 } else { 0 })
        },
        TokenKind::Identifier => {
            if contains_span(&context.type_parameter_spans, token.span) {
                return (2, 1);
            }
            match context.namespace_span {
                Some(n) => {
                    if n.start <= token.span.start && token.span.end <= n.end {
                        return (0, 0);
                    }
                },
                None => {},
            }
            let ts = &context.tokens;
            let mut k: usize = 0;
            while k < ts.len() && ts[k].span.start < token.span.start
                invariant
                    k <= ts@.len(),
                    ts@ == context.tokens@,
                    before_count(ts@, token.span.start, 0) == before_count(ts@, token.span.start, k as int),
                decreases ts.len() - k,
            {
                k = k + 1;
            }
            let previous = if k > 0 { Some(ts[k - 1].kind) } else { None };
            let mut j: usize = 0;
            while j < ts.len() && ts[j].span.start < token.span.end
                invariant
                    j <= ts@.len(),
                    ts@ == context.tokens@,
                    first_from(ts@, token.span.end, 0) == first_from(ts@, token.span.end, j as int),
                decreases ts.len() - j,
            {
                j = j + 1;
            }
            let next = if j < ts.len() { Some(ts[j].kind) } else { None };
            let member = match previous {
                Some(p) => p == TokenKind::Arrow || p == TokenKind::DoubleColon,
                None => false,
            };
            let call = match next {
                Some(n) => n == TokenKind::LParen,
                None => false,
            };
            if member && call {
                (4, 0)
            } else if member {
                (5, 0)
            } else if call {
                (3, 0)
            } else if match previous {
                Some(p) => p == TokenKind::Namespace || p == TokenKind::Use,
                None => false,
            } {
                (0, 0)
            } else {
                (1, 0)
            }
        },
        TokenKind::String => (9, 0),
        TokenKind::Integer | TokenKind::Float => (10, 0),
        TokenKind::OpenTag | TokenKind::Function | TokenKind::Namespace | TokenKind::Class | TokenKind::Interface
        | TokenKind::Trait | TokenKind::Use | TokenKind::Const | TokenKind::InsteadOf | TokenKind::Implements
        | TokenKind::Extends | TokenKind::Abstract | TokenKind::Final | TokenKind::Public | TokenKind::Protected
        | TokenKind::Private | TokenKind::Static | TokenKind::New | TokenKind::InstanceOf | TokenKind::Throw
        | TokenKind::Try | TokenKind::Catch | TokenKind::Finally | TokenKind::Using | TokenKind::Return
        | TokenKind::If | TokenKind::ElseIf | TokenKind::Else | TokenKind::While | TokenKind::For
        | TokenKind::Foreach | TokenKind::As | TokenKind::Break | TokenKind::Continue | TokenKind::Match
        | TokenKind::Default | TokenKind::Echo | TokenKind::True | TokenKind::False | TokenKind::Null => (8, 0),
        _ => (11, 0),
    }
}


/// The spans of parameter names.
pub open spec fn parameter_names(ps: Seq<Parameter>) -> Seq<Span> {
    ps.map_values(|p: Parameter| p.name_span)
}

/// The spans of the parameter names of methods, in order.
pub open spec fn method_parameter_names(ms: Seq<MethodDecl>) -> Seq<Span>
    decreases ms.len(),
{
    if ms.len() == 0 {
        Seq::empty()
    } else {
        method_parameter_names(ms.drop_last()) + parameter_names(ms.last().function.parameters@)
    }
}

/// The parameters a top-level statement declares: a function's, or those
/// of the methods of a class, interface or trait.
pub open spec fn statement_parameter_names(st: Stmt) -> Seq<Span> {
    match st.kind {
        StmtKind::Function(f) => parameter_names(f.parameters@),
        StmtKind::Class(c) => method_parameter_names(c.methods@),
        StmtKind::Interface(i) => method_parameter_names(i.methods@),
        StmtKind::Trait(t) => method_parameter_names(t.methods@),
        _ => Seq::empty(),
    }
}

/// The parameters of a program's top-level statements, in order.
pub open spec fn program_parameter_names(sts: Seq<Stmt>) -> Seq<Span>
    decreases sts.len(),
{
    if sts.len() == 0 {
        Seq::empty()
    } else {
        program_parameter_names(sts.drop_last()) + statement_parameter_names(sts.last())
    }
}

fn push_parameter_names(out: &mut Vec<Span>, ps: &Vec<Parameter>)
    ensures
        final(out)@ == old(out)@ + parameter_names(ps@),
{
    let ghost before = out@;
    let mut i: usize = 0;
    while i < ps.len()
        invariant
            i <= ps@.len(),
            out@ == before + parameter_names(ps@.subrange(0, i as int)),
        decreases ps.len() - i,
    {
        out.push(ps[i].name_span);
        i = i + 1;
        assert(parameter_names(ps@.subrange(0, i as int)) =~= parameter_names(ps@.subrange(0, i - 1)).push(
            ps@[i - 1].name_span,
        ));
        assert(out@ =~= before + parameter_names(ps@.subrange(0, i as int)));
    }
    assert(ps@.subrange(0, ps@.len() as int) =~= ps@);
}

fn push_method_parameter_names(out: &mut Vec<Span>, ms: &Vec<MethodDecl>)
    ensures
        final(out)@ == old(out)@ + method_parameter_names(ms@),
{
    let ghost before = out@;
    let mut i: usize = 0;
    while i < ms.len()
        invariant
            i <= ms@.len(),
            out@ == before + method_parameter_names(ms@.subrange(0, i as int)),
        decreases ms.len() - i,
    {
        assert(ms@.subrange(0, i as int + 1).drop_last() =~= ms@.subrange(0, i as int));
        push_parameter_names(out, &ms[i].function.parameters);
        i = i + 1;
        assert(out@ =~= before + method_parameter_names(ms@.subrange(0, i as int)));
    }
    assert(ms@.subrange(0, ms@.len() as int) =~= ms@);
}

/// The spans of the parameter names that a program's top-level functions
/// and the methods of its classes, interfaces and traits declare, in
/// order: what semantic highlighting shows as parameters.
pub fn parameter_spans(program: &Program) -> (spans: Vec<Span>)
    ensures
        spans@ == program_parameter_names(program.statements@),
{
    let mut out: Vec<Span> = Vec::new();
    let sts = &program.statements;
    let mut i: usize = 0;
    assert(out@ =~= program_parameter_names(sts@.subrange(0, 0)));
    while i < sts.len()
        invariant
            i <= sts@.len(),
            out@ == program_parameter_names(sts@.subrange(0, i as int)),
        decreases sts.len() - i,
    {
        assert(sts@.subrange(0, i as int + 1).drop_last() =~= sts@.subrange(0, i as int));
        let ghost before = out@;
        match &sts[i].kind {
            StmtKind::Function(f) => push_parameter_names(&mut out, &f.parameters),
            StmtKind::Class(c) => push_method_parameter_names(&mut out, &c.methods),
            StmtKind::Interface(d) => push_method_parameter_names(&mut out, &d.methods),
            StmtKind::Trait(t) => push_method_parameter_names(&mut out, &t.methods),
            _ => {},
        }
        i = i + 1;
        assert(out@ =~= before + statement_parameter_names(sts@[i - 1]));
    }
    assert(sts@.subrange(0, sts@.len() as int) =~= sts@);
    out
}

} // verus!
