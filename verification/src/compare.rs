//! Output normalisation, expectation matching and the human-readable
//! rendering of mismatches for PHPT fixtures.

use vstd::prelude::*;
use vstd::utf8::{decode_utf8, valid_utf8};
use crate::text::{chars_of, decimal, push_chars, push_decimal, push_str, string_of, utf8_text};

verus! {

/// ASCII white space as `u8::is_ascii_whitespace` tests it.
pub open spec fn is_ascii_ws(b: u8) -> bool {
    b == 32 || b == 9 || b == 10 || b == 12 || b == 13
}

pub fn is_ascii_ws_exec(b: u8) -> (r: bool)
    ensures
        r == is_ascii_ws(b),
{
    b == 32 || b == 9 || b == 10 || b == 12 || b == 13
}

/// Every `\r\n` pair replaced by `\n`, scanning left to right.
pub open spec fn crlf_to_lf(s: Seq<u8>) -> Seq<u8>
    decreases s.len(),
{
    if s.len() >= 2 && s[0] == 13 && s[1] == 10 {
        seq![10u8] + crlf_to_lf(s.subrange(2, s.len() as int))
    } else if s.len() > 0 {
        seq![s[0]] + crlf_to_lf(s.drop_first())
    } else {
        Seq::empty()
    }
}

pub open spec fn skip_ascii_ws_front(s: Seq<u8>, i: int) -> int
    decreases s.len() - i,
{
    if 0 <= i < s.len() && is_ascii_ws(s[i]) {
        skip_ascii_ws_front(s, i + 1)
    } else {
        i
    }
}

pub open spec fn skip_ascii_ws_back(s: Seq<u8>, lo: int, j: int) -> int
    decreases j - lo,
{
    if lo < j <= s.len() && is_ascii_ws(s[j - 1]) {
        skip_ascii_ws_back(s, lo, j - 1)
    } else {
        j
    }
}

/// The bytes without leading and trailing ASCII white space.
pub open spec fn trim_ascii(s: Seq<u8>) -> Seq<u8> {
    let a = skip_ascii_ws_front(s, 0);
    s.subrange(a, skip_ascii_ws_back(s, a, s.len() as int))
}

/// Output as fixtures compare it: CRLF folded to LF, then trimmed.
pub open spec fn normalize_spec(s: Seq<u8>) -> Seq<u8> {
    trim_ascii(crlf_to_lf(s))
}

proof fn lemma_skip_front(s: Seq<u8>, i: int)
    requires
        0 <= i <= s.len(),
    ensures
        i <= skip_ascii_ws_front(s, i) <= s.len(),
    decreases s.len() - i,
{
    if i < s.len() && is_ascii_ws(s[i]) {
        lemma_skip_front(s, i + 1);
    }
}

proof fn lemma_skip_back(s: Seq<u8>, lo: int, j: int)
    requires
        0 <= lo <= j <= s.len(),
    ensures
        lo <= skip_ascii_ws_back(s, lo, j) <= j,
    decreases j - lo,
{
    if lo < j && is_ascii_ws(s[j - 1]) {
        lemma_skip_back(s, lo, j - 1);
    }
}

/// Trims ASCII white space from both ends.
pub fn trim_ascii_exec(s: &[u8]) -> (t: Vec<u8>)
    ensures
        t@ == trim_ascii(s@),
{
    let mut a: usize = 0;
    while a < s.len() && is_ascii_ws_exec(s[a])
        invariant
            a <= s@.len(),
            skip_ascii_ws_front(s@, 0) == skip_ascii_ws_front(s@, a as int),
        decreases s.len() - a,
    {
        a = a + 1;
    }
    let mut b: usize = s.len();
    while b > a && is_ascii_ws_exec(s[b - 1])
        invariant
            a <= b <= s@.len(),
            a as int == skip_ascii_ws_front(s@, 0),
            skip_ascii_ws_back(s@, a as int, s@.len() as int) == skip_ascii_ws_back(s@, a as int, b as int),
        decreases b - a,
    {
        b = b - 1;
    }
    crate::text::copy_range(s, a, b)
}

/// Normalises output for comparison: `\r\n` becomes `\n`, then ASCII
/// white space is trimmed from both ends.
pub fn normalize(bytes: &[u8]) -> (normalized: Vec<u8>)
    ensures
        normalized@ == normalize_spec(bytes@),
{
    let mut folded: Vec<u8> = Vec::new();
    let mut index: usize = 0;
    assert(bytes@.subrange(0, bytes@.len() as int) =~= bytes@);
    assert(folded@ + crlf_to_lf(bytes@) =~= crlf_to_lf(bytes@));
    while index < bytes.len()
        invariant
            index <= bytes@.len(),
            crlf_to_lf(bytes@) == folded@ + crlf_to_lf(bytes@.subrange(index as int, bytes@.len() as int)),
        decreases bytes.len() - index,
    {
        let ghost rest = bytes@.subrange(index as int, bytes@.len() as int);
        if index + 1 < bytes.len() && bytes[index] == 13 && bytes[index + 1] == 10 {
            folded.push(10);
            index = index + 2;
            assert(rest.subrange(2, rest.len() as int) =~= bytes@.subrange(index as int, bytes@.len() as int));
            assert(crlf_to_lf(bytes@) =~= folded@ + crlf_to_lf(bytes@.subrange(index as int, bytes@.len() as int)));
        } else {
            folded.push(bytes[index]);
            index = index + 1;
            assert(rest.drop_first() =~= bytes@.subrange(index as int, bytes@.len() as int));
            assert(crlf_to_lf(bytes@) =~= folded@ + crlf_to_lf(bytes@.subrange(index as int, bytes@.len() as int)));
        }
    }
    assert(crlf_to_lf(bytes@.subrange(index as int, bytes@.len() as int)) =~= Seq::<u8>::empty());
    assert(folded@ + Seq::<u8>::empty() =~= folded@);
    trim_ascii_exec(folded.as_slice())
}

/// A lower-case hexadecimal digit.
pub open spec fn hex_lower(n: nat) -> char {
    if n < 10 {
        ((48 + n) as u32) as char
    } else {
        ((87 + n) as u32) as char
    }
}

/// An upper-case hexadecimal digit.
pub open spec fn hex_upper(n: nat) -> char {
    if n < 10 {
        ((48 + n) as u32) as char
    } else {
        ((55 + n) as u32) as char
    }
}

fn hex_digit(n: u8, upper: bool) -> (c: char)
    requires
        n < 16,
    ensures
        c == (if upper { hex_upper(n as nat) } else { hex_lower(n as nat) }),
{
    if n < 10 {
        ((48 + n) as u8) as char
    } else if upper {
        ((55 + n) as u8) as char
    } else {
        ((87 + n) as u8) as char
    }
}

/// How one byte is shown in a mismatch report.
pub open spec fn escape_byte(b: u8) -> Seq<char> {
    if b == 10 {
        seq!['\\', 'n']
    } else if b == 13 {
        seq!['\\', 'r']
    } else if b == 9 {
        seq!['\\', 't']
    } else if b == 92 {
        seq!['\\', '\\']
    } else if b == 34 {
        seq!['\\', '"']
    } else if 32 <= b && b <= 126 {
        seq![b as char]
    } else {
        seq!['\\', 'x', hex_lower((b / 16) as nat), hex_lower((b % 16) as nat)]
    }
}

/// Every byte escaped, in order.
pub open spec fn escape_all(s: Seq<u8>) -> Seq<char>
    decreases s.len(),
{
    if s.len() == 0 {
        Seq::empty()
    } else {
        escape_all(s.drop_last()) + escape_byte(s.last())
    }
}

/// A quoted, escaped rendering of arbitrary bytes.
pub open spec fn display_spec(s: Seq<u8>) -> Seq<char> {
    seq!['"'] + escape_all(s) + seq!['"']
}

fn push_escaped(out: &mut Vec<char>, b: u8)
    ensures
        final(out)@ == old(out)@ + escape_byte(b),
{
    if b == 10 {
        out.push('\\');
        out.push('n');
    } else if b == 13 {
        out.push('\\');
        out.push('r');
    } else if b == 9 {
        out.push('\\');
        out.push('t');
    } else if b == 92 {
        out.push('\\');
        out.push('\\');
    } else if b == 34 {
        out.push('\\');
        out.push('"');
    } else if 32 <= b && b <= 126 {
        out.push(b as char);
    } else {
        out.push('\\');
        out.push('x');
        let high = hex_digit(b / 16, false);
        let low = hex_digit(b % 16, false);
        out.push(high);
        out.push(low);
    }
    assert(final(out)@ =~= old(out)@ + escape_byte(b));
}

fn push_display(out: &mut Vec<char>, bytes: &[u8])
    ensures
        final(out)@ == old(out)@ + display_spec(bytes@),
{
    out.push('"');
    let mut i: usize = 0;
    while i < bytes.len()
        invariant
            i <= bytes@.len(),
            out@ == old(out)@ + seq!['"'] + escape_all(bytes@.subrange(0, i as int)),
        decreases bytes.len() - i,
    {
        push_escaped(out, bytes[i]);
        i = i + 1;
        assert(bytes@.subrange(0, i as int).drop_last() =~= bytes@.subrange(0, i - 1));
        assert(out@ =~= old(out)@ + seq!['"'] + escape_all(bytes@.subrange(0, i as int)));
    }
    assert(bytes@.subrange(0, bytes@.len() as int) =~= bytes@);
    out.push('"');
    assert(final(out)@ =~= old(out)@ + display_spec(bytes@));
}

/// Renders bytes quoted, with `\n`, `\r`, `\t`, `\\`, `\"` escapes, other
/// printable ASCII as itself and everything else as `\xNN`.
pub fn display_bytes(bytes: &[u8]) -> (display: String)
    ensures
        display@ == display_spec(bytes@),
{
    let mut out: Vec<char> = Vec::new();
    push_display(&mut out, bytes);
    string_of(out.as_slice())
}

/// The position of the first differing byte, or the shorter length.
pub open spec fn first_difference(a: Seq<u8>, b: Seq<u8>) -> int {
    if exists|k: int| 0 <= k < a.len() && k < b.len() && a[k] != b[k] {
        choose|k: int|
            0 <= k < a.len() && k < b.len() && a[k] != b[k] && (forall|j: int|
                0 <= j < k ==> a[j] == b[j])
    } else if a.len() < b.len() {
        a.len() as int
    } else {
        b.len() as int
    }
}

/// The label of an expectation kind in reports.
pub open spec fn kind_label(kind: crate::fixture::ExpectationKind) -> Seq<char> {
    match kind {
        crate::fixture::ExpectationKind::Exact => "exact"@,
        crate::fixture::ExpectationKind::Formatted => "formatted"@,
        crate::fixture::ExpectationKind::Regex => "regex"@,
    }
}

/// The report text for an output mismatch.
pub open spec fn mismatch_spec(kind: crate::fixture::ExpectationKind, expected: Seq<u8>, actual: Seq<u8>) -> Seq<char> {
    kind_label(kind) + " output mismatch at byte "@ + decimal(first_difference(expected, actual) as nat)
        + "\nexpected: "@ + display_spec(expected) + "\nactual:   "@ + display_spec(actual)
}

/// Describes where and how output differed from its expectation.
pub fn mismatch_details(kind: crate::fixture::ExpectationKind, expected: &[u8], actual: &[u8]) -> (details: String)
    ensures
        details@ == mismatch_spec(kind, expected@, actual@),
{
    let mut first: usize = 0;
    while first < expected.len() && first < actual.len() && expected[first] == actual[first]
        invariant
            first <= expected@.len(),
            first <= actual@.len(),
            forall|j: int| 0 <= j < first ==> expected@[j] == actual@[j],
        decreases expected.len() - first,
    {
        first = first + 1;
    }
    assert(first as int == first_difference(expected@, actual@)) by {
        if first < expected@.len() && first < actual@.len() {
            let k = choose|k: int|
                0 <= k < expected@.len() && k < actual@.len() && expected@[k] != actual@[k] && (
                forall|j: int| 0 <= j < k ==> expected@[j] == actual@[j]);
            assert(expected@[first as int] != actual@[first as int]);
            if k < first {
            } else if k > first {
            }
        } else {
            assert(!(exists|k: int| 0 <= k < expected@.len() && k < actual@.len() && expected@[k] != actual@[k]));
        }
    }
    let mut out: Vec<char> = Vec::new();
    match kind {
        crate::fixture::ExpectationKind::Exact => push_str(&mut out, "exact"),
        crate::fixture::ExpectationKind::Formatted => push_str(&mut out, "formatted"),
        crate::fixture::ExpectationKind::Regex => push_str(&mut out, "regex"),
    }
    push_str(&mut out, " output mismatch at byte ");
    push_decimal(&mut out, first as u128);
    push_str(&mut out, "\nexpected: ");
    push_display(&mut out, expected);
    push_str(&mut out, "\nactual:   ");
    push_display(&mut out, actual);
    assert(out@ =~= mismatch_spec(kind, expected@, actual@));
    string_of(out.as_slice())
}


/// ASCII lower-casing of one byte.
pub open spec fn ascii_lower(b: u8) -> u8 {
    if 65 <= b && b <= 90 {
        (b + 32) as u8
    } else {
        b
    }
}

/// `std::string::String::from_utf8_lossy`: the text of the bytes with each
/// malformed sequence replaced. Named, since its replacement rules take
/// pages; well-formed input decodes as it is.
pub uninterp spec fn utf8_lossy(bytes: Seq<u8>) -> Seq<char>;

/// `String::from_utf8_lossy(..).into_owned()`. The contract claims the result
/// is the named function of the bytes and, for well-formed UTF-8, the
/// plain decoding (as std documents).
#[verifier::external_body]
pub(crate) fn lossy_text(bytes: &[u8]) -> (text: String)
    ensures
        text@ == utf8_lossy(bytes@),
        valid_utf8(bytes@) ==> text@ == decode_utf8(bytes@),
{
    String::from_utf8_lossy(bytes).into_owned()
}

/// Where the skip reason starts: past white space and `:` after `skip`.
pub open spec fn skip_reason_start(s: Seq<u8>, i: int) -> int
    decreases s.len() - i,
{
    if 4 <= i < s.len() && (is_ascii_ws(s[i]) || s[i] == 58) {
        skip_reason_start(s, i + 1)
    } else {
        i
    }
}

/// The reason SKIPIF output gives for skipping, if the output asks for a
/// skip: `skip` in any case, then nothing, white space or `:`.
pub open spec fn skip_reason_spec(output: Seq<u8>) -> Option<Seq<char>> {
    if output.len() < 4 || !(ascii_lower(output[0]) == 115 && ascii_lower(output[1]) == 107
        && ascii_lower(output[2]) == 105 && ascii_lower(output[3]) == 112) {
        None
    } else if output.len() > 4 && !is_ascii_ws(output[4]) && output[4] != 58 {
        None
    } else {
        let start = skip_reason_start(output, 4);
        if start >= output.len() {
            Some("skip requested"@)
        } else {
            Some(utf8_lossy(output.subrange(start, output.len() as int)))
        }
    }
}

fn lower(b: u8) -> (l: u8)
    ensures
        l == ascii_lower(b),
{
    if 65 <= b && b <= 90 {
        b + 32
    } else {
        b
    }
}

/// Interprets SKIPIF output.
pub fn skip_reason(output: &[u8]) -> (reason: Option<String>)
    ensures
        match skip_reason_spec(output@) {
            Some(r) => reason is Some && reason->0@ == r,
            None => reason is None,
        },
{
    if output.len() < 4 || !(lower(output[0]) == 115 && lower(output[1]) == 107 && lower(output[2])
        == 105 && lower(output[3]) == 112) {
        return None;
    }
    if output.len() > 4 && !is_ascii_ws_exec(output[4]) && output[4] != 58 {
        return None;
    }
    let mut start: usize = 4;
    while start < output.len() && (is_ascii_ws_exec(output[start]) || output[start] == 58)
        invariant
            4 <= start <= output@.len(),
            skip_reason_start(output@, 4) == skip_reason_start(output@, start as int),
        decreases output.len() - start,
    {
        start = start + 1;
    }
    if start >= output.len() {
        Some("skip requested".to_owned())
    } else {
        let rest = crate::text::copy_range(output, start, output.len());
        Some(lossy_text(rest.as_slice()))
    }
}

/// The regular expression a `%x` placeholder stands for, given the
/// platform path separator.
pub open spec fn placeholder(separator: char, c: char) -> Option<Seq<char>> {
    if c == 'e' {
        Some(if separator == '\\' { "\\\\"@ } else { "/"@ })
    } else if c == 's' {
        Some("[^\\r\\n]+"@)
    } else if c == 'S' {
        Some("[^\\r\\n]*"@)
    } else if c == 'a' {
        Some("(?-u:.)+?"@)
    } else if c == 'A' {
        Some("(?-u:.)*?"@)
    } else if c == 'w' {
        Some("\\s*"@)
    } else if c == 'i' {
        Some("[+-]?\\d+"@)
    } else if c == 'd' {
        Some("\\d+"@)
    } else if c == 'x' {
        Some("[0-9a-fA-F]+"@)
    } else if c == 'f' {
        Some("[+-]?(?:\\d+(?:\\.\\d+)?|\\.\\d+)(?:[Ee][+-]?\\d+)?"@)
    } else if c == 'c' {
        Some("(?-u:.)"@)
    } else if c == '0' {
        Some("\\x00"@)
    } else {
        None
    }
}

fn placeholder_exec(separator: char, c: char) -> (r: Option<&'static str>)
    ensures
        match placeholder(separator, c) {
            Some(p) => r is Some && r->0@ == p,
            None => r is None,
        },
{
    if c == 'e' {
        Some(if separator == '\\' { "\\\\" } else { "/" })
    } else if c == 's' {
        Some("[^\\r\\n]+")
    } else if c == 'S' {
        Some("[^\\r\\n]*")
    } else if c == 'a' {
        Some("(?-u:.)+?")
    } else if c == 'A' {
        Some("(?-u:.)*?")
    } else if c == 'w' {
        Some("\\s*")
    } else if c == 'i' {
        Some("[+-]?\\d+")
    } else if c == 'd' {
        Some("\\d+")
    } else if c == 'x' {
        Some("[0-9a-fA-F]+")
    } else if c == 'f' {
        Some("[+-]?(?:\\d+(?:\\.\\d+)?|\\.\\d+)(?:[Ee][+-]?\\d+)?")
    } else if c == 'c' {
        Some("(?-u:.)")
    } else if c == '0' {
        Some("\\x00")
    } else {
        None
    }
}

/// A run of literal bytes as a byte-exact regular expression.
pub open spec fn hex_escapes(literal: Seq<u8>) -> Seq<char>
    decreases literal.len(),
{
    if literal.len() == 0 {
        Seq::empty()
    } else {
        hex_escapes(literal.drop_last()) + seq![
            '\\',
            'x',
            hex_upper((literal.last() / 16) as nat),
            hex_upper((literal.last() % 16) as nat),
        ]
    }
}

/// `(?-u:\xNN...)` for a non-empty literal, nothing for an empty one.
pub open spec fn literal_pattern(literal: Seq<u8>) -> Seq<char> {
    if literal.len() == 0 {
        Seq::empty()
    } else {
        "(?-u:"@ + hex_escapes(literal) + ")"@
    }
}

/// Appends the byte-exact pattern of a literal run.
pub fn append_literal_pattern(pattern: &mut Vec<char>, literal: &[u8])
    ensures
        final(pattern)@ == old(pattern)@ + literal_pattern(literal@),
{
    if literal.len() == 0 {
        assert(old(pattern)@ + literal_pattern(literal@) =~= old(pattern)@);
        return ;
    }
    push_str(pattern, "(?-u:");
    let ghost prefix = pattern@;
    let mut i: usize = 0;
    while i < literal.len()
        invariant
            i <= literal@.len(),
            pattern@ == prefix + hex_escapes(literal@.subrange(0, i as int)),
        decreases literal.len() - i,
    {
        let b = literal[i];
        pattern.push('\\');
        pattern.push('x');
        let high = hex_digit(b / 16, true);
        let low = hex_digit(b % 16, true);
        pattern.push(high);
        pattern.push(low);
        i = i + 1;
        assert(literal@.subrange(0, i as int).drop_last() =~= literal@.subrange(0, i - 1));
        assert(pattern@ =~= prefix + hex_escapes(literal@.subrange(0, i as int)));
    }
    assert(literal@.subrange(0, literal@.len() as int) =~= literal@);
    push_str(pattern, ")");
    assert(final(pattern)@ =~= old(pattern)@ + literal_pattern(literal@));
}

/// Placeholders inside a raw `%r` block replaced; everything else kept.
pub open spec fn replace_spec(separator: char, s: Seq<char>) -> Seq<char>
    decreases s.len(),
{
    if s.len() == 0 {
        Seq::empty()
    } else if s.len() >= 2 && s[0] == '%' && placeholder(separator, s[1]) is Some {
        placeholder(separator, s[1]).unwrap() + replace_spec(separator, s.subrange(2, s.len() as int))
    } else {
        seq![s[0]] + replace_spec(separator, s.drop_first())
    }
}

/// Replaces the placeholders of a raw regular-expression block.
pub fn replace_placeholders(separator: char, raw: &str) -> (replaced: Vec<char>)
    ensures
        replaced@ == replace_spec(separator, raw@),
{
    let chars = chars_of(raw);
    let mut out: Vec<char> = Vec::new();
    let mut i: usize = 0;
    assert(raw@.subrange(0, raw@.len() as int) =~= raw@);
    assert(out@ + replace_spec(separator, raw@) =~= replace_spec(separator, raw@));
    while i < chars.len()
        invariant
            i <= chars@.len(),
            chars@ == raw@,
            replace_spec(separator, raw@) == out@ + replace_spec(separator, raw@.subrange(i as int, raw@.len() as int)),
        decreases chars.len() - i,
    {
        let ghost rest = raw@.subrange(i as int, raw@.len() as int);
        if chars[i] == '%' && i + 1 < chars.len() {
            match placeholder_exec(separator, chars[i + 1]) {
                Some(replacement) => {
                    push_str(&mut out, replacement);
                    i = i + 2;
                    assert(rest.subrange(2, rest.len() as int) =~= raw@.subrange(i as int, raw@.len() as int));
                    assert(replace_spec(separator, raw@) =~= out@ + replace_spec(separator, raw@.subrange(i as int, raw@.len() as int)));
                    continue;
                },
                None => {},
            }
        }
        out.push(chars[i]);
        i = i + 1;
        assert(rest.drop_first() =~= raw@.subrange(i as int, raw@.len() as int));
        assert(replace_spec(separator, raw@) =~= out@ + replace_spec(separator, raw@.subrange(i as int, raw@.len() as int)));
    }
    assert(out@ + replace_spec(separator, raw@.subrange(i as int, raw@.len() as int)) =~= out@);
    out
}

/// The start of the first `%r` at or after `i`.
pub open spec fn find_raw_end(e: Seq<u8>, i: int) -> Option<int>
    decreases e.len() - i,
{
    if i < 0 || i + 1 >= e.len() {
        None
    } else if e[i] == 37 && e[i + 1] == 114 {
        Some(i)
    } else {
        find_raw_end(e, i + 1)
    }
}

/// The regular expression for the rest of an `--EXPECTF--` body from
/// `i`, with `literal` the pending literal bytes, or the error message.
pub open spec fn expectf_from(separator: char, e: Seq<u8>, i: int, literal: Seq<u8>) -> Result<Seq<char>, Seq<char>>
    decreases e.len() - i,
{
    if i < 0 || i >= e.len() {
        Ok(literal_pattern(literal))
    } else if e[i] != 37 || i + 1 >= e.len() {
        expectf_from(separator, e, i + 1, literal.push(e[i]))
    } else if e[i + 1] == 114 {
        proof {
            lemma_find_raw_end(e, i + 2);
        }
        match find_raw_end(e, i + 2) {
            None => Err("unterminated %r block in --EXPECTF--"@),
            Some(j) => if !valid_utf8(e.subrange(i + 2, j)) {
                Err("%r block must be valid UTF-8"@)
            } else {
                match expectf_from(separator, e, j + 2, Seq::empty()) {
                    Err(m) => Err(m),
                    Ok(rest) => Ok(literal_pattern(literal) + replace_spec(separator, decode_utf8(e.subrange(i + 2, j))) + rest),
                }
            },
        }
    } else {
        match placeholder(separator, e[i + 1] as char) {
            Some(p) => match expectf_from(separator, e, i + 2, Seq::empty()) {
                Err(m) => Err(m),
                Ok(rest) => Ok(literal_pattern(literal) + p + rest),
            },
            None => expectf_from(separator, e, i + 1, literal.push(e[i])),
        }
    }
}

/// The pattern for the literal bytes pending before a placeholder, the
/// placeholder's own regular expression, then the pattern of the rest.
pub open spec fn after_placeholder(literal: Seq<u8>, regex: Seq<char>, rest: Result<Seq<char>, Seq<char>>) -> Result<Seq<char>, Seq<char>> {
    match rest {
        Ok(r) => Ok(literal_pattern(literal) + regex + r),
        Err(m) => Err(m),
    }
}

/// What each `--EXPECTF--` placeholder stands for. At a `%` followed by a
/// placeholder letter, the pattern is the pending literal bytes, then the
/// placeholder's regular expression, then the pattern of the rest of the
/// body: `%d` is one or more decimal digits (`\d+`), `%i` an optionally
/// signed integer, `%x` one or more hex digits, `%s` one or more
/// characters up to a line break, `%S` zero or more, `%a` and `%A` one or
/// more and zero or more bytes of any kind, `%w` optional white space,
/// `%c` one byte, `%0` a NUL byte, `%e` the path separator, and `%f` a
/// decimal number with an optional exponent.
pub proof fn lemma_placeholder_patterns(separator: char, e: Seq<u8>, i: int, literal: Seq<u8>)
    requires
        0 <= i,
        i + 1 < e.len(),
        e[i] == 37,
    ensures
        e[i + 1] == 100 ==> expectf_from(separator, e, i, literal) == after_placeholder(literal, "\\d+"@, expectf_from(separator, e, i + 2, Seq::empty())),
        e[i + 1] == 105 ==> expectf_from(separator, e, i, literal) == after_placeholder(literal, "[+-]?\\d+"@, expectf_from(separator, e, i + 2, Seq::empty())),
        e[i + 1] == 120 ==> expectf_from(separator, e, i, literal) == after_placeholder(literal, "[0-9a-fA-F]+"@, expectf_from(separator, e, i + 2, Seq::empty())),
        e[i + 1] == 115 ==> expectf_from(separator, e, i, literal) == after_placeholder(literal, "[^\\r\\n]+"@, expectf_from(separator, e, i + 2, Seq::empty())),
        e[i + 1] == 83 ==> expectf_from(separator, e, i, literal) == after_placeholder(literal, "[^\\r\\n]*"@, expectf_from(separator, e, i + 2, Seq::empty())),
        e[i + 1] == 97 ==> expectf_from(separator, e, i, literal) == after_placeholder(literal, "(?-u:.)+?"@, expectf_from(separator, e, i + 2, Seq::empty())),
        e[i + 1] == 65 ==> expectf_from(separator, e, i, literal) == after_placeholder(literal, "(?-u:.)*?"@, expectf_from(separator, e, i + 2, Seq::empty())),
        e[i + 1] == 119 ==> expectf_from(separator, e, i, literal) == after_placeholder(literal, "\\s*"@, expectf_from(separator, e, i + 2, Seq::empty())),
        e[i + 1] == 99 ==> expectf_from(separator, e, i, literal) == after_placeholder(literal, "(?-u:.)"@, expectf_from(separator, e, i + 2, Seq::empty())),
        e[i + 1] == 48 ==> expectf_from(separator, e, i, literal) == after_placeholder(literal, "\\x00"@, expectf_from(separator, e, i + 2, Seq::empty())),
        e[i + 1] == 101 ==> expectf_from(separator, e, i, literal) == after_placeholder(literal, if separator == '\\' { "\\\\"@ } else { "/"@ }, expectf_from(separator, e, i + 2, Seq::empty())),
        e[i + 1] == 102 ==> expectf_from(separator, e, i, literal) == after_placeholder(literal, "[+-]?(?:\\d+(?:\\.\\d+)?|\\.\\d+)(?:[Ee][+-]?\\d+)?"@, expectf_from(separator, e, i + 2, Seq::empty())),
{
}

/// An `--EXPECTF--` body that is just `%d` is the regular expression
/// `\d+`: comparing any output with it is matching the whole output
/// against one or more decimal digits, whatever the path separator.
pub proof fn lemma_percent_d_expectation(separator: char, actual: Seq<u8>)
    ensures
        compare_spec(separator, crate::fixture::ExpectationKind::Formatted, seq![37u8, 100u8], actual) == regex_outcome("\\d+"@, actual),
{
    let e = seq![37u8, 100u8];
    lemma_placeholder_patterns(separator, e, 0, Seq::empty());
    assert(expectf_from(separator, e, 2, Seq::empty()) == Ok::<Seq<char>, Seq<char>>(Seq::empty()));
    assert(literal_pattern(Seq::empty()) == Seq::<char>::empty());
    assert(Seq::<char>::empty() + "\\d+"@ + Seq::<char>::empty() =~= "\\d+"@);
}

pub proof fn lemma_find_raw_end(e: Seq<u8>, i: int)
    requires
        0 <= i,
    ensures
        find_raw_end(e, i) matches Some(j) ==> i <= j && j + 1 < e.len(),
    decreases e.len() - i,
{
    if i + 1 < e.len() && !(e[i] == 37 && e[i + 1] == 114) {
        lemma_find_raw_end(e, i + 1);
    }
}

fn find_raw_end_exec(e: &[u8], from: usize) -> (j: Option<usize>)
    ensures
        match find_raw_end(e@, from as int) {
            Some(k) => j == Some(k as usize),
            None => j is None,
        },
{
    proof {
        lemma_find_raw_end(e@, from as int);
    }
    let mut i = from;
    while i < e.len() && i + 1 < e.len()
        invariant
            from <= i,
            find_raw_end(e@, from as int) == find_raw_end(e@, i as int),
        decreases e.len() - i,
    {
        if e[i] == 37 && e[i + 1] == 114 {
            return Some(i);
        }
        i = i + 1;
    }
    None
}

/// Translates an `--EXPECTF--` body into an anchored-ready regular
/// expression: literal bytes exactly, `%x` placeholders as their patterns,
/// `%r...%r` blocks as raw regular expressions.
pub fn expectf_pattern(separator: char, expected: &[u8]) -> (pattern: Result<Vec<char>, String>)
    ensures
        match expectf_from(separator, expected@, 0, Seq::empty()) {
            Ok(p) => pattern is Ok && pattern->Ok_0@ == p,
            Err(m) => pattern is Err && pattern->Err_0@ == m,
        },
{
    let mut out: Vec<char> = Vec::new();
    let mut literal: Vec<u8> = Vec::new();
    let mut index: usize = 0;
    while index < expected.len()
        invariant
            index <= expected@.len(),
            expectf_from(separator, expected@, 0, Seq::empty()) == match expectf_from(separator, expected@, index as int, literal@) {
                Ok(rest) => Ok(out@ + rest),
                Err(m) => Err(m),
            },
        decreases expected.len() - index,
    {
        let ghost before_out = out@;
        let ghost before_literal = literal@;
        let ghost at = index as int;
        if expected[index] != 37 || index + 1 >= expected.len() {
            literal.push(expected[index]);
            index = index + 1;
            continue;
        }
        if expected[index + 1] == 114 {
            let raw_start = index + 2;
            let raw_end = match find_raw_end_exec(expected, raw_start) {
                None => {
                    return Err("unterminated %r block in --EXPECTF--".to_owned());
                },
                Some(j) => j,
            };
            proof {
                lemma_find_raw_end(expected@, raw_start as int);
            }
            let raw = crate::text::copy_range(expected, raw_start, raw_end);
            let text = match utf8_text(raw.as_slice()) {
                None => {
                    return Err("%r block must be valid UTF-8".to_owned());
                },
                Some(t) => t,
            };
            append_literal_pattern(&mut out, literal.as_slice());
            literal = Vec::new();
            let replaced = replace_placeholders(separator, text);
            push_chars(&mut out, replaced.as_slice());
            index = raw_end + 2;
            assert(literal@ =~= Seq::<u8>::empty());
            proof {
                match expectf_from(separator, expected@, index as int, literal@) {
                    Ok(rest) => {
                        assert(before_out + (literal_pattern(before_literal) + replace_spec(separator, decode_utf8(raw@)) + rest) =~= out@ + rest);
                    },
                    Err(m) => {},
                }
            }
            continue;
        }
        match placeholder_exec(separator, expected[index + 1] as char) {
            Some(replacement) => {
                append_literal_pattern(&mut out, literal.as_slice());
                literal = Vec::new();
                push_str(&mut out, replacement);
                index = index + 2;
                assert(literal@ =~= Seq::<u8>::empty());
                proof {
                    match expectf_from(separator, expected@, index as int, literal@) {
                        Ok(rest) => {
                            assert(before_out + (literal_pattern(before_literal) + replacement@ + rest) =~= out@ + rest);
                        },
                        Err(m) => {},
                    }
                }
            },
            None => {
                literal.push(expected[index]);
                index = index + 1;
            },
        }
    }
    append_literal_pattern(&mut out, literal.as_slice());
    Ok(out)
}


/// `regex::bytes::Regex`, compiled from a pattern.
#[verifier::external_type_specification]
#[verifier::external_body]
pub struct ExRegex(regex::bytes::Regex);

/// What `regex::bytes::Regex::new` makes of a pattern: `None` when it
/// compiles, otherwise the display text of its error. Named: the
/// grammar takes pages.
pub uninterp spec fn regex_compile_error(pattern: Seq<char>) -> Option<Seq<char>>;

/// Whether the regular expression compiled from `pattern` matches
/// somewhere in `haystack` (`Regex::is_match`). Named for the same reason.
pub uninterp spec fn regex_is_match(pattern: Seq<char>, haystack: Seq<u8>) -> bool;

/// A compiled regular expression together with the pattern it was
/// compiled from. Only `compile_regex` builds one.
pub struct CompiledRegex {
    regex: regex::bytes::Regex,
    pattern: String,
}

impl CompiledRegex {
    pub closed spec fn source(&self) -> Seq<char> {
        self.pattern@
    }
}

/// `regex::bytes::Regex::new`. The contract claims that compilation
/// succeeds exactly when the named compile error is absent, that the
/// error text is that name's, and records the pattern beside the regex.
#[verifier::external_body]
fn compile_regex(pattern: &str) -> (compiled: Result<CompiledRegex, String>)
    ensures
        match regex_compile_error(pattern@) {
            None => compiled is Ok && compiled->Ok_0.source() == pattern@,
            Some(m) => compiled is Err && compiled->Err_0@ == m,
        },
{
    match regex::bytes::Regex::new(pattern) {
        Ok(regex) => Ok(CompiledRegex { regex, pattern: pattern.to_owned() }),
        Err(error) => Err(error.to_string()),
    }
}

/// `regex::bytes::Regex::is_match`. The contract claims the answer is the
/// named match relation of the pattern the regex was compiled from.
#[verifier::external_body]
fn regex_search(compiled: &CompiledRegex, haystack: &[u8]) -> (found: bool)
    ensures
        found == regex_is_match(compiled.source(), haystack@),
{
    compiled.regex.is_match(haystack)
}

/// Why an output did not pass its expectation.
#[derive(Debug, PartialEq, Eq)]
pub enum ComparisonError {
    Mismatch,
    Bork(String),
}

/// The meaning of a comparison outcome in contracts.
pub enum Verdict {
    Pass,
    Mismatch,
    Bork(Seq<char>),
}

/// The whole-output, dot-matches-newline form of a pattern.
pub open spec fn anchored(pattern: Seq<char>) -> Seq<char> {
    "(?s:\\A(?:"@ + pattern + ")\\z)"@
}

/// The outcome of matching all of `actual` against `pattern`.
pub open spec fn regex_outcome(pattern: Seq<char>, actual: Seq<u8>) -> Verdict {
    match regex_compile_error(anchored(pattern)) {
        Some(m) => Verdict::Bork("invalid expectation regex: "@ + m),
        None => if regex_is_match(anchored(pattern), actual) {
            Verdict::Pass
        } else {
            Verdict::Mismatch
        },
    }
}

/// A comparison result agrees with a verdict.
pub open spec fn same_outcome(r: Result<(), ComparisonError>, v: Verdict) -> bool {
    match (r, v) {
        (Ok(()), Verdict::Pass) => true,
        (Err(ComparisonError::Mismatch), Verdict::Mismatch) => true,
        (Err(ComparisonError::Bork(a)), Verdict::Bork(b)) => a@ == b,
        _ => false,
    }
}

/// Matches all of `actual` against a regular expression.
pub fn regex_matches(pattern: &[char], actual: &[u8]) -> (outcome: Result<(), ComparisonError>)
    ensures
        same_outcome(outcome, regex_outcome(pattern@, actual@)),
{
    let mut full: Vec<char> = Vec::new();
    push_str(&mut full, "(?s:\\A(?:");
    push_chars(&mut full, pattern);
    push_str(&mut full, ")\\z)");
    let text = string_of(full.as_slice());
    assert(text@ =~= anchored(pattern@));
    match compile_regex(text.as_str()) {
        Err(error) => {
            let mut message: Vec<char> = Vec::new();
            push_str(&mut message, "invalid expectation regex: ");
            push_str(&mut message, error.as_str());
            Err(ComparisonError::Bork(string_of(message.as_slice())))
        },
        Ok(compiled) => {
            if regex_search(&compiled, actual) {
                Ok(())
            } else {
                Err(ComparisonError::Mismatch)
            }
        },
    }
}

/// The outcome of comparing normalised output with an expectation.
pub open spec fn compare_spec(
    separator: char,
    kind: crate::fixture::ExpectationKind,
    expected: Seq<u8>,
    actual: Seq<u8>,
) -> Verdict {
    match kind {
        crate::fixture::ExpectationKind::Exact => if expected == actual {
            Verdict::Pass
        } else {
            Verdict::Mismatch
        },
        crate::fixture::ExpectationKind::Formatted => match expectf_from(separator, expected, 0, Seq::empty()) {
            Err(m) => Verdict::Bork(m),
            Ok(p) => regex_outcome(p, actual),
        },
        crate::fixture::ExpectationKind::Regex => if !valid_utf8(expected) {
            Verdict::Bork("--EXPECTREGEX-- must be valid UTF-8"@)
        } else {
            regex_outcome(decode_utf8(expected), actual)
        },
    }
}

pub(crate) fn bytes_equal(a: &[u8], b: &[u8]) -> (same: bool)
    ensures
        same == (a@ == b@),
{
    if a.len() != b.len() {
        return false;
    }
    let mut i: usize = 0;
    while i < a.len()
        invariant
            i <= a@.len(),
            a@.len() == b@.len(),
            forall|k: int| 0 <= k < i ==> a@[k] == b@[k],
        decreases a.len() - i,
    {
        if a[i] != b[i] {
            return false;
        }
        i = i + 1;
    }
    assert(a@ =~= b@);
    true
}

/// Compares normalised actual output with a normalised expectation.
pub fn compare(
    separator: char,
    kind: crate::fixture::ExpectationKind,
    expected: &[u8],
    actual: &[u8],
) -> (outcome: Result<(), ComparisonError>)
    ensures
        same_outcome(outcome, compare_spec(separator, kind, expected@, actual@)),
{
    match kind {
        crate::fixture::ExpectationKind::Exact => {
            if bytes_equal(expected, actual) {
                Ok(())
            } else {
                Err(ComparisonError::Mismatch)
            }
        },
        crate::fixture::ExpectationKind::Formatted => match expectf_pattern(separator, expected) {
            Err(message) => Err(ComparisonError::Bork(message)),
            Ok(pattern) => regex_matches(pattern.as_slice(), actual),
        },
        crate::fixture::ExpectationKind::Regex => match utf8_text(expected) {
            None => Err(ComparisonError::Bork("--EXPECTREGEX-- must be valid UTF-8".to_owned())),
            Some(text) => {
                let pattern = chars_of(text);
                regex_matches(pattern.as_slice(), actual)
            },
        },
    }
}

} // verus!
