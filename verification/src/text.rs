//! Character and byte text helpers shared by the encoders and parsers.

use vstd::prelude::*;
use vstd::std_specs::iter::IteratorSpec;
use vstd::utf8::{decode_utf8, valid_utf8};

verus! {

/// `String::push` appends exactly one character to the string.
pub assume_specification[ std::string::String::push ](s: &mut std::string::String, c: char)
    ensures
        final(s)@ == old(s)@.push(c),
;

/// The characters of a string slice, in order.
pub fn chars_of(s: &str) -> (v: Vec<char>)
    ensures
        v@ == s@,
{
    broadcast use vstd::string::axiom_spec_iter, vstd::string::next_postcondition;

    let mut v: Vec<char> = Vec::new();
    let mut it = s.chars();
    loop
        invariant
            it.obeys_prophetic_iter_laws(),
            it.decrease() is Some,
            v@ + it.remaining() == s@,
        ensures
            v@ == s@,
        decreases it.decrease()->0,
    {
        let ghost before = it.remaining();
        match it.next() {
            Some(c) => {
                v.push(c);
                assert(v@ + it.remaining() =~= s@) by {
                    assert(before == seq![c] + it.remaining());
                }
            },
            None => {
                assert(v@ + before =~= v@);
                break ;
            },
        }
    }
    v
}

/// Builds a string from a character sequence.
pub fn string_of(v: &[char]) -> (s: String)
    ensures
        s@ == v@,
{
    let mut s = String::new();
    let mut i: usize = 0;
    while i < v.len()
        invariant
            i <= v.len(),
            s@ == v@.subrange(0, i as int),
        decreases v.len() - i,
    {
        s.push(v[i]);
        i = i + 1;
    }
    assert(v@.subrange(0, v@.len() as int) =~= v@);
    s
}

/// Appends every character of `text` to `out`.
pub fn push_str(out: &mut Vec<char>, text: &str)
    ensures
        final(out)@ == old(out)@ + text@,
{
    let chars = chars_of(text);
    let mut i: usize = 0;
    while i < chars.len()
        invariant
            i <= chars.len(),
            chars@ == text@,
            out@ == old(out)@ + text@.subrange(0, i as int),
        decreases chars.len() - i,
    {
        out.push(chars[i]);
        i = i + 1;
        assert(text@.subrange(0, i as int) =~= text@.subrange(0, i - 1).push(chars@[i - 1]));
    }
    assert(text@.subrange(0, text@.len() as int) =~= text@);
}

/// Appends every character of `text` to `out`.
pub fn push_chars(out: &mut Vec<char>, text: &[char])
    ensures
        final(out)@ == old(out)@ + text@,
{
    let mut i: usize = 0;
    while i < text.len()
        invariant
            i <= text.len(),
            out@ == old(out)@ + text@.subrange(0, i as int),
        decreases text.len() - i,
    {
        out.push(text[i]);
        i = i + 1;
        assert(text@.subrange(0, i as int) =~= text@.subrange(0, i - 1).push(text@[i - 1]));
    }
    assert(text@.subrange(0, text@.len() as int) =~= text@);
}

/// Appends every byte of `bytes` to `out`.
pub fn push_bytes(out: &mut Vec<u8>, bytes: &[u8])
    ensures
        final(out)@ == old(out)@ + bytes@,
{
    let mut i: usize = 0;
    while i < bytes.len()
        invariant
            i <= bytes.len(),
            out@ == old(out)@ + bytes@.subrange(0, i as int),
        decreases bytes.len() - i,
    {
        out.push(bytes[i]);
        i = i + 1;
        assert(bytes@.subrange(0, i as int) =~= bytes@.subrange(0, i - 1).push(bytes@[i - 1]));
    }
    assert(bytes@.subrange(0, bytes@.len() as int) =~= bytes@);
}

/// A copy of a byte range.
pub fn copy_range(bytes: &[u8], start: usize, end: usize) -> (out: Vec<u8>)
    requires
        start <= end <= bytes@.len(),
    ensures
        out@ == bytes@.subrange(start as int, end as int),
{
    let mut out: Vec<u8> = Vec::new();
    let mut i = start;
    while i < end
        invariant
            start <= i <= end <= bytes@.len(),
            out@ == bytes@.subrange(start as int, i as int),
        decreases end - i,
    {
        out.push(bytes[i]);
        i = i + 1;
        assert(bytes@.subrange(start as int, i as int) =~= bytes@.subrange(start as int, i - 1).push(
            bytes@[i - 1],
        ));
    }
    out
}

/// The ASCII decimal digit character for `d`.
pub open spec fn digit_char(d: nat) -> char {
    ((48 + d) as u32) as char
}

/// The canonical decimal rendering of a natural number (no sign, no
/// leading zeros).
pub open spec fn decimal(n: nat) -> Seq<char>
    decreases n,
{
    if n < 10 {
        seq![digit_char(n)]
    } else {
        decimal(n / 10).push(digit_char(n % 10))
    }
}

/// The decimal rendering of an integer with a leading `-` when negative.
pub open spec fn signed_decimal(i: int) -> Seq<char> {
    if i < 0 {
        seq!['-'] + decimal((-i) as nat)
    } else {
        decimal(i as nat)
    }
}

fn digit(d: u128) -> (c: char)
    requires
        d < 10,
    ensures
        c == digit_char(d as nat),
{
    if d == 0 {
        '0'
    } else if d == 1 {
        '1'
    } else if d == 2 {
        '2'
    } else if d == 3 {
        '3'
    } else if d == 4 {
        '4'
    } else if d == 5 {
        '5'
    } else if d == 6 {
        '6'
    } else if d == 7 {
        '7'
    } else if d == 8 {
        '8'
    } else {
        '9'
    }
}

/// Appends the decimal rendering of `n`.
pub fn push_decimal(out: &mut Vec<char>, n: u128)
    ensures
        final(out)@ == old(out)@ + decimal(n as nat),
    decreases n,
{
    if n >= 10 {
        push_decimal(out, n / 10);
    }
    let c = digit(n % 10);
    out.push(c);
    proof {
        if n < 10 {
            assert(n % 10 == n);
        }
    }
    assert(final(out)@ =~= old(out)@ + decimal(n as nat));
}

/// Appends the signed decimal rendering of `i`.
pub fn push_signed_decimal(out: &mut Vec<char>, i: i128)
    requires
        i > i128::MIN,
    ensures
        final(out)@ == old(out)@ + signed_decimal(i as int),
{
    if i < 0 {
        out.push('-');
        let magnitude = (0 - i) as u128;
        push_decimal(out, magnitude);
        assert(final(out)@ =~= old(out)@ + signed_decimal(i as int));
    } else {
        push_decimal(out, i as u128);
    }
}

/// True for the ASCII digits `0`..`9`.
pub open spec fn is_digit(c: char) -> bool {
    '0' <= c && c <= '9'
}

/// The value of a run of decimal digits, read left to right.
pub open spec fn digits_value(s: Seq<char>) -> nat
    decreases s.len(),
{
    if s.len() == 0 {
        0
    } else {
        digits_value(s.drop_last()) * 10 + ((s.last() as u32) - 48) as nat
    }
}

/// True when every character of `s` is a decimal digit.
pub open spec fn all_digits(s: Seq<char>) -> bool {
    forall|i: int| 0 <= i < s.len() ==> is_digit(#[trigger] s[i])
}

/// How a standard unsigned-integer parse treats `s` against the bound
/// `max`: an optional leading `+`, then at least one decimal digit, with
/// the value at most `max`.
pub open spec fn parse_unsigned_spec(s: Seq<char>, max: nat) -> Option<nat> {
    let digits = if s.len() > 0 && s[0] == '+' {
        s.drop_first()
    } else {
        s
    };
    if digits.len() > 0 && all_digits(digits) && digits_value(digits) <= max {
        Some(digits_value(digits))
    } else {
        None
    }
}

proof fn lemma_digits_value_monotone(s: Seq<char>, t: Seq<char>)
    requires
        all_digits(s + t),
    ensures
        digits_value(s + t) >= digits_value(s),
    decreases t.len(),
{
    if t.len() > 0 {
        assert((s + t).drop_last() =~= s + t.drop_last());
        lemma_digits_value_monotone(s, t.drop_last());
    } else {
        assert(s + t =~= s);
    }
}

/// Parses `s` as an unsigned decimal bounded by `max`, as the standard
/// `from_str` of the unsigned integer types does.
pub fn parse_unsigned(s: &[char], max: u64) -> (r: Option<u64>)
    ensures
        match parse_unsigned_spec(s@, max as nat) {
            Some(v) => r == Some(v as u64),
            None => r is None,
        },
{
    let mut start: usize = 0;
    if s.len() > 0 && s[0] == '+' {
        start = 1;
    }
    let ghost digits = s@.subrange(start as int, s@.len() as int);
    assert(digits =~= (if s@.len() > 0 && s@[0] == '+' {
        s@.drop_first()
    } else {
        s@
    }));
    if start >= s.len() {
        return None;
    }
    let mut value: u64 = 0;
    let mut i = start;
    while i < s.len()
        invariant
            start <= i <= s@.len(),
            start < s@.len(),
            digits == s@.subrange(start as int, s@.len() as int),
            parse_unsigned_spec(s@, max as nat) == (if digits.len() > 0 && all_digits(digits)
                && digits_value(digits) <= max {
                Some(digits_value(digits))
            } else {
                None
            }),
            all_digits(s@.subrange(start as int, i as int)),
            value as nat == digits_value(s@.subrange(start as int, i as int)),
            value <= max,
        decreases s.len() - i,
    {
        let c = s[i];
        if !('0' <= c && c <= '9') {
            assert(!all_digits(digits)) by {
                assert(digits[i - start] == c);
            }
            return None;
        }
        let d = (c as u32 - 48) as u64;
        assert(s@.subrange(start as int, i + 1).drop_last() =~= s@.subrange(start as int, i as int));
        let next: u128 = value as u128 * 10 + d as u128;
        if next > max as u128 {
            proof {
                assert(digits_value(s@.subrange(start as int, i + 1)) == next);
                if all_digits(digits) {
                    assert(digits =~= s@.subrange(start as int, i + 1) + s@.subrange(i + 1, s@.len() as int));
                    lemma_digits_value_monotone(s@.subrange(start as int, i + 1), s@.subrange(i + 1, s@.len() as int));
                }
            }
            return None;
        }
        value = next as u64;
        i = i + 1;
        assert(all_digits(s@.subrange(start as int, i as int))) by {
            assert forall|k: int| 0 <= k < i - start implies is_digit(
                #[trigger] s@.subrange(start as int, i as int)[k],
            ) by {
                if k < i - 1 - start {
                    assert(s@.subrange(start as int, i - 1)[k] == s@.subrange(start as int, i as int)[k]);
                }
            }
        }
    }
    Some(value)
}

proof fn lemma_digit_char(d: nat)
    requires
        d < 10,
    ensures
        (digit_char(d) as u32) == 48 + d,
        is_digit(digit_char(d)),
        digit_char(d) != '+',
{
    assert(((48 + d) as u32) as char as u32 == (48 + d) as u32);
}

/// Rendering a number and reading it back gives the number.
pub proof fn lemma_decimal_round_trip(n: nat)
    ensures
        all_digits(decimal(n)),
        decimal(n).len() > 0,
        digits_value(decimal(n)) == n,
        decimal(n)[0] != '+',
    decreases n,
{
    lemma_digit_char(n % 10);
    if n >= 10 {
        lemma_decimal_round_trip(n / 10);
        let p = decimal(n / 10);
        assert(decimal(n).drop_last() =~= p);
        assert(decimal(n).last() == digit_char(n % 10));
        assert((n / 10) * 10 + n % 10 == n);
        assert(digits_value(decimal(n)) == digits_value(p) * 10 + ((decimal(n).last() as u32) - 48) as nat);
        assert(digits_value(p) == n / 10);
        assert(((decimal(n).last() as u32) - 48) as nat == n % 10);
        assert forall|i: int| 0 <= i < decimal(n).len() implies is_digit(#[trigger] decimal(n)[i]) by {
            if i < p.len() {
                assert(decimal(n)[i] == p[i]);
            }
        }
    } else {
        assert(decimal(n).drop_last() =~= Seq::<char>::empty());
        assert(digits_value(Seq::<char>::empty()) == 0);
        assert(decimal(n).last() == digit_char(n));
    }
}

} // verus!

verus! {

/// The message of std's UTF-8 error for bytes that are not UTF-8.
pub uninterp spec fn utf8_error_message(bytes: Seq<u8>) -> Seq<char>;

/// `std::str::from_utf8`: the bytes as text when they are well-formed
/// UTF-8, else the text of std's error. The contract claims that std
/// accepts exactly the byte strings vstd's `valid_utf8` describes and
/// decodes them as `decode_utf8` does; the error's text is named, not
/// stated.
#[verifier::external_body]
pub(crate) fn utf8_checked(bytes: &[u8]) -> (text: Result<&str, String>)
    ensures
        text is Ok <==> valid_utf8(bytes@),
        text matches Ok(t) ==> t@ == decode_utf8(bytes@),
        text matches Err(m) ==> m@ == utf8_error_message(bytes@),
{
    match std::str::from_utf8(bytes) {
        Ok(text) => Ok(text),
        Err(error) => Err(error.to_string()),
    }
}

/// The bytes as text when they are well-formed UTF-8.
pub fn utf8_text(bytes: &[u8]) -> (text: Option<&str>)
    ensures
        text is Some <==> valid_utf8(bytes@),
        text matches Some(t) ==> t@ == decode_utf8(bytes@),
{
    match utf8_checked(bytes) {
        Ok(text) => Some(text),
        Err(_) => None,
    }
}

/// Appends each byte as the character of the same code point.
pub fn push_latin1(out: &mut Vec<char>, bytes: &[u8])
    ensures
        final(out)@ == old(out)@ + bytes@.map_values(|b: u8| b as char),
{
    let mut i: usize = 0;
    while i < bytes.len()
        invariant
            i <= bytes.len(),
            out@ == old(out)@ + bytes@.subrange(0, i as int).map_values(|b: u8| b as char),
        decreases bytes.len() - i,
    {
        out.push(bytes[i] as char);
        i = i + 1;
        assert(bytes@.subrange(0, i as int).map_values(|b: u8| b as char) =~= bytes@.subrange(
            0,
            i - 1,
        ).map_values(|b: u8| b as char).push(bytes@[i - 1] as char));
    }
    assert(bytes@.subrange(0, bytes@.len() as int) =~= bytes@);
}

/// Unicode `White_Space`, as `char::is_whitespace` tests it.
pub open spec fn is_unicode_whitespace(c: char) -> bool {
    ||| ('\u{9}' <= c && c <= '\u{d}')
    ||| c == ' '
    ||| c == '\u{85}'
    ||| c == '\u{a0}'
    ||| c == '\u{1680}'
    ||| ('\u{2000}' <= c && c <= '\u{200a}')
    ||| c == '\u{2028}'
    ||| c == '\u{2029}'
    ||| c == '\u{202f}'
    ||| c == '\u{205f}'
    ||| c == '\u{3000}'
}

pub fn is_unicode_whitespace_exec(c: char) -> (r: bool)
    ensures
        r == is_unicode_whitespace(c),
{
    ('\u{9}' <= c && c <= '\u{d}') || c == ' ' || c == '\u{85}' || c == '\u{a0}' || c == '\u{1680}'
        || ('\u{2000}' <= c && c <= '\u{200a}') || c == '\u{2028}' || c == '\u{2029}' || c
        == '\u{202f}' || c == '\u{205f}' || c == '\u{3000}'
}

/// The first index at or after `i` that is not white space.
pub open spec fn skip_ws_front(s: Seq<char>, i: int) -> int
    decreases s.len() - i,
{
    if 0 <= i < s.len() && is_unicode_whitespace(s[i]) {
        skip_ws_front(s, i + 1)
    } else {
        i
    }
}

/// The end after dropping trailing white space down to (not below) `lo`.
pub open spec fn skip_ws_back(s: Seq<char>, lo: int, j: int) -> int
    decreases j - lo,
{
    if lo < j <= s.len() && is_unicode_whitespace(s[j - 1]) {
        skip_ws_back(s, lo, j - 1)
    } else {
        j
    }
}

/// `str::trim`: the text without leading and trailing white space.
pub open spec fn trim_ws(s: Seq<char>) -> Seq<char> {
    let a = skip_ws_front(s, 0);
    s.subrange(a, skip_ws_back(s, a, s.len() as int))
}

pub proof fn lemma_skip_ws_front(s: Seq<char>, i: int)
    requires
        0 <= i <= s.len(),
    ensures
        i <= skip_ws_front(s, i) <= s.len(),
    decreases s.len() - i,
{
    if i < s.len() && is_unicode_whitespace(s[i]) {
        lemma_skip_ws_front(s, i + 1);
    }
}

pub proof fn lemma_skip_ws_back(s: Seq<char>, lo: int, j: int)
    requires
        0 <= lo <= j <= s.len(),
    ensures
        lo <= skip_ws_back(s, lo, j) <= j,
    decreases j - lo,
{
    if lo < j && is_unicode_whitespace(s[j - 1]) {
        lemma_skip_ws_back(s, lo, j - 1);
    }
}

/// Trims white space from both ends of a character sequence.
pub fn trim_chars(s: &[char]) -> (t: Vec<char>)
    ensures
        t@ == trim_ws(s@),
{
    let mut a: usize = 0;
    while a < s.len() && is_unicode_whitespace_exec(s[a])
        invariant
            a <= s@.len(),
            skip_ws_front(s@, 0) == skip_ws_front(s@, a as int),
        decreases s.len() - a,
    {
        a = a + 1;
    }
    let mut b: usize = s.len();
    while b > a && is_unicode_whitespace_exec(s[b - 1])
        invariant
            a <= b <= s@.len(),
            a as int == skip_ws_front(s@, 0),
            skip_ws_back(s@, a as int, s@.len() as int) == skip_ws_back(s@, a as int, b as int),
        decreases b - a,
    {
        b = b - 1;
    }
    let mut t: Vec<char> = Vec::new();
    let mut i = a;
    while i < b
        invariant
            a <= i <= b <= s@.len(),
            t@ == s@.subrange(a as int, i as int),
        decreases b - i,
    {
        t.push(s[i]);
        i = i + 1;
        assert(s@.subrange(a as int, i as int) =~= s@.subrange(a as int, i - 1).push(s@[i - 1]));
    }
    t
}

/// The UTF-8 encoding of a character sequence.
pub fn utf8_bytes(text: &[char]) -> (bytes: Vec<u8>)
    ensures
        bytes@ == vstd::utf8::encode_utf8(text@),
{
    let s = string_of(text);
    vstd::slice::slice_to_vec(s.as_str().as_bytes())
}

/// The characters of `text` from `start` to `end`.
pub fn copy_chars(text: &[char], start: usize, end: usize) -> (out: Vec<char>)
    requires
        start <= end <= text@.len(),
    ensures
        out@ == text@.subrange(start as int, end as int),
{
    let mut out: Vec<char> = Vec::new();
    let mut i = start;
    while i < end
        invariant
            start <= i <= end <= text@.len(),
            out@ == text@.subrange(start as int, i as int),
        decreases end - i,
    {
        out.push(text[i]);
        i = i + 1;
        assert(out@ =~= text@.subrange(start as int, i as int));
    }
    out
}

/// Whether two character sequences are equal.
pub fn same_chars(a: &[char], b: &[char]) -> (same: bool)
    ensures
        same == (a@ == b@),
{
    if a.len() != b.len() {
        return false;
    }
    let mut i: usize = 0;
    while i < a.len()
        invariant
            i <= a.len(),
            a.len() == b.len(),
            forall|k: int| 0 <= k < i ==> a@[k] == b@[k],
        decreases a.len() - i,
    {
        if a[i] != b[i] {
            assert(a@[i as int] != b@[i as int]);
            return false;
        }
        i = i + 1;
    }
    assert(a@ =~= b@);
    true
}

/// Whether a character sequence spells `text`.
pub fn chars_are(a: &[char], text: &str) -> (same: bool)
    ensures
        same == (a@ == text@),
{
    let t = chars_of(text);
    same_chars(a, t.as_slice())
}

} // verus!
