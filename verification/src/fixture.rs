//! PHPT fixture files: section headers, section bodies and the structural
//! checks a fixture must pass before it can run.

use vstd::prelude::*;
use vstd::utf8::{valid_utf8, decode_utf8};
use crate::text::{chars_of, push_bytes, push_chars, push_latin1, push_str, string_of, trim_chars, trim_ws, utf8_text};

verus! {

/// The number of section names a fixture may use.
pub const SECTION_COUNT: usize = 27;

/// The section names a fixture may use, in their canonical order.
pub open spec fn section_name(i: int) -> Seq<char> {
    if i == 0 { "TEST"@ }
    else if i == 1 { "FILE"@ }
    else if i == 2 { "FILE_EXTERNAL"@ }
    else if i == 3 { "EXPECT"@ }
    else if i == 4 { "EXPECTF"@ }
    else if i == 5 { "EXPECTREGEX"@ }
    else if i == 6 { "SKIPIF"@ }
    else if i == 7 { "CLEAN"@ }
    else if i == 8 { "CONFIG"@ }
    else if i == 9 { "CREDITS"@ }
    else if i == 10 { "DESCRIPTION"@ }
    else if i == 11 { "INI"@ }
    else if i == 12 { "EXTENSIONS"@ }
    else if i == 13 { "ARGS"@ }
    else if i == 14 { "ENV"@ }
    else if i == 15 { "STDIN"@ }
    else if i == 16 { "POST"@ }
    else if i == 17 { "POST_RAW"@ }
    else if i == 18 { "GZIP_POST"@ }
    else if i == 19 { "DEFLATE_POST"@ }
    else if i == 20 { "PUT"@ }
    else if i == 21 { "GET"@ }
    else if i == 22 { "COOKIE"@ }
    else if i == 23 { "CGI"@ }
    else if i == 24 { "EXPECTHEADERS"@ }
    else if i == 25 { "CAPTURE_STDIO"@ }
    else { "PHPDBG"@ }
}

/// Section indices with a role of their own.
pub const TEST: usize = 0;
pub const FILE: usize = 1;
pub const FILE_EXTERNAL: usize = 2;
pub const EXPECT: usize = 3;
pub const EXPECTF: usize = 4;
pub const EXPECTREGEX: usize = 5;
pub const SKIPIF: usize = 6;
pub const CLEAN: usize = 7;
pub const CONFIG: usize = 8;
pub const STDIN: usize = 15;

/// The name of section `i` (`i < SECTION_COUNT`).
pub fn section_label(i: usize) -> (name: &'static str)
    requires
        i < SECTION_COUNT,
    ensures
        name@ == section_name(i as int),
{
    if i == 0 { "TEST" }
    else if i == 1 { "FILE" }
    else if i == 2 { "FILE_EXTERNAL" }
    else if i == 3 { "EXPECT" }
    else if i == 4 { "EXPECTF" }
    else if i == 5 { "EXPECTREGEX" }
    else if i == 6 { "SKIPIF" }
    else if i == 7 { "CLEAN" }
    else if i == 8 { "CONFIG" }
    else if i == 9 { "CREDITS" }
    else if i == 10 { "DESCRIPTION" }
    else if i == 11 { "INI" }
    else if i == 12 { "EXTENSIONS" }
    else if i == 13 { "ARGS" }
    else if i == 14 { "ENV" }
    else if i == 15 { "STDIN" }
    else if i == 16 { "POST" }
    else if i == 17 { "POST_RAW" }
    else if i == 18 { "GZIP_POST" }
    else if i == 19 { "DEFLATE_POST" }
    else if i == 20 { "PUT" }
    else if i == 21 { "GET" }
    else if i == 22 { "COOKIE" }
    else if i == 23 { "CGI" }
    else if i == 24 { "EXPECTHEADERS" }
    else if i == 25 { "CAPTURE_STDIO" }
    else { "PHPDBG" }
}

/// Bytes read as the characters of the same code points (used for the
/// ASCII-only section names).
pub open spec fn latin1(bytes: Seq<u8>) -> Seq<char> {
    bytes.map_values(|b: u8| b as char)
}

/// A byte that may appear in a section name.
pub open spec fn is_header_byte(b: u8) -> bool {
    (65 <= b && b <= 90) || b == 95
}

/// The section name announced by a line, if the line is a header
/// `--NAME--` with a non-empty name of upper-case ASCII letters and `_`.
pub open spec fn header_name(line: Seq<u8>) -> Option<Seq<u8>> {
    if line.len() >= 4 && line[0] == 45 && line[1] == 45 && line[line.len() - 2] == 45
        && line[line.len() - 1] == 45 {
        let name = line.subrange(2, line.len() - 2);
        if name.len() > 0 && (forall|i: int| 0 <= i < name.len() ==> is_header_byte(#[trigger] name[i])) {
            Some(name)
        } else {
            None
        }
    } else {
        None
    }
}

/// Reads a section header line.
pub fn parse_header(line: &[u8]) -> (name: Option<Vec<u8>>)
    ensures
        match header_name(line@) {
            Some(n) => name is Some && name->0@ == n,
            None => name is None,
        },
{
    let n = line.len();
    if n < 4 || line[0] != 45 || line[1] != 45 || line[n - 2] != 45 || line[n - 1] != 45 {
        return None;
    }
    if n == 4 {
        return None;
    }
    let mut i: usize = 2;
    while i < n - 2
        invariant
            2 <= i <= n - 2,
            n == line@.len(),
            n >= 5,
            forall|k: int| 2 <= k < i ==> is_header_byte(#[trigger] line@[k]),
        decreases n - 2 - i,
    {
        let b = line[i];
        if !((65 <= b && b <= 90) || b == 95) {
            assert(!is_header_byte(line@.subrange(2, n - 2)[i - 2]));
            return None;
        }
        i = i + 1;
    }
    let name = crate::text::copy_range(line, 2, n - 2);
    assert forall|k: int| 0 <= k < name@.len() implies is_header_byte(#[trigger] name@[k]) by {
        assert(name@[k] == line@[k + 2]);
    }
    Some(name)
}

/// The canonical index of a section name, if it is one.
pub open spec fn section_index(name: Seq<char>) -> Option<int>
    decreases 0int,
{
    section_index_from(name, 0)
}

pub open spec fn section_index_from(name: Seq<char>, i: int) -> Option<int>
    decreases 27 - i,
{
    if i < 0 || i >= 27 {
        None
    } else if section_name(i) == name {
        Some(i)
    } else {
        section_index_from(name, i + 1)
    }
}

fn bytes_equal_str(bytes: &[u8], text: &str) -> (same: bool)
    ensures
        same == (latin1(bytes@) == text@),
{
    let chars = chars_of(text);
    if bytes.len() != chars.len() {
        assert(latin1(bytes@).len() != text@.len());
        return false;
    }
    let mut i: usize = 0;
    while i < bytes.len()
        invariant
            i <= bytes@.len(),
            bytes@.len() == chars@.len(),
            chars@ == text@,
            forall|k: int| 0 <= k < i ==> latin1(bytes@)[k] == text@[k],
        decreases bytes.len() - i,
    {
        if bytes[i] as char != chars[i] {
            assert(latin1(bytes@)[i as int] != text@[i as int]);
            return false;
        }
        i = i + 1;
    }
    assert(latin1(bytes@) =~= text@);
    true
}

/// Looks a section name up in the canonical list.
pub fn find_section(name: &[u8]) -> (index: Option<usize>)
    ensures
        match index {
            Some(k) => k < SECTION_COUNT && section_index(latin1(name@)) == Some(k as int),
            None => section_index(latin1(name@)) is None,
        },
{
    let mut i: usize = 0;
    while i < SECTION_COUNT
        invariant
            i <= SECTION_COUNT,
            section_index(latin1(name@)) == section_index_from(latin1(name@), i as int),
        decreases SECTION_COUNT - i,
    {
        if bytes_equal_str(name, section_label(i)) {
            return Some(i);
        }
        i = i + 1;
    }
    None
}

/// The end (exclusive) of the line starting at `offset`: just past the
/// next `\n`, or the end of the input.
pub open spec fn line_end(bytes: Seq<u8>, offset: int) -> int
    decreases bytes.len() - offset,
{
    if offset >= bytes.len() || offset < 0 {
        bytes.len() as int
    } else if bytes[offset] == 10 {
        offset + 1
    } else {
        line_end(bytes, offset + 1)
    }
}

/// A raw line without its `\n` and then without one trailing `\r`.
pub open spec fn strip_line(raw: Seq<u8>) -> Seq<u8> {
    let a = if raw.len() > 0 && raw.last() == 10 { raw.drop_last() } else { raw };
    if a.len() > 0 && a.last() == 13 { a.drop_last() } else { a }
}

/// What reading the lines from `offset` on yields: the section bodies so
/// far (by canonical index) and the current section, or the first error.
pub open spec fn scan_sections(
    bytes: Seq<u8>,
    offset: int,
    sections: Seq<Option<Seq<u8>>>,
    current: Option<int>,
) -> Result<(Seq<Option<Seq<u8>>>, Option<int>), Seq<char>>
    decreases bytes.len() - offset,
{
    if offset < 0 || offset >= bytes.len() {
        Ok((sections, current))
    } else {
        let end = line_end(bytes, offset);
        proof {
            lemma_line_end(bytes, offset);
        }
        let line = strip_line(bytes.subrange(offset, end));
        match header_name(line) {
            Some(name) => match section_index(latin1(name)) {
                None => Err("unknown --"@ + latin1(name) + "-- section"@),
                Some(k) => if sections[k] is Some {
                    Err("duplicate --"@ + latin1(name) + "-- section"@)
                } else {
                    scan_sections(bytes, end, sections.update(k, Some(Seq::<u8>::empty())), Some(k))
                },
            },
            None => match current {
                Some(k) => scan_sections(
                    bytes,
                    end,
                    sections.update(k, Some(sections[k].unwrap_or(Seq::<u8>::empty()) + bytes.subrange(offset, end))),
                    current,
                ),
                None => if line.len() != 0 {
                    Err("test must start with a section header"@)
                } else {
                    scan_sections(bytes, end, sections, current)
                },
            },
        }
    }
}

/// No section present.
pub open spec fn no_sections() -> Seq<Option<Seq<u8>>> {
    Seq::new(27, |i: int| None::<Seq<u8>>)
}

pub proof fn lemma_line_end(bytes: Seq<u8>, offset: int)
    requires
        0 <= offset < bytes.len(),
    ensures
        offset < line_end(bytes, offset) <= bytes.len(),
        forall|k: int| offset <= k < line_end(bytes, offset) - 1 ==> bytes[k] != 10,
        line_end(bytes, offset) < bytes.len() || bytes[line_end(bytes, offset) - 1] == 10
            || line_end(bytes, offset) == bytes.len(),
        bytes[line_end(bytes, offset) - 1] == 10 || line_end(bytes, offset) == bytes.len(),
    decreases bytes.len() - offset,
{
    if bytes[offset] != 10 {
        if offset + 1 < bytes.len() {
            lemma_line_end(bytes, offset + 1);
        } else {
            assert(line_end(bytes, offset + 1) == bytes.len());
        }
    }
}

fn find_line_end(bytes: &[u8], offset: usize) -> (end: usize)
    requires
        offset < bytes@.len(),
    ensures
        end as int == line_end(bytes@, offset as int),
{
    let mut i = offset;
    while i < bytes.len() && bytes[i] != 10
        invariant
            offset <= i <= bytes@.len(),
            line_end(bytes@, offset as int) == line_end(bytes@, i as int),
        decreases bytes.len() - i,
    {
        i = i + 1;
    }
    if i < bytes.len() {
        i + 1
    } else {
        i
    }
}

fn strip_line_exec(bytes: &[u8], start: usize, end: usize) -> (range: (usize, usize))
    requires
        start <= end <= bytes@.len(),
    ensures
        range.0 == start,
        start <= range.1 <= end,
        bytes@.subrange(start as int, range.1 as int) == strip_line(bytes@.subrange(start as int, end as int)),
{
    let ghost raw = bytes@.subrange(start as int, end as int);
    let mut stop = end;
    if stop > start && bytes[stop - 1] == 10 {
        stop = stop - 1;
    }
    assert(bytes@.subrange(start as int, stop as int) =~= (if raw.len() > 0 && raw.last() == 10 {
        raw.drop_last()
    } else {
        raw
    }));
    let ghost a = bytes@.subrange(start as int, stop as int);
    if stop > start && bytes[stop - 1] == 13 {
        stop = stop - 1;
    }
    assert(bytes@.subrange(start as int, stop as int) =~= (if a.len() > 0 && a.last() == 13 {
        a.drop_last()
    } else {
        a
    }));
    (start, stop)
}


/// How many of the three expectation sections are present.
pub open spec fn expectation_count(sections: Seq<Option<Seq<u8>>>) -> int {
    (if sections[3] is Some { 1int } else { 0int }) + (if sections[4] is Some { 1int } else { 0int }) + (
    if sections[5] is Some { 1int } else { 0int })
}

/// The sections whose bodies must be UTF-8 text, in the order they are
/// checked.
pub open spec fn text_section(j: int) -> int {
    if j == 0 { 1 } else if j == 1 { 2 } else if j == 2 { 6 } else if j == 3 { 7 } else { 8 }
}

/// The first text section (in checking order) that is present but not
/// UTF-8.
pub open spec fn first_invalid_text_section(sections: Seq<Option<Seq<u8>>>, j: int) -> Option<int>
    decreases 5 - j,
{
    if j < 0 || j >= 5 {
        None
    } else {
        let k = text_section(j);
        if sections[k] is Some && !valid_utf8(sections[k].unwrap()) {
            Some(k)
        } else {
            first_invalid_text_section(sections, j + 1)
        }
    }
}

/// What reading a fixture file yields: its trimmed name and section
/// bodies, or the message of the first structural error. `path` is the
/// displayed path of the file, used in one message.
pub open spec fn fixture_spec(path: Seq<char>, bytes: Seq<u8>) -> Result<
    (Seq<char>, Seq<Option<Seq<u8>>>),
    Seq<char>,
> {
    match scan_sections(bytes, 0, no_sections(), None) {
        Err(message) => Err(message),
        Ok((sections, current)) => if current is None {
            Err("test contains no sections"@)
        } else if sections[0] is None {
            Err("missing --TEST-- section"@)
        } else if (sections[1] is Some) == (sections[2] is Some) {
            Err("test requires exactly one --FILE-- or --FILE_EXTERNAL-- section"@)
        } else if expectation_count(sections) != 1 {
            Err("test requires exactly one --EXPECT--, --EXPECTF--, or --EXPECTREGEX-- section"@)
        } else if !valid_utf8(sections[0].unwrap()) {
            Err("--TEST-- must be valid UTF-8"@)
        } else if trim_ws(decode_utf8(sections[0].unwrap())).len() == 0 {
            Err(path + " has an empty --TEST-- section"@)
        } else {
            match first_invalid_text_section(sections, 0) {
                Some(k) => Err("--"@ + section_name(k) + "-- must be valid UTF-8"@),
                None => Ok((trim_ws(decode_utf8(sections[0].unwrap())), sections)),
            }
        },
    }
}

/// The shape every parsed fixture has: all sections indexed, a name, one
/// program section, one expectation, and its text sections UTF-8.
pub open spec fn fixture_wf(sections: Seq<Option<Seq<u8>>>) -> bool {
    &&& sections.len() == 27
    &&& sections[0] is Some
    &&& (sections[1] is Some) != (sections[2] is Some)
    &&& expectation_count(sections) == 1
    &&& first_invalid_text_section(sections, 0) is None
}

proof fn lemma_text_sections_valid(sections: Seq<Option<Seq<u8>>>, j: int)
    requires
        0 <= j <= 5,
        first_invalid_text_section(sections, j) is None,
    ensures
        forall|i: int| j <= i < 5 && (#[trigger] sections[text_section(i)]) is Some ==> valid_utf8(sections[text_section(i)].unwrap()),
    decreases 5 - j,
{
    if j < 5 {
        lemma_text_sections_valid(sections, j + 1);
    }
}

/// The first unsupported section present, in canonical order.
pub open spec fn first_unsupported(sections: Seq<Option<Seq<u8>>>, i: int) -> Option<int>
    decreases 27 - i,
{
    if i < 11 || i >= 27 {
        None
    } else if i != 15 && sections[i] is Some {
        Some(i)
    } else {
        first_unsupported(sections, i + 1)
    }
}

/// Where a fixture's program comes from.
#[derive(Debug, PartialEq, Eq)]
pub enum ProgramSource {
    /// The text of `--FILE--`.
    Inline(String),
    /// The trimmed relative path of `--FILE_EXTERNAL--`.
    External(String),
}

/// A relative path leaves its base when it is absolute or has a `..`
/// component.
pub open spec fn path_escapes(p: Seq<char>) -> bool {
    (p.len() > 0 && p[0] == '/') || exists|k: int| #[trigger] parent_component_at(p, k)
}

/// A `..` component starts at `k`.
pub open spec fn parent_component_at(p: Seq<char>, k: int) -> bool {
    0 <= k && k + 2 <= p.len() && p[k] == '.' && p[k + 1] == '.' && (k == 0 || p[k - 1] == '/')
        && (k + 2 == p.len() || p[k + 2] == '/')
}

/// Checks a relative path for components that leave its base directory.
pub fn escapes_base(p: &[char]) -> (escapes: bool)
    ensures
        escapes == path_escapes(p@),
{
    if p.len() > 0 && p[0] == '/' {
        return true;
    }
    let mut k: usize = 0;
    while p.len() >= 2 && k <= p.len() - 2
        invariant
            k <= p@.len(),
            !(p@.len() > 0 && p@[0] == '/'),
            forall|j: int| 0 <= j < k ==> !#[trigger] parent_component_at(p@, j),
        decreases p.len() - k,
    {
        if p[k] == '.' && p[k + 1] == '.' && (k == 0 || p[k - 1] == '/') && (k + 2 == p.len() || p[k + 2] == '/') {
            assert(parent_component_at(p@, k as int));
            return true;
        }
        k = k + 1;
    }
    assert forall|j: int| !#[trigger] parent_component_at(p@, j) by {
        if 0 <= j < k {
        }
    }
    false
}

/// A parsed PHPT fixture: its name and its section bodies, stored by
/// canonical section index.
#[derive(Debug)]
pub struct Fixture {
    name: String,
    sections: Vec<Option<Vec<u8>>>,
}

/// The three ways an expectation is compared with actual output.
#[derive(Clone, Copy, Debug, PartialEq, Eq)]
pub enum ExpectationKind {
    Exact,
    Formatted,
    Regex,
}

fn append_range(slot: &mut Option<Vec<u8>>, bytes: &[u8], start: usize, end: usize)
    requires
        start <= end <= bytes@.len(),
    ensures
        final(slot).deep_view() == Some(old(slot).deep_view().unwrap_or(Seq::<u8>::empty())
            + bytes@.subrange(start as int, end as int)),
{
    let piece = crate::text::copy_range(bytes, start, end);
    match slot {
        Some(body) => {
            push_bytes(body, piece.as_slice());
        },
        None => {
            *slot = Some(piece);
        },
    }
}

fn message_with_name(prefix: &str, name: &[u8], suffix: &str) -> (m: String)
    ensures
        m@ == prefix@ + latin1(name@) + suffix@,
{
    let mut chars: Vec<char> = Vec::new();
    push_str(&mut chars, prefix);
    push_latin1(&mut chars, name);
    push_str(&mut chars, suffix);
    string_of(chars.as_slice())
}

impl Fixture {
    /// The trimmed `--TEST--` name.
    pub closed spec fn spec_name(&self) -> Seq<char> {
        self.name@
    }

    /// The section bodies by canonical index.
    pub closed spec fn spec_sections(&self) -> Seq<Option<Seq<u8>>> {
        self.sections.deep_view()
    }

    pub fn name(&self) -> (name: &str)
        ensures
            name@ == self.spec_name(),
    {
        self.name.as_str()
    }

    /// The body of section `index`, if present.
    pub fn section(&self, index: usize) -> (body: Option<&[u8]>)
        requires
            index < self.spec_sections().len(),
        ensures
            match self.spec_sections()[index as int] {
                Some(b) => body is Some && body->0@ == b,
                None => body is None,
            },
    {
        match &self.sections[index] {
            Some(body) => Some(body.as_slice()),
            None => None,
        }
    }

    /// Reads a fixture. `path` is the displayed path of the file.
    pub fn parse(path: &str, bytes: &[u8]) -> (fixture: Result<Fixture, String>)
        ensures
            match fixture_spec(path@, bytes@) {
                Ok((name, sections)) => fixture is Ok && fixture->Ok_0.spec_name() == name
                    && fixture->Ok_0.spec_sections() == sections,
                Err(message) => fixture is Err && fixture->Err_0@ == message,
            },
            fixture matches Ok(f) ==> fixture_wf(f.spec_sections()),
    {
        let mut sections: Vec<Option<Vec<u8>>> = Vec::new();
        let mut n: usize = 0;
        while n < SECTION_COUNT
            invariant
                n <= SECTION_COUNT,
                sections@.len() == n,
                forall|i: int| 0 <= i < n ==> (#[trigger] sections@[i]) is None,
            decreases SECTION_COUNT - n,
        {
            sections.push(None);
            n = n + 1;
        }
        assert(sections.deep_view() =~= no_sections());
        let mut current: Option<usize> = None;
        let mut offset: usize = 0;
        while offset < bytes.len()
            invariant
                offset <= bytes@.len(),
                sections@.len() == 27,
                current matches Some(k) ==> k < 27,
                scan_sections(bytes@, 0, no_sections(), None) == scan_sections(
                    bytes@,
                    offset as int,
                    sections.deep_view(),
                    match current {
                        Some(k) => Some(k as int),
                        None => None,
                    },
                ),
            decreases bytes.len() - offset,
        {
            proof {
                lemma_line_end(bytes@, offset as int);
            }
            let end = find_line_end(bytes, offset);
            let (start, stop) = strip_line_exec(bytes, offset, end);
            let line = crate::text::copy_range(bytes, start, stop);
            let ghost before = sections.deep_view();
            let ghost cur_before: Option<int> = match current {
                Some(k) => Some(k as int),
                None => None,
            };
            assert(line@ == strip_line(bytes@.subrange(offset as int, end as int)));
            match parse_header(line.as_slice()) {
                Some(name) => match find_section(name.as_slice()) {
                    None => {
                        return Err(message_with_name("unknown --", name.as_slice(), "-- section"));
                    },
                    Some(k) => {
                        assert(before[k as int] == sections@[k as int].deep_view());
                        if sections[k].is_some() {
                            assert(header_name(line@) == Some(name@));
                            assert(section_index(latin1(name@)) == Some(k as int));
                            assert(before[k as int] is Some);
                            assert(scan_sections(bytes@, offset as int, before, cur_before) == Err::<(Seq<Option<Seq<u8>>>, Option<int>), Seq<char>>("duplicate --"@ + latin1(name@) + "-- section"@));
                            return Err(
                                message_with_name("duplicate --", name.as_slice(), "-- section"),
                            );
                        }
                        let empty: Vec<u8> = Vec::new();
                        assert(empty.deep_view() =~= Seq::<u8>::empty());
                        sections.set(k, Some(empty));
                        current = Some(k);
                        assert(sections.deep_view() =~= before.update(
                            k as int,
                            Some(Seq::<u8>::empty()),
                        ));
                    },
                },
                None => match current {
                    Some(k) => {
                        append_range(&mut sections[k], bytes, offset, end);
                        assert(sections.deep_view() =~= before.update(
                            k as int,
                            Some(before[k as int].unwrap_or(Seq::<u8>::empty()) + bytes@.subrange(offset as int, end as int)),
                        ));
                    },
                    None => {
                        if line.len() != 0 {
                            return Err(string_of(chars_of("test must start with a section header").as_slice()));
                        }
                    },
                },
            }
            assert(scan_sections(bytes@, offset as int, before, cur_before) == scan_sections(
                bytes@,
                end as int,
                sections.deep_view(),
                match current {
                    Some(k) => Some(k as int),
                    None => None,
                },
            ));
            offset = end;
        }
        let ghost secs = sections.deep_view();
        assert(scan_sections(bytes@, offset as int, secs, match current {
            Some(k) => Some(k as int),
            None => None,
        }) == Ok::<(Seq<Option<Seq<u8>>>, Option<int>), Seq<char>>((secs, match current {
            Some(k) => Some(k as int),
            None => None,
        })));
        if current.is_none() {
            return Err("test contains no sections".to_owned());
        }
        proof {
            assert forall|i: int| 0 <= i < 27 implies (#[trigger] secs[i]) == sections@[i].deep_view() by {}
        }
        if sections[TEST].is_none() {
            return Err("missing --TEST-- section".to_owned());
        }
        if sections[FILE].is_some() == sections[FILE_EXTERNAL].is_some() {
            return Err("test requires exactly one --FILE-- or --FILE_EXTERNAL-- section".to_owned());
        }
        let mut expectations: usize = 0;
        if sections[EXPECT].is_some() {
            expectations = expectations + 1;
        }
        if sections[EXPECTF].is_some() {
            expectations = expectations + 1;
        }
        if sections[EXPECTREGEX].is_some() {
            expectations = expectations + 1;
        }
        if expectations != 1 {
            return Err(
                "test requires exactly one --EXPECT--, --EXPECTF--, or --EXPECTREGEX-- section".to_owned(),
            );
        }
        let name_chars = match &sections[TEST] {
            Some(body) => match {
                assert(body.deep_view() =~= body@);
                utf8_text(body.as_slice())
            } {
                None => {
                    return Err("--TEST-- must be valid UTF-8".to_owned());
                },
                Some(text) => {
                    let chars = chars_of(text);
                    trim_chars(chars.as_slice())
                },
            },
            None => {
                return Err(String::new());
            },
        };
        if name_chars.len() == 0 {
            let mut message: Vec<char> = Vec::new();
            push_str(&mut message, path);
            push_str(&mut message, " has an empty --TEST-- section");
            return Err(string_of(message.as_slice()));
        }
        assert(fixture_spec(path@, bytes@) == match first_invalid_text_section(secs, 0) {
            Some(k) => Err("--"@ + section_name(k) + "-- must be valid UTF-8"@),
            None => Ok((name_chars@, secs)),
        });
        let mut j: usize = 0;
        while j < 5
            invariant
                j <= 5,
                fixture_spec(path@, bytes@) == match first_invalid_text_section(secs, 0) {
                    Some(k) => Err("--"@ + section_name(k) + "-- must be valid UTF-8"@),
                    None => Ok((name_chars@, secs)),
                },
                sections@.len() == 27,
                secs == sections.deep_view(),
                first_invalid_text_section(secs, 0) == first_invalid_text_section(secs, j as int),
            decreases 5 - j,
        {
            let k: usize = if j == 0 { FILE } else if j == 1 { FILE_EXTERNAL } else if j == 2 { SKIPIF } else if j == 3 { CLEAN } else { CONFIG };
            assert(k as int == text_section(j as int));
            assert(secs[k as int] == sections@[k as int].deep_view());
            match &sections[k] {
                Some(body) => {
                    assert(body.deep_view() =~= body@);
                    if utf8_text(body.as_slice()).is_none() {
                        let mut message: Vec<char> = Vec::new();
                        push_str(&mut message, "--");
                        push_str(&mut message, section_label(k));
                        push_str(&mut message, "-- must be valid UTF-8");
                        return Err(string_of(message.as_slice()));
                    }
                },
                None => {},
            }
            j = j + 1;
        }
        Ok(Fixture { name: string_of(name_chars.as_slice()), sections })
    }
}



/// The expectation kind and body of a well-formed fixture.
pub open spec fn expectation_spec(sections: Seq<Option<Seq<u8>>>) -> (ExpectationKind, Seq<u8>) {
    if sections[3] is Some {
        (ExpectationKind::Exact, sections[3].unwrap())
    } else if sections[4] is Some {
        (ExpectationKind::Formatted, sections[4].unwrap())
    } else {
        (ExpectationKind::Regex, sections[5].unwrap())
    }
}

impl Fixture {
    /// The one expectation section: `--EXPECT--`, `--EXPECTF--` or
    /// `--EXPECTREGEX--`, in that order of preference.
    pub fn expectation(&self) -> (expectation: (ExpectationKind, &[u8]))
        requires
            fixture_wf(self.spec_sections()),
        ensures
            expectation.0 == expectation_spec(self.spec_sections()).0,
            expectation.1@ == expectation_spec(self.spec_sections()).1,
    {
        let ghost secs = self.spec_sections();
        assert(secs[3] == self.sections@[3].deep_view());
        assert(secs[4] == self.sections@[4].deep_view());
        assert(secs[5] == self.sections@[5].deep_view());
        match &self.sections[EXPECT] {
            Some(body) => {
                assert(body.deep_view() =~= body@);
                return (ExpectationKind::Exact, body.as_slice());
            },
            None => {},
        }
        match &self.sections[EXPECTF] {
            Some(body) => {
                assert(body.deep_view() =~= body@);
                return (ExpectationKind::Formatted, body.as_slice());
            },
            None => {},
        }
        match &self.sections[EXPECTREGEX] {
            Some(body) => {
                assert(body.deep_view() =~= body@);
                (ExpectationKind::Regex, body.as_slice())
            },
            None => (ExpectationKind::Regex, &[]),
        }
    }

    /// The first section present that fixtures cannot use.
    pub fn unsupported_section(&self) -> (section: Option<usize>)
        requires
            fixture_wf(self.spec_sections()),
        ensures
            match first_unsupported(self.spec_sections(), 11) {
                Some(k) => section == Some(k as usize),
                None => section is None,
            },
    {
        let mut i: usize = 11;
        while i < SECTION_COUNT
            invariant
                11 <= i <= SECTION_COUNT,
                self.sections@.len() == 27,
                self.spec_sections().len() == 27,
                first_unsupported(self.spec_sections(), 11) == first_unsupported(self.spec_sections(), i as int),
            decreases SECTION_COUNT - i,
        {
            assert(self.spec_sections()[i as int] == self.sections@[i as int].deep_view());
            if i != STDIN && self.sections[i].is_some() {
                return Some(i);
            }
            i = i + 1;
        }
        None
    }

    /// Where the program comes from, or why `--FILE_EXTERNAL--` is unusable.
    pub fn program_source(&self) -> (source: Result<ProgramSource, String>)
        requires
            fixture_wf(self.spec_sections()),
        ensures
            self.spec_sections()[1] matches Some(b) ==> source matches Ok(ProgramSource::Inline(t))
                && t@ == decode_utf8(b),
            self.spec_sections()[2] matches Some(b) ==> ({
                let p = trim_ws(decode_utf8(b));
                if p.len() == 0 {
                    source matches Err(m) && m@ == "--FILE_EXTERNAL-- path is empty"@
                } else if path_escapes(p) {
                    source matches Err(m) && m@ == "--FILE_EXTERNAL-- path must stay within the fixture directory"@
                } else {
                    source matches Ok(ProgramSource::External(t)) && t@ == p
                }
            }),
    {
        let ghost secs = self.spec_sections();
        proof {
            lemma_text_sections_valid(secs, 0);
            assert(text_section(0) == 1);
            assert(text_section(1) == 2);
        }
        assert(secs[1] == self.sections@[1].deep_view());
        assert(secs[2] == self.sections@[2].deep_view());
        match &self.sections[FILE] {
            Some(body) => {
                assert(body.deep_view() =~= body@);
                match utf8_text(body.as_slice()) {
                    Some(text) => return Ok(ProgramSource::Inline(text.to_owned())),
                    None => return Err(String::new()),
                }
            },
            None => {},
        }
        match &self.sections[FILE_EXTERNAL] {
            Some(body) => {
                assert(body.deep_view() =~= body@);
                match utf8_text(body.as_slice()) {
                    Some(text) => {
                        let chars = chars_of(text);
                        let relative = trim_chars(chars.as_slice());
                        if relative.len() == 0 {
                            return Err("--FILE_EXTERNAL-- path is empty".to_owned());
                        }
                        if escapes_base(relative.as_slice()) {
                            return Err("--FILE_EXTERNAL-- path must stay within the fixture directory".to_owned());
                        }
                        Ok(ProgramSource::External(string_of(relative.as_slice())))
                    },
                    None => Err(String::new()),
                }
            },
            None => Err(String::new()),
        }
    }
}

} // verus!
