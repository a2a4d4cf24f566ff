//! The lexer: source bytes to tokens with their spans, and a diagnostic
//! for each stretch of text that is not a token.

use vstd::prelude::*;
use crate::text::chars_of;

verus! {

broadcast use vstd::std_specs::vec::group_vec_axioms;

/// A byte range of the source, `start` included and `end` not.
#[derive(Clone, Copy, Debug, PartialEq, Eq, Structural)]
pub struct Span {
    pub start: usize,
    pub end: usize,
}

/// The kinds of tokens.
#[derive(Clone, Copy, Debug, PartialEq, Eq, Structural)]
pub enum TokenKind {
    OpenTag,
    Variable,
    Identifier,
    Function,
    Namespace,
    Class,
    Interface,
    Trait,
    Use,
    Const,
    InsteadOf,
    Implements,
    Extends,
    Abstract,
    Final,
    Public,
    Protected,
    Private,
    Static,
    New,
    InstanceOf,
    Throw,
    Try,
    Catch,
    Finally,
    Using,
    Return,
    If,
    ElseIf,
    Else,
    While,
    For,
    Foreach,
    As,
    Break,
    Continue,
    Match,
    Default,
    Echo,
    True,
    False,
    Null,
    Integer,
    Float,
    String,
    Ellipsis,
    StrictEqual,
    StrictNotEqual,
    QuestionQuestion,
    LessEqual,
    GreaterEqual,
    EqualEqual,
    BangEqual,
    AndAnd,
    OrOr,
    FatArrow,
    Arrow,
    DoubleColon,
    LParen,
    RParen,
    LBrace,
    RBrace,
    LBracket,
    RBracket,
    Less,
    Greater,
    Colon,
    Semicolon,
    Comma,
    Question,
    Plus,
    Minus,
    Star,
    Slash,
    Percent,
    Dot,
    Equal,
    Bang,
    Pipe,
    NamespaceSeparator,
    Eof,
}

/// A token: its kind and where it stands.
#[derive(Clone, Copy, Debug, PartialEq, Eq, Structural)]
pub struct Token {
    pub kind: TokenKind,
    pub span: Span,
}

/// Why a stretch of source is not a token.
#[derive(Clone, Copy, Debug, PartialEq, Eq, Structural)]
pub enum LexIssue {
    /// A character that starts no token.
    Unrecognized,
    /// A block comment without its end.
    UnterminatedComment,
    /// A `$` not followed by a variable name.
    BadVariable,
    /// A string literal without its closing quote.
    UnterminatedString,
}

/// The code of a lexing diagnostic.
pub open spec fn issue_code(issue: LexIssue) -> Seq<char> {
    match issue {
        LexIssue::Unrecognized => "L0001"@,
        LexIssue::UnterminatedComment => "L0002"@,
        LexIssue::BadVariable => "L0003"@,
        LexIssue::UnterminatedString => "L0004"@,
    }
}

/// The message of a lexing diagnostic.
pub open spec fn issue_message(issue: LexIssue) -> Seq<char> {
    match issue {
        LexIssue::Unrecognized => "unrecognized source character"@,
        LexIssue::UnterminatedComment => "unterminated block comment"@,
        LexIssue::BadVariable => "`$` must be followed by an ASCII variable name"@,
        LexIssue::UnterminatedString => "unterminated string literal"@,
    }
}

/// An error found in a source: the stage that found it, its code, where,
/// what, and notes that explain it.
#[derive(Clone, Debug, PartialEq, Eq)]
pub struct Diagnostic {
    pub stage: String,
    pub code: String,
    pub span: Span,
    pub message: String,
    pub notes: Vec<String>,
}

/// A problem found in the source, as plain values.
pub struct Problem {
    pub issue: LexIssue,
    pub span: Span,
}

/// The diagnostic reports the problem.
pub open spec fn reports(d: Diagnostic, p: Problem) -> bool {
    &&& d.stage@ == "lexing"@
    &&& d.code@ == issue_code(p.issue)
    &&& d.message@ == issue_message(p.issue)
    &&& d.span == p.span
    &&& d.notes@.len() == 0
}

fn diagnostic(issue: LexIssue, start: usize, end: usize) -> (d: Diagnostic)
    ensures
        reports(d, Problem { issue, span: Span { start, end } }),
{
    let (code, message) = match issue {
        LexIssue::Unrecognized => ("L0001", "unrecognized source character"),
        LexIssue::UnterminatedComment => ("L0002", "unterminated block comment"),
        LexIssue::BadVariable => ("L0003", "`$` must be followed by an ASCII variable name"),
        LexIssue::UnterminatedString => ("L0004", "unterminated string literal"),
    };
    Diagnostic {
        stage: "lexing".to_owned(),
        code: code.to_owned(),
        span: Span { start, end },
        message: message.to_owned(),
        notes: Vec::new(),
    }
}

/// ASCII white space as `u8::is_ascii_whitespace` tests it.
pub open spec fn is_space(b: u8) -> bool {
    b == 32 || b == 9 || b == 10 || b == 12 || b == 13
}

pub open spec fn is_digit(b: u8) -> bool {
    48 <= b <= 57
}

/// An ASCII letter or `_`.
pub open spec fn identifier_start(b: u8) -> bool {
    (65 <= b <= 90) || (97 <= b <= 122) || b == 95
}

pub open spec fn identifier_continue(b: u8) -> bool {
    identifier_start(b) || is_digit(b)
}

/// The end of the white space from `i`.
pub open spec fn space_end(s: Seq<u8>, i: int) -> int
    decreases s.len() - i,
{
    if 0 <= i < s.len() && is_space(s[i]) {
        space_end(s, i + 1)
    } else {
        i
    }
}

/// The end of the identifier characters from `i`.
pub open spec fn identifier_end(s: Seq<u8>, i: int) -> int
    decreases s.len() - i,
{
    if 0 <= i < s.len() && identifier_continue(s[i]) {
        identifier_end(s, i + 1)
    } else {
        i
    }
}

/// The end of the digits from `i`.
pub open spec fn digits_end(s: Seq<u8>, i: int) -> int
    decreases s.len() - i,
{
    if 0 <= i < s.len() && is_digit(s[i]) {
        digits_end(s, i + 1)
    } else {
        i
    }
}

/// The newline that ends a line comment from `i`, or the end.
pub open spec fn line_end(s: Seq<u8>, i: int) -> int
    decreases s.len() - i,
{
    if 0 <= i < s.len() && s[i] != 10 {
        line_end(s, i + 1)
    } else {
        i
    }
}

/// Where the `*/` that closes a block comment starts, from `i`; a
/// position without a byte after it when there is none.
pub open spec fn block_end(s: Seq<u8>, i: int) -> int
    decreases s.len() - i,
{
    if 0 <= i && i + 1 < s.len() && !(s[i] == 42 && s[i + 1] == 47) {
        block_end(s, i + 1)
    } else {
        i
    }
}

proof fn lemma_run_ends(s: Seq<u8>, i: int)
    requires
        0 <= i <= s.len(),
    ensures
        i <= space_end(s, i) <= s.len(),
        i <= identifier_end(s, i) <= s.len(),
        i <= digits_end(s, i) <= s.len(),
        i <= line_end(s, i) <= s.len(),
        i <= block_end(s, i),
        i + 1 < s.len() ==> block_end(s, i) + 1 <= s.len(),
    decreases s.len() - i,
{
    if i < s.len() {
        lemma_run_ends(s, i + 1);
    }
}

/// Two bytes `a` and `b` stand at `i`.
pub open spec fn pair_at(s: Seq<u8>, i: int, a: u8, b: u8) -> bool {
    0 <= i && i + 1 < s.len() && s[i] == a && s[i + 1] == b
}

/// White space and comments from `i`: where they end, and an unterminated
/// block comment if one runs to the end.
pub open spec fn trivia(s: Seq<u8>, i: int) -> (int, Seq<Problem>)
    decreases s.len() - i,
{
    let j = space_end(s, i);
    if 0 <= i <= s.len() {
        if pair_at(s, j, 47, 47) {
            let k = line_end(s, j + 2);
            if i <= j && j + 2 <= k <= s.len() {
                trivia(s, k)
            } else {
                (j, Seq::empty())
            }
        } else if pair_at(s, j, 47, 42) {
            let k = block_end(s, j + 2);
            if k + 1 >= s.len() {
                (s.len() as int, seq![Problem { issue: LexIssue::UnterminatedComment, span: Span { start: j as usize, end: s.len() as usize } }])
            } else if i <= j && j + 2 <= k && k + 2 <= s.len() {
                trivia(s, k + 2)
            } else {
                (j, Seq::empty())
            }
        } else {
            (j, Seq::empty())
        }
    } else {
        (i, Seq::empty())
    }
}

/// How far white space runs.
fn skip_spaces(s: &[u8], i: usize) -> (j: usize)
    requires
        i <= s@.len(),
    ensures
        j == space_end(s@, i as int),
{
    proof {
        lemma_run_ends(s@, i as int);
    }
    let mut j = i;
    while j < s.len() && (s[j] == 32 || s[j] == 9 || s[j] == 10 || s[j] == 12 || s[j] == 13)
        invariant
            i <= j <= s@.len(),
            space_end(s@, i as int) == space_end(s@, j as int),
        decreases s.len() - j,
    {
        j = j + 1;
    }
    j
}

fn skip_line(s: &[u8], i: usize) -> (j: usize)
    requires
        i <= s@.len(),
    ensures
        j == line_end(s@, i as int),
{
    let mut j = i;
    while j < s.len() && s[j] != 10
        invariant
            i <= j <= s@.len(),
            line_end(s@, i as int) == line_end(s@, j as int),
        decreases s.len() - j,
    {
        j = j + 1;
    }
    j
}

fn find_block_end(s: &[u8], i: usize) -> (j: usize)
    requires
        i <= s@.len(),
    ensures
        j == block_end(s@, i as int),
        j <= s@.len(),
{
    let mut j = i;
    while j < s.len() && j + 1 < s.len() && !(s[j] == 42 && s[j + 1] == 47)
        invariant
            i <= j <= s@.len(),
            block_end(s@, i as int) == block_end(s@, j as int),
        decreases s.len() - j,
    {
        j = j + 1;
    }
    j
}

fn ident_end(s: &[u8], i: usize) -> (j: usize)
    requires
        i <= s@.len(),
    ensures
        j == identifier_end(s@, i as int),
        i <= j <= s@.len(),
{
    let mut j = i;
    while j < s.len() && (is_ident_start(s[j]) || (48 <= s[j] && s[j] <= 57))
        invariant
            i <= j <= s@.len(),
            identifier_end(s@, i as int) == identifier_end(s@, j as int),
        decreases s.len() - j,
    {
        j = j + 1;
    }
    j
}

fn digit_end(s: &[u8], i: usize) -> (j: usize)
    requires
        i <= s@.len(),
    ensures
        j == digits_end(s@, i as int),
        i <= j <= s@.len(),
{
    let mut j = i;
    while j < s.len() && 48 <= s[j] && s[j] <= 57
        invariant
            i <= j <= s@.len(),
            digits_end(s@, i as int) == digits_end(s@, j as int),
        decreases s.len() - j,
    {
        j = j + 1;
    }
    j
}

fn is_ident_start(b: u8) -> (r: bool)
    ensures
        r == identifier_start(b),
{
    (65 <= b && b <= 90) || (97 <= b && b <= 122) || b == 95
}

/// Skips white space and comments, recording an unterminated block
/// comment.
fn skip_trivia(s: &[u8], i: usize, problems: &mut Vec<Diagnostic>) -> (j: usize)
    requires
        i <= s@.len(),
    ensures
        j == trivia(s@, i as int).0,
        i <= j <= s@.len(),
        final(problems)@.len() == old(problems)@.len() + trivia(s@, i as int).1.len(),
        forall|k: int| 0 <= k < old(problems)@.len() ==> final(problems)@[k] == old(problems)@[k],
        forall|k: int|
            0 <= k < trivia(s@, i as int).1.len() ==> reports(#[trigger] final(problems)@[old(problems)@.len() + k], trivia(s@, i as int).1[k]),
    decreases s@.len() - i,
{
    let j = skip_spaces(s, i);
    proof {
        lemma_run_ends(s@, i as int);
    }
    if j < s.len() && j + 1 < s.len() && s[j] == 47 && s[j + 1] == 47 {
        proof {
            lemma_run_ends(s@, j as int + 2);
        }
        let k = skip_line(s, j + 2);
        skip_trivia(s, k, problems)
    } else if j < s.len() && j + 1 < s.len() && s[j] == 47 && s[j + 1] == 42 {
        let k = find_block_end(s, j + 2);
        proof {
            lemma_run_ends(s@, j as int + 2);
        }
        if k >= s.len() || k + 1 >= s.len() {
            problems.push(diagnostic(LexIssue::UnterminatedComment, j, s.len()));
            s.len()
        } else {
            skip_trivia(s, k + 2, problems)
        }
    } else {
        j
    }
}

/// The bytes of ASCII text.
pub open spec fn ascii(text: Seq<char>) -> Seq<u8> {
    text.map_values(|c: char| c as u8)
}

/// The text `t` stands at `i`.
pub open spec fn starts_at(s: Seq<u8>, i: int, t: Seq<u8>) -> bool {
    0 <= i && i + t.len() <= s.len() && s.subrange(i, i + t.len()) == t
}

/// Whether `s[start..end]` is the ASCII text `word`.
fn word_is(s: &[u8], start: usize, end: usize, word: &str) -> (same: bool)
    requires
        start <= end <= s@.len(),
    ensures
        same == (s@.subrange(start as int, end as int) == ascii(word@)),
{
    let w = chars_of(word);
    assert(ascii(word@).len() == word@.len());
    if end - start != w.len() {
        assert(s@.subrange(start as int, end as int).len() != ascii(word@).len());
        return false;
    }
    let mut i: usize = 0;
    while i < w.len()
        invariant
            start <= end <= s@.len(),
            end - start == w@.len(),
            w@ == word@,
            i <= w@.len(),
            forall|k: int| 0 <= k < i ==> s@[start + k] == (#[trigger] w@[k]) as u8,
        decreases w.len() - i,
    {
        let c = w[i];
        if s[start + i] != c as u8 {
            assert(ascii(w@)[i as int] == (c as u8));
            assert(s@.subrange(start as int, end as int)[i as int] == s@[start + i]);
            assert(s@.subrange(start as int, end as int)[i as int] != ascii(w@)[i as int]);
            assert(ascii(w@) == ascii(word@));
            assert(s@.subrange(start as int, end as int) != ascii(word@));
            return false;
        }
        i = i + 1;
    }
    assert(s@.subrange(start as int, end as int) =~= ascii(w@));
    true
}

/// Whether the ASCII text `t` stands at `i`.
fn text_at(s: &[u8], i: usize, t: &str) -> (found: bool)
    requires
        i <= s@.len(),
    ensures
        found == starts_at(s@, i as int, ascii(t@)),
{
    let w = chars_of(t);
    if w.len() > s.len() - i {
        return false;
    }
    word_is(s, i, i + w.len(), t)
}

/// The kind of a word: its keyword, or an identifier.
pub open spec fn keyword_kind(w: Seq<u8>) -> TokenKind {
    if w == ascii("function"@) {
        TokenKind::Function
    } else if w == ascii("namespace"@) {
        TokenKind::Namespace
    } else if w == ascii("class"@) {
        TokenKind::Class
    } else if w == ascii("interface"@) {
        TokenKind::Interface
    } else if w == ascii("trait"@) {
        TokenKind::Trait
    } else if w == ascii("use"@) {
        TokenKind::Use
    } else if w == ascii("const"@) {
        TokenKind::Const
    } else if w == ascii("insteadof"@) {
        TokenKind::InsteadOf
    } else if w == ascii("implements"@) {
        TokenKind::Implements
    } else if w == ascii("extends"@) {
        TokenKind::Extends
    } else if w == ascii("abstract"@) {
        TokenKind::Abstract
    } else if w == ascii("final"@) {
        TokenKind::Final
    } else if w == ascii("public"@) {
        TokenKind::Public
    } else if w == ascii("protected"@) {
        TokenKind::Protected
    } else if w == ascii("private"@) {
        TokenKind::Private
    } else if w == ascii("static"@) {
        TokenKind::Static
    } else if w == ascii("new"@) {
        TokenKind::New
    } else if w == ascii("instanceof"@) {
        TokenKind::InstanceOf
    } else if w == ascii("throw"@) {
        TokenKind::Throw
    } else if w == ascii("try"@) {
        TokenKind::Try
    } else if w == ascii("catch"@) {
        TokenKind::Catch
    } else if w == ascii("finally"@) {
        TokenKind::Finally
    } else if w == ascii("using"@) {
        TokenKind::Using
    } else if w == ascii("return"@) {
        TokenKind::Return
    } else if w == ascii("if"@) {
        TokenKind::If
    } else if w == ascii("elseif"@) {
        TokenKind::ElseIf
    } else if w == ascii("else"@) {
        TokenKind::Else
    } else if w == ascii("while"@) {
        TokenKind::While
    } else if w == ascii("for"@) {
        TokenKind::For
    } else if w == ascii("foreach"@) {
        TokenKind::Foreach
    } else if w == ascii("as"@) {
        TokenKind::As
    } else if w == ascii("break"@) {
        TokenKind::Break
    } else if w == ascii("continue"@) {
        TokenKind::Continue
    } else if w == ascii("match"@) {
        TokenKind::Match
    } else if w == ascii("default"@) {
        TokenKind::Default
    } else if w == ascii("echo"@) {
        TokenKind::Echo
    } else if w == ascii("true"@) {
        TokenKind::True
    } else if w == ascii("false"@) {
        TokenKind::False
    } else if w == ascii("null"@) {
        TokenKind::Null
    } else {
        TokenKind::Identifier
    }
}

fn word_kind(s: &[u8], start: usize, end: usize) -> (kind: TokenKind)
    requires
        start <= end <= s@.len(),
    ensures
        kind == keyword_kind(s@.subrange(start as int, end as int)),
{
    if word_is(s, start, end, "function") {
        TokenKind::Function
    } else if word_is(s, start, end, "namespace") {
        TokenKind::Namespace
    } else if word_is(s, start, end, "class") {
        TokenKind::Class
    } else if word_is(s, start, end, "interface") {
        TokenKind::Interface
    } else if word_is(s, start, end, "trait") {
        TokenKind::Trait
    } else if word_is(s, start, end, "use") {
        TokenKind::Use
    } else if word_is(s, start, end, "const") {
        TokenKind::Const
    } else if word_is(s, start, end, "insteadof") {
        TokenKind::InsteadOf
    } else if word_is(s, start, end, "implements") {
        TokenKind::Implements
    } else if word_is(s, start, end, "extends") {
        TokenKind::Extends
    } else if word_is(s, start, end, "abstract") {
        TokenKind::Abstract
    } else if word_is(s, start, end, "final") {
        TokenKind::Final
    } else if word_is(s, start, end, "public") {
        TokenKind::Public
    } else if word_is(s, start, end, "protected") {
        TokenKind::Protected
    } else if word_is(s, start, end, "private") {
        TokenKind::Private
    } else if word_is(s, start, end, "static") {
        TokenKind::Static
    } else if word_is(s, start, end, "new") {
        TokenKind::New
    } else if word_is(s, start, end, "instanceof") {
        TokenKind::InstanceOf
    } else if word_is(s, start, end, "throw") {
        TokenKind::Throw
    } else if word_is(s, start, end, "try") {
        TokenKind::Try
    } else if word_is(s, start, end, "catch") {
        TokenKind::Catch
    } else if word_is(s, start, end, "finally") {
        TokenKind::Finally
    } else if word_is(s, start, end, "using") {
        TokenKind::Using
    } else if word_is(s, start, end, "return") {
        TokenKind::Return
    } else if word_is(s, start, end, "if") {
        TokenKind::If
    } else if word_is(s, start, end, "elseif") {
        TokenKind::ElseIf
    } else if word_is(s, start, end, "else") {
        TokenKind::Else
    } else if word_is(s, start, end, "while") {
        TokenKind::While
    } else if word_is(s, start, end, "for") {
        TokenKind::For
    } else if word_is(s, start, end, "foreach") {
        TokenKind::Foreach
    } else if word_is(s, start, end, "as") {
        TokenKind::As
    } else if word_is(s, start, end, "break") {
        TokenKind::Break
    } else if word_is(s, start, end, "continue") {
        TokenKind::Continue
    } else if word_is(s, start, end, "match") {
        TokenKind::Match
    } else if word_is(s, start, end, "default") {
        TokenKind::Default
    } else if word_is(s, start, end, "echo") {
        TokenKind::Echo
    } else if word_is(s, start, end, "true") {
        TokenKind::True
    } else if word_is(s, start, end, "false") {
        TokenKind::False
    } else if word_is(s, start, end, "null") {
        TokenKind::Null
    } else {
        TokenKind::Identifier
    }
}

/// Where a number from `i` ends: digits, then a `.` and digits if a digit
/// follows the `.`.
pub open spec fn number_end(s: Seq<u8>, i: int) -> int {
    let d = digits_end(s, i);
    if d + 1 < s.len() && s[d] == 46 && is_digit(s[d + 1]) {
        digits_end(s, d + 1)
    } else {
        d
    }
}

/// A number from `i` has a fractional part.
pub open spec fn has_fraction(s: Seq<u8>, i: int) -> bool {
    number_end(s, i) != digits_end(s, i)
}

/// The rest of a string literal from `i`, after its opening `quote`: the
/// position after the closing quote and `true`, or the end and `false`.
/// A backslash takes the next byte with it.
pub open spec fn string_scan(s: Seq<u8>, i: int, quote: u8) -> (int, bool)
    decreases s.len() - i,
{
    if i < 0 || i >= s.len() {
        (i, false)
    } else if s[i] == quote {
        (i + 1, true)
    } else if s[i] == 92 {
        string_scan(s, if i + 1 < s.len() { i + 2 } else { i + 1 }, quote)
    } else {
        string_scan(s, i + 1, quote)
    }
}

proof fn lemma_string_scan(s: Seq<u8>, i: int, quote: u8)
    requires
        0 <= i <= s.len(),
    ensures
        i <= string_scan(s, i, quote).0 <= s.len(),
        !string_scan(s, i, quote).1 ==> string_scan(s, i, quote).0 == s.len(),
    decreases s.len() - i,
{
    if i < s.len() && s[i] != quote {
        if s[i] == 92 {
            lemma_string_scan(s, if i + 1 < s.len() { i + 2 } else { i + 1 }, quote);
        } else {
            lemma_string_scan(s, i + 1, quote);
        }
    }
}

/// The punctuation of three bytes at `i`.
pub open spec fn punct3(s: Seq<u8>, i: int) -> Option<TokenKind> {
    if starts_at(s, i, ascii("..."@)) {
        Some(TokenKind::Ellipsis)
    } else if starts_at(s, i, ascii("==="@)) {
        Some(TokenKind::StrictEqual)
    } else if starts_at(s, i, ascii("!=="@)) {
        Some(TokenKind::StrictNotEqual)
    } else {
        None
    }
}

/// The punctuation of two bytes at `i`.
pub open spec fn punct2(s: Seq<u8>, i: int) -> Option<TokenKind> {
    if starts_at(s, i, ascii("??"@)) {
        Some(TokenKind::QuestionQuestion)
    } else if starts_at(s, i, ascii("<="@)) {
        Some(TokenKind::LessEqual)
    } else if starts_at(s, i, ascii(">="@)) {
        Some(TokenKind::GreaterEqual)
    } else if starts_at(s, i, ascii("=="@)) {
        Some(TokenKind::EqualEqual)
    } else if starts_at(s, i, ascii("!="@)) {
        Some(TokenKind::BangEqual)
    } else if starts_at(s, i, ascii("&&"@)) {
        Some(TokenKind::AndAnd)
    } else if starts_at(s, i, ascii("||"@)) {
        Some(TokenKind::OrOr)
    } else if starts_at(s, i, ascii("=>"@)) {
        Some(TokenKind::FatArrow)
    } else if starts_at(s, i, ascii("->"@)) {
        Some(TokenKind::Arrow)
    } else if starts_at(s, i, ascii("::"@)) {
        Some(TokenKind::DoubleColon)
    } else {
        None
    }
}

/// The punctuation of one byte.
pub open spec fn punct1(b: u8) -> Option<TokenKind> {
    if b == '(' as u8 {
        Some(TokenKind::LParen)
    } else if b == ')' as u8 {
        Some(TokenKind::RParen)
    } else if b == '{' as u8 {
        Some(TokenKind::LBrace)
    } else if b == '}' as u8 {
        Some(TokenKind::RBrace)
    } else if b == '[' as u8 {
        Some(TokenKind::LBracket)
    } else if b == ']' as u8 {
        Some(TokenKind::RBracket)
    } else if b == '<' as u8 {
        Some(TokenKind::Less)
    } else if b == '>' as u8 {
        Some(TokenKind::Greater)
    } else if b == ':' as u8 {
        Some(TokenKind::Colon)
    } else if b == ';' as u8 {
        Some(TokenKind::Semicolon)
    } else if b == ',' as u8 {
        Some(TokenKind::Comma)
    } else if b == '?' as u8 {
        Some(TokenKind::Question)
    } else if b == '+' as u8 {
        Some(TokenKind::Plus)
    } else if b == '-' as u8 {
        Some(TokenKind::Minus)
    } else if b == '*' as u8 {
        Some(TokenKind::Star)
    } else if b == '/' as u8 {
        Some(TokenKind::Slash)
    } else if b == '%' as u8 {
        Some(TokenKind::Percent)
    } else if b == '.' as u8 {
        Some(TokenKind::Dot)
    } else if b == '=' as u8 {
        Some(TokenKind::Equal)
    } else if b == '!' as u8 {
        Some(TokenKind::Bang)
    } else if b == '|' as u8 {
        Some(TokenKind::Pipe)
    } else if b == '\\' as u8 {
        Some(TokenKind::NamespaceSeparator)
    } else {
        None
    }
}

/// The length of the UTF-8 character that a leading byte starts.
pub open spec fn utf8_width(b: u8) -> int {
    if b < 0x80 {
        1
    } else if b < 0xE0 {
        2
    } else if b < 0xF0 {
        3
    } else {
        4
    }
}

/// What stands at `i`, where a token may begin: the token, or the problem
/// found instead, and where lexing goes on.
pub open spec fn token_at(s: Seq<u8>, i: int) -> (Option<Token>, Option<Problem>, int) {
    let b = s[i];
    let tok = |kind: TokenKind, end: int| (Some(Token { kind, span: Span { start: i as usize, end: end as usize } }), None::<Problem>, end);
    let bad = |issue: LexIssue, end: int, next: int| (None::<Token>, Some(Problem { issue, span: Span { start: i as usize, end: end as usize } }), next);
    if starts_at(s, i, ascii("<?thp"@)) {
        tok(TokenKind::OpenTag, i + 5)
    } else if b == '$' as u8 {
        if i + 1 < s.len() && identifier_start(s[i + 1]) {
            tok(TokenKind::Variable, identifier_end(s, i + 1))
        } else {
            bad(LexIssue::BadVariable, i + 1, i + 1)
        }
    } else if identifier_start(b) {
        tok(keyword_kind(s.subrange(i, identifier_end(s, i))), identifier_end(s, i))
    } else if is_digit(b) {
        tok(if has_fraction(s, i) { TokenKind::Float } else { TokenKind::Integer }, number_end(s, i))
    } else if b == 39 || b == 34 {
        let (end, closed) = string_scan(s, i + 1, b);
        if closed {
            tok(TokenKind::String, end)
        } else {
            bad(LexIssue::UnterminatedString, s.len() as int, s.len() as int)
        }
    } else if punct3(s, i) is Some {
        tok(punct3(s, i)->0, i + 3)
    } else if punct2(s, i) is Some {
        tok(punct2(s, i)->0, i + 2)
    } else if punct1(b) is Some {
        tok(punct1(b)->0, i + 1)
    } else {
        let end = if i + utf8_width(b) <= s.len() { i + utf8_width(b) } else { s.len() as int };
        bad(LexIssue::Unrecognized, end, end)
    }
}

/// Nothing, or the one value.
pub open spec fn maybe<T>(o: Option<T>) -> Seq<T> {
    match o {
        Some(x) => seq![x],
        None => Seq::empty(),
    }
}

fn scan_string(s: &[u8], i: usize, quote: u8) -> (r: (usize, bool))
    requires
        i <= s@.len(),
    ensures
        r.0 == string_scan(s@, i as int, quote).0,
        r.1 == string_scan(s@, i as int, quote).1,
        i <= r.0 <= s@.len(),
{
    proof {
        lemma_string_scan(s@, i as int, quote);
    }
    let mut j = i;
    while j < s.len()
        invariant
            i <= j <= s@.len(),
            string_scan(s@, i as int, quote) == string_scan(s@, j as int, quote),
        decreases s.len() - j,
    {
        if s[j] == quote {
            return (j + 1, true);
        }
        if s[j] == 92 {
            j = if j + 1 < s.len() { j + 2 } else { j + 1 };
        } else {
            j = j + 1;
        }
    }
    (j, false)
}

fn punct3_at(s: &[u8], i: usize) -> (kind: Option<TokenKind>)
    requires
        i <= s@.len(),
    ensures
        kind == punct3(s@, i as int),
        kind is Some ==> i + 3 <= s@.len(),
{
    proof {
        reveal_strlit("...");
        reveal_strlit("===");
        reveal_strlit("!==");
    }
    if text_at(s, i, "...") {
        Some(TokenKind::Ellipsis)
    } else if text_at(s, i, "===") {
        Some(TokenKind::StrictEqual)
    } else if text_at(s, i, "!==") {
        Some(TokenKind::StrictNotEqual)
    } else {
        None
    }
}

fn punct2_at(s: &[u8], i: usize) -> (kind: Option<TokenKind>)
    requires
        i <= s@.len(),
    ensures
        kind == punct2(s@, i as int),
        kind is Some ==> i + 2 <= s@.len(),
{
    proof {
        reveal_strlit("??");
        reveal_strlit("<=");
        reveal_strlit(">=");
        reveal_strlit("==");
        reveal_strlit("!=");
        reveal_strlit("&&");
        reveal_strlit("||");
        reveal_strlit("=>");
        reveal_strlit("->");
        reveal_strlit("::");
    }
    if text_at(s, i, "??") {
        Some(TokenKind::QuestionQuestion)
    } else if text_at(s, i, "<=") {
        Some(TokenKind::LessEqual)
    } else if text_at(s, i, ">=") {
        Some(TokenKind::GreaterEqual)
    } else if text_at(s, i, "==") {
        Some(TokenKind::EqualEqual)
    } else if text_at(s, i, "!=") {
        Some(TokenKind::BangEqual)
    } else if text_at(s, i, "&&") {
        Some(TokenKind::AndAnd)
    } else if text_at(s, i, "||") {
        Some(TokenKind::OrOr)
    } else if text_at(s, i, "=>") {
        Some(TokenKind::FatArrow)
    } else if text_at(s, i, "->") {
        Some(TokenKind::Arrow)
    } else if text_at(s, i, "::") {
        Some(TokenKind::DoubleColon)
    } else {
        None
    }
}

fn punct1_of(b: u8) -> (kind: Option<TokenKind>)
    ensures
        kind == punct1(b),
{
    if b == '(' as u8 {
        Some(TokenKind::LParen)
    } else if b == ')' as u8 {
        Some(TokenKind::RParen)
    } else if b == '{' as u8 {
        Some(TokenKind::LBrace)
    } else if b == '}' as u8 {
        Some(TokenKind::RBrace)
    } else if b == '[' as u8 {
        Some(TokenKind::LBracket)
    } else if b == ']' as u8 {
        Some(TokenKind::RBracket)
    } else if b == '<' as u8 {
        Some(TokenKind::Less)
    } else if b == '>' as u8 {
        Some(TokenKind::Greater)
    } else if b == ':' as u8 {
        Some(TokenKind::Colon)
    } else if b == ';' as u8 {
        Some(TokenKind::Semicolon)
    } else if b == ',' as u8 {
        Some(TokenKind::Comma)
    } else if b == '?' as u8 {
        Some(TokenKind::Question)
    } else if b == '+' as u8 {
        Some(TokenKind::Plus)
    } else if b == '-' as u8 {
        Some(TokenKind::Minus)
    } else if b == '*' as u8 {
        Some(TokenKind::Star)
    } else if b == '/' as u8 {
        Some(TokenKind::Slash)
    } else if b == '%' as u8 {
        Some(TokenKind::Percent)
    } else if b == '.' as u8 {
        Some(TokenKind::Dot)
    } else if b == '=' as u8 {
        Some(TokenKind::Equal)
    } else if b == '!' as u8 {
        Some(TokenKind::Bang)
    } else if b == '|' as u8 {
        Some(TokenKind::Pipe)
    } else if b == '\\' as u8 {
        Some(TokenKind::NamespaceSeparator)
    } else {
        None
    }
}

fn width_of(b: u8) -> (w: usize)
    ensures
        w == utf8_width(b),
{
    if b < 0x80 {
        1
    } else if b < 0xE0 {
        2
    } else if b < 0xF0 {
        3
    } else {
        4
    }
}

/// Lexes what stands at `i`: a token, or a problem.
fn lex_token(s: &[u8], i: usize, tokens: &mut Vec<Token>, problems: &mut Vec<Diagnostic>) -> (next: usize)
    requires
        i < s@.len(),
    ensures
        next == token_at(s@, i as int).2,
        i < next <= s@.len(),
        final(tokens)@ == old(tokens)@ + maybe(token_at(s@, i as int).0),
        final(problems)@.len() == old(problems)@.len() + maybe(token_at(s@, i as int).1).len(),
        forall|k: int| 0 <= k < old(problems)@.len() ==> final(problems)@[k] == old(problems)@[k],
        token_at(s@, i as int).1 matches Some(p) ==> reports(final(problems)@[old(problems)@.len() as int], p),
{
    let b = s[i];
    let ghost before = tokens@;
    proof {
        reveal_strlit("<?thp");
        lemma_run_ends(s@, i as int);
        lemma_run_ends(s@, i as int + 1);
        lemma_string_scan(s@, i as int + 1, b);
        assert(identifier_start(b) ==> identifier_end(s@, i as int) == identifier_end(s@, i as int + 1));
        assert(is_digit(b) ==> digits_end(s@, i as int) == digits_end(s@, i as int + 1));
        let d = digits_end(s@, i as int);
        if 0 <= d + 1 <= s@.len() {
            lemma_run_ends(s@, d + 1);
        }
    }
    if text_at(s, i, "<?thp") {
        tokens.push(Token { kind: TokenKind::OpenTag, span: Span { start: i, end: i + 5 } });
        assert(tokens@ =~= before + maybe(token_at(s@, i as int).0));
        return i + 5;
    }
    if b == '$' as u8 {
        if i + 1 < s.len() && is_ident_start(s[i + 1]) {
            let e = ident_end(s, i + 1);
            tokens.push(Token { kind: TokenKind::Variable, span: Span { start: i, end: e } });
            assert(tokens@ =~= before + maybe(token_at(s@, i as int).0));
            return e;
        }
        problems.push(diagnostic(LexIssue::BadVariable, i, i + 1));
        assert(tokens@ =~= before + maybe(token_at(s@, i as int).0));
        return i + 1;
    }
    if is_ident_start(b) {
        let e = ident_end(s, i);
        let kind = word_kind(s, i, e);
        tokens.push(Token { kind, span: Span { start: i, end: e } });
        assert(tokens@ =~= before + maybe(token_at(s@, i as int).0));
        return e;
    }
    if 48 <= b && b <= 57 {
        let d = digit_end(s, i);
        let e = if d < s.len() && d + 1 < s.len() && s[d] == 46 && 48 <= s[d + 1] && s[d + 1] <= 57 {
            digit_end(s, d + 1)
        } else {
            d
        };
        let kind = if e != d { TokenKind::Float } else { TokenKind::Integer };
        tokens.push(Token { kind, span: Span { start: i, end: e } });
        assert(tokens@ =~= before + maybe(token_at(s@, i as int).0));
        return e;
    }
    if b == 39 || b == 34 {
        let (e, closed) = scan_string(s, i + 1, b);
        if closed {
            tokens.push(Token { kind: TokenKind::String, span: Span { start: i, end: e } });
            assert(tokens@ =~= before + maybe(token_at(s@, i as int).0));
            return e;
        }
        problems.push(diagnostic(LexIssue::UnterminatedString, i, s.len()));
        assert(tokens@ =~= before + maybe(token_at(s@, i as int).0));
        return s.len();
    }
    if let Some(kind) = punct3_at(s, i) {
        tokens.push(Token { kind, span: Span { start: i, end: i + 3 } });
        assert(tokens@ =~= before + maybe(token_at(s@, i as int).0));
        return i + 3;
    }
    if let Some(kind) = punct2_at(s, i) {
        tokens.push(Token { kind, span: Span { start: i, end: i + 2 } });
        assert(tokens@ =~= before + maybe(token_at(s@, i as int).0));
        return i + 2;
    }
    if let Some(kind) = punct1_of(b) {
        tokens.push(Token { kind, span: Span { start: i, end: i + 1 } });
        assert(tokens@ =~= before + maybe(token_at(s@, i as int).0));
        return i + 1;
    }
    let w = width_of(b);
    let end = if w <= s.len() - i { i + w } else { s.len() };
    problems.push(diagnostic(LexIssue::Unrecognized, i, end));
    assert(tokens@ =~= before + maybe(token_at(s@, i as int).0));
    end
}

proof fn lemma_trivia_bounds(s: Seq<u8>, i: int)
    requires
        0 <= i <= s.len(),
    ensures
        i <= trivia(s, i).0 <= s.len(),
    decreases s.len() - i,
{
    lemma_run_ends(s, i);
    let j = space_end(s, i);
    if pair_at(s, j, 47, 47) {
        lemma_run_ends(s, j + 2);
        lemma_trivia_bounds(s, line_end(s, j + 2));
    } else if pair_at(s, j, 47, 42) {
        lemma_run_ends(s, j + 2);
        let k = block_end(s, j + 2);
        if k + 1 < s.len() {
            lemma_trivia_bounds(s, k + 2);
        }
    }
}

proof fn lemma_token_advances(s: Seq<u8>, i: int)
    requires
        0 <= i < s.len(),
    ensures
        i < token_at(s, i).2 <= s.len(),
{
    reveal_strlit("<?thp");
    reveal_strlit("...");
    reveal_strlit("===");
    reveal_strlit("!==");
    reveal_strlit("??");
    reveal_strlit("<=");
    reveal_strlit(">=");
    reveal_strlit("==");
    reveal_strlit("!=");
    reveal_strlit("&&");
    reveal_strlit("||");
    reveal_strlit("=>");
    reveal_strlit("->");
    reveal_strlit("::");
    lemma_run_ends(s, i);
    lemma_run_ends(s, i + 1);
    lemma_string_scan(s, i + 1, s[i]);
    let d = digits_end(s, i);
    if d + 1 <= s.len() {
        lemma_run_ends(s, d + 1);
    }
}

/// The tokens and problems from `i` on, before the end of input.
pub open spec fn lex_from(s: Seq<u8>, i: int) -> (Seq<Token>, Seq<Problem>)
    decreases s.len() - i,
{
    if i < 0 || i >= s.len() {
        (Seq::empty(), Seq::empty())
    } else {
        let (j, skipped) = trivia(s, i);
        if j >= s.len() || j < i {
            (Seq::empty(), skipped)
        } else {
            let (token, problem, next) = token_at(s, j);
            if next <= j || next > s.len() {
                (maybe(token), skipped + maybe(problem))
            } else {
                let rest = lex_from(s, next);
                (maybe(token) + rest.0, skipped + maybe(problem) + rest.1)
            }
        }
    }
}

/// Lexing from `from` yields first a token of `kind` over `start..end`.
pub open spec fn first_token_is(s: Seq<u8>, from: int, kind: TokenKind, start: int, end: int) -> bool {
    lex_from(s, from).0.len() > 0 && lex_from(s, from).0[0] == Token {
        kind,
        span: Span { start: start as usize, end: end as usize },
    }
}

/// No `=` follows position `i + 1`: the two bytes at `i` are not the
/// start of `===` or `!==`.
pub open spec fn no_third_equal(s: Seq<u8>, i: int) -> bool {
    !(i + 2 < s.len() && s[i + 2] == 61)
}

/// Each operator spelling is lexed as the token named for it. Where
/// lexing goes on at `from` and the white space and comments from there
/// end at `i`, the operator at `i` is the first token, spanning exactly
/// its bytes: `<=` is `LessEqual`, `>=` is `GreaterEqual`, `==` is
/// `EqualEqual` and `!=` is `BangEqual` (each when no third `=` makes it
/// `===` or `!==`), `??` is `QuestionQuestion`, `&&` is `AndAnd`, `||` is
/// `OrOr`, `=>` is `FatArrow`, `->` is `Arrow`, `::` is `DoubleColon`,
/// and `===`, `!==` and `...` are `StrictEqual`, `StrictNotEqual` and
/// `Ellipsis`.
pub proof fn lemma_operators_lex_as_named(s: Seq<u8>, from: int, i: int)
    requires
        0 <= from,
        trivia(s, from).0 == i,
        i + 1 < s.len(),
    ensures
        pair_at(s, i, 60, 61) ==> first_token_is(s, from, TokenKind::LessEqual, i, i + 2),
        pair_at(s, i, 62, 61) ==> first_token_is(s, from, TokenKind::GreaterEqual, i, i + 2),
        pair_at(s, i, 61, 61) && no_third_equal(s, i) ==> first_token_is(s, from, TokenKind::EqualEqual, i, i + 2),
        pair_at(s, i, 33, 61) && no_third_equal(s, i) ==> first_token_is(s, from, TokenKind::BangEqual, i, i + 2),
        pair_at(s, i, 63, 63) ==> first_token_is(s, from, TokenKind::QuestionQuestion, i, i + 2),
        pair_at(s, i, 38, 38) ==> first_token_is(s, from, TokenKind::AndAnd, i, i + 2),
        pair_at(s, i, 124, 124) ==> first_token_is(s, from, TokenKind::OrOr, i, i + 2),
        pair_at(s, i, 61, 62) ==> first_token_is(s, from, TokenKind::FatArrow, i, i + 2),
        pair_at(s, i, 45, 62) ==> first_token_is(s, from, TokenKind::Arrow, i, i + 2),
        pair_at(s, i, 58, 58) ==> first_token_is(s, from, TokenKind::DoubleColon, i, i + 2),
        pair_at(s, i, 61, 61) && !no_third_equal(s, i) ==> first_token_is(s, from, TokenKind::StrictEqual, i, i + 3),
        pair_at(s, i, 33, 61) && !no_third_equal(s, i) ==> first_token_is(s, from, TokenKind::StrictNotEqual, i, i + 3),
        pair_at(s, i, 46, 46) && i + 2 < s.len() && s[i + 2] == 46 ==> first_token_is(s, from, TokenKind::Ellipsis, i, i + 3),
{
    if from > s.len() {
        assert(trivia(s, from).0 == from);
    }
    lemma_trivia_bounds(s, from);
    lemma_token_advances(s, i);
    lemma_operator_token(s, i);
    let (token, problem, next) = token_at(s, i);
    assert(lex_from(s, from).0 == maybe(token) + lex_from(s, next).0);
}

/// Each punctuation byte that stands alone (before white space or the
/// end) is lexed as the token named for it, spanning that byte: `(` and
/// `)` are `LParen` and `RParen`, `{` and `}` `LBrace` and `RBrace`, `[`
/// and `]` `LBracket` and `RBracket`, `<` `Less`, `>` `Greater`, `:`
/// `Colon`, `;` `Semicolon`, `,` `Comma`, `?` `Question`, `+` `Plus`, `-`
/// `Minus`, `*` `Star`, `/` `Slash`, `%` `Percent`, `.` `Dot`, `=`
/// `Equal`, `!` `Bang`, `|` `Pipe` and `\` `NamespaceSeparator`.
pub proof fn lemma_punctuation_lexes_as_named(s: Seq<u8>, from: int, i: int)
    requires
        0 <= from,
        trivia(s, from).0 == i,
        i < s.len(),
        i + 1 == s.len() || is_space(s[i + 1]),
    ensures
        s[i] == 40 ==> first_token_is(s, from, TokenKind::LParen, i, i + 1),
        s[i] == 41 ==> first_token_is(s, from, TokenKind::RParen, i, i + 1),
        s[i] == 123 ==> first_token_is(s, from, TokenKind::LBrace, i, i + 1),
        s[i] == 125 ==> first_token_is(s, from, TokenKind::RBrace, i, i + 1),
        s[i] == 91 ==> first_token_is(s, from, TokenKind::LBracket, i, i + 1),
        s[i] == 93 ==> first_token_is(s, from, TokenKind::RBracket, i, i + 1),
        s[i] == 60 ==> first_token_is(s, from, TokenKind::Less, i, i + 1),
        s[i] == 62 ==> first_token_is(s, from, TokenKind::Greater, i, i + 1),
        s[i] == 58 ==> first_token_is(s, from, TokenKind::Colon, i, i + 1),
        s[i] == 59 ==> first_token_is(s, from, TokenKind::Semicolon, i, i + 1),
        s[i] == 44 ==> first_token_is(s, from, TokenKind::Comma, i, i + 1),
        s[i] == 63 ==> first_token_is(s, from, TokenKind::Question, i, i + 1),
        s[i] == 43 ==> first_token_is(s, from, TokenKind::Plus, i, i + 1),
        s[i] == 45 ==> first_token_is(s, from, TokenKind::Minus, i, i + 1),
        s[i] == 42 ==> first_token_is(s, from, TokenKind::Star, i, i + 1),
        s[i] == 47 ==> first_token_is(s, from, TokenKind::Slash, i, i + 1),
        s[i] == 37 ==> first_token_is(s, from, TokenKind::Percent, i, i + 1),
        s[i] == 46 ==> first_token_is(s, from, TokenKind::Dot, i, i + 1),
        s[i] == 61 ==> first_token_is(s, from, TokenKind::Equal, i, i + 1),
        s[i] == 33 ==> first_token_is(s, from, TokenKind::Bang, i, i + 1),
        s[i] == 124 ==> first_token_is(s, from, TokenKind::Pipe, i, i + 1),
        s[i] == 92 ==> first_token_is(s, from, TokenKind::NamespaceSeparator, i, i + 1),
{
    reveal_strlit("<?thp");
    reveal_strlit("...");
    reveal_strlit("===");
    reveal_strlit("!==");
    reveal_strlit("??");
    reveal_strlit("<=");
    reveal_strlit(">=");
    reveal_strlit("==");
    reveal_strlit("!=");
    reveal_strlit("&&");
    reveal_strlit("||");
    reveal_strlit("=>");
    reveal_strlit("->");
    reveal_strlit("::");
    if from > s.len() {
        assert(trivia(s, from).0 == from);
    }
    lemma_trivia_bounds(s, from);
    lemma_token_advances(s, i);
    lemma_spelled(s, i, "<?thp"@);
    lemma_spelled(s, i, "..."@);
    lemma_spelled(s, i, "==="@);
    lemma_spelled(s, i, "!=="@);
    lemma_spelled(s, i, "??"@);
    lemma_spelled(s, i, "<="@);
    lemma_spelled(s, i, ">="@);
    lemma_spelled(s, i, "=="@);
    lemma_spelled(s, i, "!="@);
    lemma_spelled(s, i, "&&"@);
    lemma_spelled(s, i, "||"@);
    lemma_spelled(s, i, "=>"@);
    lemma_spelled(s, i, "->"@);
    lemma_spelled(s, i, "::"@);
    assert(punct3(s, i) is None);
    assert(punct2(s, i) is None);
    let (token, problem, next) = token_at(s, i);
    assert(lex_from(s, from).0 == maybe(token) + lex_from(s, next).0);
}

/// Each keyword is lexed as the token named for it: where lexing goes on
/// at `from` and the white space and comments from there end at `i`, a
/// word at `i` that is one of `function`, `namespace`, `class`, `interface`, `trait`, `use`, `const`, `insteadof`, `implements`, `extends`, `abstract`, `final`, `public`, `protected`, `private`, `static`, `new`, `instanceof`, `throw`, `try`, `catch`, `finally`, `using`, `return`, `if`, `elseif`, `else`, `while`, `for`, `foreach`, `as`, `break`, `continue`, `match`, `default`, `echo`, `true`, `false`, `null` is the first token, of that
/// keyword's kind, spanning the word.
#[verifier::rlimit(100)]
pub proof fn lemma_keywords_lex_as_named(s: Seq<u8>, from: int, i: int)
    requires
        0 <= from,
        trivia(s, from).0 == i,
        i < s.len(),
    ensures
        s.subrange(i, identifier_end(s, i)) == ascii("function"@) ==> first_token_is(s, from, TokenKind::Function, i, identifier_end(s, i)),
        s.subrange(i, identifier_end(s, i)) == ascii("namespace"@) ==> first_token_is(s, from, TokenKind::Namespace, i, identifier_end(s, i)),
        s.subrange(i, identifier_end(s, i)) == ascii("class"@) ==> first_token_is(s, from, TokenKind::Class, i, identifier_end(s, i)),
        s.subrange(i, identifier_end(s, i)) == ascii("interface"@) ==> first_token_is(s, from, TokenKind::Interface, i, identifier_end(s, i)),
        s.subrange(i, identifier_end(s, i)) == ascii("trait"@) ==> first_token_is(s, from, TokenKind::Trait, i, identifier_end(s, i)),
        s.subrange(i, identifier_end(s, i)) == ascii("use"@) ==> first_token_is(s, from, TokenKind::Use, i, identifier_end(s, i)),
        s.subrange(i, identifier_end(s, i)) == ascii("const"@) ==> first_token_is(s, from, TokenKind::Const, i, identifier_end(s, i)),
        s.subrange(i, identifier_end(s, i)) == ascii("insteadof"@) ==> first_token_is(s, from, TokenKind::InsteadOf, i, identifier_end(s, i)),
        s.subrange(i, identifier_end(s, i)) == ascii("implements"@) ==> first_token_is(s, from, TokenKind::Implements, i, identifier_end(s, i)),
        s.subrange(i, identifier_end(s, i)) == ascii("extends"@) ==> first_token_is(s, from, TokenKind::Extends, i, identifier_end(s, i)),
        s.subrange(i, identifier_end(s, i)) == ascii("abstract"@) ==> first_token_is(s, from, TokenKind::Abstract, i, identifier_end(s, i)),
        s.subrange(i, identifier_end(s, i)) == ascii("final"@) ==> first_token_is(s, from, TokenKind::Final, i, identifier_end(s, i)),
        s.subrange(i, identifier_end(s, i)) == ascii("public"@) ==> first_token_is(s, from, TokenKind::Public, i, identifier_end(s, i)),
        s.subrange(i, identifier_end(s, i)) == ascii("protected"@) ==> first_token_is(s, from, TokenKind::Protected, i, identifier_end(s, i)),
        s.subrange(i, identifier_end(s, i)) == ascii("private"@) ==> first_token_is(s, from, TokenKind::Private, i, identifier_end(s, i)),
        s.subrange(i, identifier_end(s, i)) == ascii("static"@) ==> first_token_is(s, from, TokenKind::Static, i, identifier_end(s, i)),
        s.subrange(i, identifier_end(s, i)) == ascii("new"@) ==> first_token_is(s, from, TokenKind::New, i, identifier_end(s, i)),
        s.subrange(i, identifier_end(s, i)) == ascii("instanceof"@) ==> first_token_is(s, from, TokenKind::InstanceOf, i, identifier_end(s, i)),
        s.subrange(i, identifier_end(s, i)) == ascii("throw"@) ==> first_token_is(s, from, TokenKind::Throw, i, identifier_end(s, i)),
        s.subrange(i, identifier_end(s, i)) == ascii("try"@) ==> first_token_is(s, from, TokenKind::Try, i, identifier_end(s, i)),
        s.subrange(i, identifier_end(s, i)) == ascii("catch"@) ==> first_token_is(s, from, TokenKind::Catch, i, identifier_end(s, i)),
        s.subrange(i, identifier_end(s, i)) == ascii("finally"@) ==> first_token_is(s, from, TokenKind::Finally, i, identifier_end(s, i)),
        s.subrange(i, identifier_end(s, i)) == ascii("using"@) ==> first_token_is(s, from, TokenKind::Using, i, identifier_end(s, i)),
        s.subrange(i, identifier_end(s, i)) == ascii("return"@) ==> first_token_is(s, from, TokenKind::Return, i, identifier_end(s, i)),
        s.subrange(i, identifier_end(s, i)) == ascii("if"@) ==> first_token_is(s, from, TokenKind::If, i, identifier_end(s, i)),
        s.subrange(i, identifier_end(s, i)) == ascii("elseif"@) ==> first_token_is(s, from, TokenKind::ElseIf, i, identifier_end(s, i)),
        s.subrange(i, identifier_end(s, i)) == ascii("else"@) ==> first_token_is(s, from, TokenKind::Else, i, identifier_end(s, i)),
        s.subrange(i, identifier_end(s, i)) == ascii("while"@) ==> first_token_is(s, from, TokenKind::While, i, identifier_end(s, i)),
        s.subrange(i, identifier_end(s, i)) == ascii("for"@) ==> first_token_is(s, from, TokenKind::For, i, identifier_end(s, i)),
        s.subrange(i, identifier_end(s, i)) == ascii("foreach"@) ==> first_token_is(s, from, TokenKind::Foreach, i, identifier_end(s, i)),
        s.subrange(i, identifier_end(s, i)) == ascii("as"@) ==> first_token_is(s, from, TokenKind::As, i, identifier_end(s, i)),
        s.subrange(i, identifier_end(s, i)) == ascii("break"@) ==> first_token_is(s, from, TokenKind::Break, i, identifier_end(s, i)),
        s.subrange(i, identifier_end(s, i)) == ascii("continue"@) ==> first_token_is(s, from, TokenKind::Continue, i, identifier_end(s, i)),
        s.subrange(i, identifier_end(s, i)) == ascii("match"@) ==> first_token_is(s, from, TokenKind::Match, i, identifier_end(s, i)),
        s.subrange(i, identifier_end(s, i)) == ascii("default"@) ==> first_token_is(s, from, TokenKind::Default, i, identifier_end(s, i)),
        s.subrange(i, identifier_end(s, i)) == ascii("echo"@) ==> first_token_is(s, from, TokenKind::Echo, i, identifier_end(s, i)),
        s.subrange(i, identifier_end(s, i)) == ascii("true"@) ==> first_token_is(s, from, TokenKind::True, i, identifier_end(s, i)),
        s.subrange(i, identifier_end(s, i)) == ascii("false"@) ==> first_token_is(s, from, TokenKind::False, i, identifier_end(s, i)),
        s.subrange(i, identifier_end(s, i)) == ascii("null"@) ==> first_token_is(s, from, TokenKind::Null, i, identifier_end(s, i)),
{
    reveal_strlit("<?thp");
    reveal_strlit("function");
    reveal_strlit("namespace");
    reveal_strlit("class");
    reveal_strlit("interface");
    reveal_strlit("trait");
    reveal_strlit("use");
    reveal_strlit("const");
    reveal_strlit("insteadof");
    reveal_strlit("implements");
    reveal_strlit("extends");
    reveal_strlit("abstract");
    reveal_strlit("final");
    reveal_strlit("public");
    reveal_strlit("protected");
    reveal_strlit("private");
    reveal_strlit("static");
    reveal_strlit("new");
    reveal_strlit("instanceof");
    reveal_strlit("throw");
    reveal_strlit("try");
    reveal_strlit("catch");
    reveal_strlit("finally");
    reveal_strlit("using");
    reveal_strlit("return");
    reveal_strlit("if");
    reveal_strlit("elseif");
    reveal_strlit("else");
    reveal_strlit("while");
    reveal_strlit("for");
    reveal_strlit("foreach");
    reveal_strlit("as");
    reveal_strlit("break");
    reveal_strlit("continue");
    reveal_strlit("match");
    reveal_strlit("default");
    reveal_strlit("echo");
    reveal_strlit("true");
    reveal_strlit("false");
    reveal_strlit("null");
    if from > s.len() {
        assert(trivia(s, from).0 == from);
    }
    lemma_trivia_bounds(s, from);
    lemma_token_advances(s, i);
    lemma_run_ends(s, i);
    lemma_spelled(s, i, "<?thp"@);
    let end = identifier_end(s, i);
    let w = s.subrange(i, end);
    if w.len() > 0 {
        assert(w[0] == s[i]);
    }
    // Keywords of one length differ within their first three letters.
    assert(ascii("namespace"@)[0] == 110 && ascii("namespace"@)[1] == 97 && ascii("namespace"@)[2] == 109);
    assert(ascii("class"@)[0] == 99 && ascii("class"@)[1] == 108 && ascii("class"@)[2] == 97);
    assert(ascii("interface"@)[0] == 105 && ascii("interface"@)[1] == 110 && ascii("interface"@)[2] == 116);
    assert(ascii("trait"@)[0] == 116 && ascii("trait"@)[1] == 114 && ascii("trait"@)[2] == 97);
    assert(ascii("const"@)[0] == 99 && ascii("const"@)[1] == 111 && ascii("const"@)[2] == 110);
    assert(ascii("insteadof"@)[0] == 105 && ascii("insteadof"@)[1] == 110 && ascii("insteadof"@)[2] == 115);
    assert(ascii("implements"@)[0] == 105 && ascii("implements"@)[1] == 109 && ascii("implements"@)[2] == 112);
    assert(ascii("extends"@)[0] == 101 && ascii("extends"@)[1] == 120 && ascii("extends"@)[2] == 116);
    assert(ascii("final"@)[0] == 102 && ascii("final"@)[1] == 105 && ascii("final"@)[2] == 110);
    assert(ascii("protected"@)[0] == 112 && ascii("protected"@)[1] == 114 && ascii("protected"@)[2] == 111);
    assert(ascii("private"@)[0] == 112 && ascii("private"@)[1] == 114 && ascii("private"@)[2] == 105);
    assert(ascii("instanceof"@)[0] == 105 && ascii("instanceof"@)[1] == 110 && ascii("instanceof"@)[2] == 115);
    assert(ascii("throw"@)[0] == 116 && ascii("throw"@)[1] == 104 && ascii("throw"@)[2] == 114);
    assert(ascii("catch"@)[0] == 99 && ascii("catch"@)[1] == 97 && ascii("catch"@)[2] == 116);
    assert(ascii("finally"@)[0] == 102 && ascii("finally"@)[1] == 105 && ascii("finally"@)[2] == 110);
    assert(ascii("using"@)[0] == 117 && ascii("using"@)[1] == 115 && ascii("using"@)[2] == 105);
    assert(ascii("else"@)[0] == 101 && ascii("else"@)[1] == 108 && ascii("else"@)[2] == 115);
    assert(ascii("while"@)[0] == 119 && ascii("while"@)[1] == 104 && ascii("while"@)[2] == 105);
    assert(ascii("foreach"@)[0] == 102 && ascii("foreach"@)[1] == 111 && ascii("foreach"@)[2] == 114);
    assert(ascii("break"@)[0] == 98 && ascii("break"@)[1] == 114 && ascii("break"@)[2] == 101);
    assert(ascii("match"@)[0] == 109 && ascii("match"@)[1] == 97 && ascii("match"@)[2] == 116);
    assert(ascii("default"@)[0] == 100 && ascii("default"@)[1] == 101 && ascii("default"@)[2] == 102);
    assert(ascii("echo"@)[0] == 101 && ascii("echo"@)[1] == 99 && ascii("echo"@)[2] == 104);
    assert(ascii("true"@)[0] == 116 && ascii("true"@)[1] == 114 && ascii("true"@)[2] == 117);
    assert(ascii("false"@)[0] == 102 && ascii("false"@)[1] == 97 && ascii("false"@)[2] == 108);
    assert(ascii("null"@)[0] == 110 && ascii("null"@)[1] == 117 && ascii("null"@)[2] == 108);
    let (token, problem, next) = token_at(s, i);
    assert(lex_from(s, from).0 == maybe(token) + lex_from(s, next).0);
}

/// Variables, numbers and string literals. Where lexing goes on at
/// `from` and the white space and comments from there end at `i`: a `$`
/// followed by a letter or `_` is a `Variable` over the `$` and the name;
/// a `$` followed by anything else is reported as a bad variable over the
/// `$` alone, and lexing goes on after it; digits are an `Integer`, or a
/// `Float` when a `.` and a digit follow them, over the digits, the `.`
/// and the digits after it; a quote starts a `String` that runs through
/// its closing quote, or, with none, is reported as unterminated from the
/// quote to the end.
pub proof fn lemma_literals_lex_as_named(s: Seq<u8>, from: int, i: int)
    requires
        0 <= from,
        trivia(s, from).0 == i,
        i < s.len(),
    ensures
        s[i] == 36 && i + 1 < s.len() && identifier_start(s[i + 1]) ==> first_token_is(
            s,
            from,
            TokenKind::Variable,
            i,
            identifier_end(s, i + 1),
        ),
        s[i] == 36 && !(i + 1 < s.len() && identifier_start(s[i + 1])) ==> lex_from(s, from) == (
            lex_from(s, i + 1).0,
            trivia(s, from).1 + seq![Problem { issue: LexIssue::BadVariable, span: Span { start: i as usize, end: (i + 1) as usize } }]
                + lex_from(s, i + 1).1,
        ),
        ({
            let d = digits_end(s, i);
            is_digit(s[i]) && !(d + 1 < s.len() && s[d] == 46 && is_digit(s[d + 1])) ==> first_token_is(s, from, TokenKind::Integer, i, d)
        }),
        ({
            let d = digits_end(s, i);
            is_digit(s[i]) && d + 1 < s.len() && s[d] == 46 && is_digit(s[d + 1]) ==> first_token_is(
                s,
                from,
                TokenKind::Float,
                i,
                digits_end(s, d + 1),
            )
        }),
        (s[i] == 34 || s[i] == 39) && string_scan(s, i + 1, s[i]).1 ==> first_token_is(
            s,
            from,
            TokenKind::String,
            i,
            string_scan(s, i + 1, s[i]).0,
        ),
        (s[i] == 34 || s[i] == 39) && !string_scan(s, i + 1, s[i]).1 ==> lex_from(s, from) == (
            Seq::<Token>::empty(),
            trivia(s, from).1 + seq![Problem { issue: LexIssue::UnterminatedString, span: Span { start: i as usize, end: s.len() as usize } }],
        ),
{
    reveal_strlit("<?thp");
    if from > s.len() {
        assert(trivia(s, from).0 == from);
    }
    lemma_trivia_bounds(s, from);
    lemma_token_advances(s, i);
    lemma_run_ends(s, i);
    lemma_spelled(s, i, "<?thp"@);
    let d = digits_end(s, i);
    if d + 1 <= s.len() {
        lemma_run_ends(s, d + 1);
    }
    lemma_string_scan(s, i + 1, s[i]);
    let (token, problem, next) = token_at(s, i);
    assert(lex_from(s, from) == (maybe(token) + lex_from(s, next).0, trivia(s, from).1 + maybe(problem) + lex_from(s, next).1));
    if (s[i] == 34 || s[i] == 39) && !string_scan(s, i + 1, s[i]).1 {
        assert(lex_from(s, next) == (Seq::<Token>::empty(), Seq::<Problem>::empty()));
        assert(maybe(token) + lex_from(s, next).0 =~= Seq::<Token>::empty());
        assert(trivia(s, from).1 + maybe(problem) + lex_from(s, next).1 =~= trivia(s, from).1 + maybe(problem));
    }
    if s[i] == 36 && !(i + 1 < s.len() && identifier_start(s[i + 1])) {
        assert(maybe(token) + lex_from(s, next).0 =~= lex_from(s, next).0);
    }
}

/// White space and comments make no tokens. Lexing from a space, tab,
/// line feed, form feed or carriage return is lexing from the byte after
/// it; from a `//` comment, lexing from the line feed that ends it (or
/// the end); from a closed `/* */` comment, lexing from after its `*/`;
/// and an unclosed `/*` yields no token and one problem, an unterminated
/// comment from the `/*` to the end.
pub proof fn lemma_trivia_is_skipped(s: Seq<u8>, i: int)
    requires
        0 <= i < s.len(),
    ensures
        (s[i] == 32 || s[i] == 9 || s[i] == 10 || s[i] == 12 || s[i] == 13) ==> lex_from(s, i) == lex_from(s, i + 1),
        pair_at(s, i, 47, 47) ==> lex_from(s, i) == lex_from(s, line_end(s, i + 2)),
        pair_at(s, i, 47, 42) && block_end(s, i + 2) + 1 < s.len() ==> lex_from(s, i) == lex_from(s, block_end(s, i + 2) + 2),
        pair_at(s, i, 47, 42) && block_end(s, i + 2) + 1 >= s.len() ==> lex_from(s, i) == (
            Seq::<Token>::empty(),
            seq![Problem { issue: LexIssue::UnterminatedComment, span: Span { start: i as usize, end: s.len() as usize } }],
        ),
{
    lemma_run_ends(s, i);
    lemma_run_ends(s, i + 1);
    lemma_trivia_bounds(s, i);
    if i + 2 <= s.len() {
        lemma_run_ends(s, i + 2);
    }
    if is_space(s[i]) {
        lemma_trivia_bounds(s, i + 1);
        assert(trivia(s, i) == trivia(s, i + 1));
    } else if pair_at(s, i, 47, 47) {
        let k = line_end(s, i + 2);
        lemma_trivia_bounds(s, k);
        assert(trivia(s, i) == trivia(s, k));
    } else if pair_at(s, i, 47, 42) {
        let k = block_end(s, i + 2);
        if k + 1 < s.len() {
            lemma_trivia_bounds(s, k + 2);
            assert(trivia(s, i) == trivia(s, k + 2));
        }
    }
}

/// Whether the ASCII text `t` stands at `i`, byte by byte.
proof fn lemma_spelled(s: Seq<u8>, i: int, t: Seq<char>)
    requires
        0 <= i,
        2 <= t.len() <= 5,
    ensures
        t.len() == 2 ==> (starts_at(s, i, ascii(t)) <==> (i + 1 < s.len() && s[i] == t[0] as u8 && s[i + 1] == t[1] as u8)),
        t.len() == 3 ==> (starts_at(s, i, ascii(t)) <==> (i + 2 < s.len() && s[i] == t[0] as u8 && s[i + 1] == t[1] as u8 && s[i + 2] == t[2] as u8)),
        starts_at(s, i, ascii(t)) ==> s[i] == t[0] as u8 && s[i + 1] == t[1] as u8,
{
    let a = ascii(t);
    if starts_at(s, i, a) {
        assert(s.subrange(i, i + a.len())[0] == a[0]);
        assert(s.subrange(i, i + a.len())[1] == a[1]);
        if t.len() == 3 {
            assert(s.subrange(i, i + a.len())[2] == a[2]);
        }
    } else if t.len() == 2 && i + 1 < s.len() && s[i] == t[0] as u8 && s[i + 1] == t[1] as u8 {
        assert(s.subrange(i, i + 2) =~= a);
    } else if t.len() == 3 && i + 2 < s.len() && s[i] == t[0] as u8 && s[i + 1] == t[1] as u8 && s[i + 2] == t[2] as u8 {
        assert(s.subrange(i, i + 3) =~= a);
    }
}

/// The token that each operator spelling at `i` makes.
proof fn lemma_operator_token(s: Seq<u8>, i: int)
    requires
        0 <= i,
        i + 1 < s.len(),
    ensures
        ({
            let t = |kind: TokenKind, end: int| (Some(Token { kind, span: Span { start: i as usize, end: end as usize } }), None::<Problem>, end);
            &&& pair_at(s, i, 60, 61) ==> token_at(s, i) == t(TokenKind::LessEqual, i + 2)
            &&& pair_at(s, i, 62, 61) ==> token_at(s, i) == t(TokenKind::GreaterEqual, i + 2)
            &&& pair_at(s, i, 61, 61) && no_third_equal(s, i) ==> token_at(s, i) == t(TokenKind::EqualEqual, i + 2)
            &&& pair_at(s, i, 33, 61) && no_third_equal(s, i) ==> token_at(s, i) == t(TokenKind::BangEqual, i + 2)
            &&& pair_at(s, i, 63, 63) ==> token_at(s, i) == t(TokenKind::QuestionQuestion, i + 2)
            &&& pair_at(s, i, 38, 38) ==> token_at(s, i) == t(TokenKind::AndAnd, i + 2)
            &&& pair_at(s, i, 124, 124) ==> token_at(s, i) == t(TokenKind::OrOr, i + 2)
            &&& pair_at(s, i, 61, 62) ==> token_at(s, i) == t(TokenKind::FatArrow, i + 2)
            &&& pair_at(s, i, 45, 62) ==> token_at(s, i) == t(TokenKind::Arrow, i + 2)
            &&& pair_at(s, i, 58, 58) ==> token_at(s, i) == t(TokenKind::DoubleColon, i + 2)
            &&& pair_at(s, i, 61, 61) && !no_third_equal(s, i) ==> token_at(s, i) == t(TokenKind::StrictEqual, i + 3)
            &&& pair_at(s, i, 33, 61) && !no_third_equal(s, i) ==> token_at(s, i) == t(TokenKind::StrictNotEqual, i + 3)
            &&& pair_at(s, i, 46, 46) && i + 2 < s.len() && s[i + 2] == 46 ==> token_at(s, i) == t(TokenKind::Ellipsis, i + 3)
        }),
{
    reveal_strlit("<?thp");
    reveal_strlit("...");
    reveal_strlit("===");
    reveal_strlit("!==");
    reveal_strlit("??");
    reveal_strlit("<=");
    reveal_strlit(">=");
    reveal_strlit("==");
    reveal_strlit("!=");
    reveal_strlit("&&");
    reveal_strlit("||");
    reveal_strlit("=>");
    reveal_strlit("->");
    reveal_strlit("::");
    lemma_spelled(s, i, "<?thp"@);
    lemma_spelled(s, i, "..."@);
    lemma_spelled(s, i, "==="@);
    lemma_spelled(s, i, "!=="@);
    lemma_spelled(s, i, "??"@);
    lemma_spelled(s, i, "<="@);
    lemma_spelled(s, i, ">="@);
    lemma_spelled(s, i, "=="@);
    lemma_spelled(s, i, "!="@);
    lemma_spelled(s, i, "&&"@);
    lemma_spelled(s, i, "||"@);
    lemma_spelled(s, i, "=>"@);
    lemma_spelled(s, i, "->"@);
    lemma_spelled(s, i, "::"@);
}

/// The tokens of a source, ended by `Eof` at its end, and the problems
/// found in it.
pub open spec fn lexed(source: Seq<char>) -> (Seq<Token>, Seq<Problem>) {
    let s = vstd::utf8::encode_utf8(source);
    let (tokens, problems) = lex_from(s, 0);
    (tokens.push(Token { kind: TokenKind::Eof, span: Span { start: s.len() as usize, end: s.len() as usize } }), problems)
}

/// The tokens of a source and the diagnostics of its problems.
#[derive(Clone, Debug)]
pub struct LexOutput {
    pub tokens: Vec<Token>,
    pub diagnostics: Vec<Diagnostic>,
}

/// Splits a source into tokens: the tokens in order, each with its span,
/// ended by `Eof`, and a diagnostic for each stretch that is no token.
pub fn lex(source: &str) -> (out: LexOutput)
    ensures
        out.tokens@ == lexed(source@).0,
        out.diagnostics@.len() == lexed(source@).1.len(),
        forall|k: int| 0 <= k < out.diagnostics@.len() ==> reports(#[trigger] out.diagnostics@[k], lexed(source@).1[k]),
{
    let s = source.as_bytes();
    let ghost all = lex_from(s@, 0);
    let mut tokens: Vec<Token> = Vec::new();
    let mut problems: Vec<Diagnostic> = Vec::new();
    let ghost mut found: Seq<Problem> = Seq::empty();
    let mut offset: usize = 0;
    while offset < s.len()
        invariant
            offset <= s@.len(),
            all == lex_from(s@, 0),
            tokens@ + lex_from(s@, offset as int).0 == all.0,
            found + lex_from(s@, offset as int).1 == all.1,
            problems@.len() == found.len(),
            forall|k: int| 0 <= k < problems@.len() ==> reports(#[trigger] problems@[k], found[k]),
        decreases s.len() - offset,
    {
        let ghost here = lex_from(s@, offset as int);
        let ghost skipped = trivia(s@, offset as int).1;
        let ghost before_tokens = tokens@;
        let ghost before_problems = problems@;
        proof {
            lemma_trivia_bounds(s@, offset as int);
        }
        let j = skip_trivia(s, offset, &mut problems);
        if j >= s.len() {
            proof {
                assert(here == (Seq::<Token>::empty(), skipped));
                assert forall|k: int| 0 <= k < problems@.len() implies reports(#[trigger] problems@[k], (found + skipped)[k]) by {
                    if k >= found.len() {
                        assert(problems@[found.len() + (k - found.len())] == problems@[k]);
                    }
                }
                found = found + skipped;
                assert(tokens@ + lex_from(s@, j as int).0 =~= all.0);
                assert(found + lex_from(s@, j as int).1 =~= all.1);
            }
            offset = j;
        } else {
            let ghost mid_problems = problems@;
            proof {
                lemma_token_advances(s@, j as int);
            }
            let next = lex_token(s, j, &mut tokens, &mut problems);
            proof {
                let t = token_at(s@, j as int);
                let rest = lex_from(s@, next as int);
                assert(here == (maybe(t.0) + rest.0, skipped + maybe(t.1) + rest.1));
                let added = skipped + maybe(t.1);
                assert forall|k: int| 0 <= k < problems@.len() implies reports(#[trigger] problems@[k], (found + added)[k]) by {
                    if k >= found.len() && k < found.len() + skipped.len() {
                        assert(mid_problems[found.len() + (k - found.len())] == mid_problems[k]);
                        assert(problems@[k] == mid_problems[k]);
                    } else if k < found.len() {
                        assert(problems@[k] == mid_problems[k]);
                    }
                }
                found = found + added;
                assert(tokens@ + rest.0 =~= all.0);
                assert(found + rest.1 =~= all.1);
            }
            offset = next;
        }
    }
    proof {
        assert(lex_from(s@, offset as int) == (Seq::<Token>::empty(), Seq::<Problem>::empty()));
        assert(tokens@ =~= all.0);
        assert(found =~= all.1);
    }
    tokens.push(Token { kind: TokenKind::Eof, span: Span { start: s.len(), end: s.len() } });
    LexOutput { tokens, diagnostics: problems }
}

/// Nonempty spans between `from` and `to`, each ending before the next
/// begins.
pub open spec fn in_order(ts: Seq<Token>, from: int, to: int) -> bool {
    &&& forall|k: int| 0 <= k < ts.len() ==> from <= (#[trigger] ts[k]).span.start < ts[k].span.end <= to
    &&& forall|a: int, b: int| 0 <= a < b < ts.len() ==> (#[trigger] ts[a]).span.end <= (#[trigger] ts[b]).span.start
}

proof fn lemma_lex_from_in_order(s: Seq<u8>, i: int)
    requires
        0 <= i,
        s.len() <= usize::MAX,
    ensures
        in_order(lex_from(s, i).0, i, s.len() as int),
    decreases s.len() - i,
{
    if i < s.len() {
        lemma_trivia_bounds(s, i);
        let (j, skipped) = trivia(s, i);
        if j < s.len() {
            lemma_token_advances(s, j);
            let (token, problem, next) = token_at(s, j);
            lemma_lex_from_in_order(s, next);
            let rest = lex_from(s, next).0;
            let ts = maybe(token) + rest;
            assert(token matches Some(t) ==> t.span.start == j && t.span.end == next);
            assert forall|k: int| 0 <= k < ts.len() implies i <= (#[trigger] ts[k]).span.start < ts[k].span.end <= s.len() by {
                if token is Some && k > 0 {
                    assert(ts[k] == rest[k - 1]);
                } else if token is None {
                    assert(ts[k] == rest[k]);
                }
            }
            assert forall|a: int, b: int| 0 <= a < b < ts.len() implies (#[trigger] ts[a]).span.end <= (#[trigger] ts[b]).span.start by {
                if token is Some {
                    assert(ts[b] == rest[b - 1]);
                    if a > 0 {
                        assert(ts[a] == rest[a - 1]);
                    }
                } else {
                    assert(ts[a] == rest[a]);
                    assert(ts[b] == rest[b]);
                }
            }
        }
    }
}

/// Lexing yields the tokens in source order, each a nonempty stretch of
/// the source that ends before the next begins, and then `Eof` at the end.
pub proof fn lemma_tokens_in_order(source: Seq<char>)
    requires
        vstd::utf8::encode_utf8(source).len() <= usize::MAX,
    ensures
        ({
            let s = vstd::utf8::encode_utf8(source);
            let ts = lexed(source).0;
            &&& ts.len() > 0
            &&& ts.last() == Token { kind: TokenKind::Eof, span: Span { start: s.len() as usize, end: s.len() as usize } }
            &&& in_order(ts.drop_last(), 0, s.len() as int)
        }),
{
    let s = vstd::utf8::encode_utf8(source);
    lemma_lex_from_in_order(s, 0);
    assert(lexed(source).0.drop_last() =~= lex_from(s, 0).0);
}

} // verus!
