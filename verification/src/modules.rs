//! Logical module names, autoload mappings, the deterministic index of
//! discovered modules and the declaration groups of the module graph.

use vstd::prelude::*;
use crate::text::{chars_of, push_chars, push_str, string_of};

pub mod graph;
pub mod names;
pub mod deps;
pub mod resolve;
pub mod assembly;
pub mod interface;

verus! {

broadcast use vstd::std_specs::vec::group_vec_axioms;

pub const INTERFACE_FORMAT_VERSION: u16 = 1;

pub const OBJECT_FORMAT_VERSION: u16 = 1;

pub const MANIFEST_FORMAT_VERSION: u16 = 1;

/// A character that may start a namespace segment: an ASCII letter or `_`.
pub open spec fn segment_start(c: char) -> bool {
    ('a' <= c && c <= 'z') || ('A' <= c && c <= 'Z') || c == '_'
}

/// A character that may continue a namespace segment.
pub open spec fn segment_char(c: char) -> bool {
    segment_start(c) || ('0' <= c && c <= '9')
}

/// Position `i` of a module ID continues a segment, or is a `\` that
/// starts the next segment.
pub open spec fn id_char_ok(s: Seq<char>, i: int) -> bool {
    if s[i] == '\\' {
        i + 1 < s.len() && segment_start(s[i + 1])
    } else {
        segment_char(s[i])
    }
}

/// Valid namespace segments joined by `\`, with nothing before the first
/// or after the last.
pub open spec fn valid_module_id(s: Seq<char>) -> bool {
    s.len() > 0 && segment_start(s[0]) && forall|i: int| 1 <= i < s.len() ==> #[trigger] id_char_ok(s, i)
}

fn is_segment_start(c: char) -> (r: bool)
    ensures
        r == segment_start(c),
{
    ('a' <= c && c <= 'z') || ('A' <= c && c <= 'Z') || c == '_'
}

fn is_segment_char(c: char) -> (r: bool)
    ensures
        r == segment_char(c),
{
    is_segment_start(c) || ('0' <= c && c <= '9')
}

/// Checks the shape of a module ID.
fn valid_id_chars(s: &[char]) -> (valid: bool)
    ensures
        valid == valid_module_id(s@),
{
    if s.len() == 0 || !is_segment_start(s[0]) {
        return false;
    }
    let mut i: usize = 1;
    while i < s.len()
        invariant
            1 <= i <= s.len(),
            forall|k: int| 1 <= k < i ==> #[trigger] id_char_ok(s@, k),
        decreases s.len() - i,
    {
        let ok = if s[i] == '\\' {
            i + 1 < s.len() && is_segment_start(s[i + 1])
        } else {
            is_segment_char(s[i])
        };
        if !ok {
            assert(!id_char_ok(s@, i as int));
            return false;
        }
        i = i + 1;
    }
    true
}

/// Why a module could not be named or found.
#[derive(Clone, Debug, PartialEq, Eq)]
pub enum ModuleError {
    Io { path: String, message: String },
    InvalidUtf8 { path: String },
    InvalidModuleId(String),
    InvalidAutoload { prefix: String, message: String },
    AmbiguousModule { id: ModuleId, first: String, second: String },
    AmbiguousFile { path: String, first: ModuleId, second: ModuleId },
}

/// A logical module ID: namespace segments joined by `\`, or the
/// synthetic `@entry/…` ID of an entry file outside every mapping.
#[derive(Debug, PartialEq, Eq)]
pub struct ModuleId(String);

impl View for ModuleId {
    type V = Seq<char>;

    closed spec fn view(&self) -> Seq<char> {
        self.0@
    }
}

impl Clone for ModuleId {
    fn clone(&self) -> (copy: Self)
        ensures
            copy@ == self@,
    {
        ModuleId(self.0.clone())
    }
}

/// The position of the last `c` in `s` before `j`.
pub open spec fn last_index_before(s: Seq<char>, c: char, j: int) -> Option<int>
    decreases j,
{
    if j <= 0 {
        None
    } else if s[j - 1] == c {
        Some(j - 1)
    } else {
        last_index_before(s, c, j - 1)
    }
}

pub proof fn lemma_last_index_before(s: Seq<char>, c: char, j: int)
    requires
        0 <= j <= s.len(),
    ensures
        match last_index_before(s, c, j) {
            Some(k) => 0 <= k < j && s[k] == c && forall|m: int| k < m < j ==> s[m] != c,
            None => forall|m: int| 0 <= m < j ==> s[m] != c,
        },
    decreases j,
{
    if j > 0 && s[j - 1] != c {
        lemma_last_index_before(s, c, j - 1);
    }
}

/// The namespace of a module ID: everything before its last `\`.
pub open spec fn namespace_of(id: Seq<char>) -> Seq<char> {
    match last_index_before(id, '\\', id.len() as int) {
        Some(k) => id.subrange(0, k),
        None => Seq::empty(),
    }
}

pub(crate) fn last_index_of(s: &[char], c: char) -> (k: Option<usize>)
    ensures
        match last_index_before(s@, c, s@.len() as int) {
            Some(i) => k matches Some(p) && p == i && 0 <= i < s@.len(),
            None => k is None,
        },
{
    proof {
        lemma_last_index_before(s@, c, s@.len() as int);
    }
    let mut j = s.len();
    while j > 0
        invariant
            j <= s@.len(),
            last_index_before(s@, c, s@.len() as int) == last_index_before(s@, c, j as int),
        decreases j,
    {
        if s[j - 1] == c {
            return Some(j - 1);
        }
        j = j - 1;
    }
    None
}

impl ModuleId {
    /// A logical module ID; refused unless it is valid segments joined by
    /// `\`.
    pub fn new(value: String) -> (id: Result<ModuleId, ModuleError>)
        ensures
            valid_module_id(value@) ==> (id matches Ok(i) && i@ == value@),
            !valid_module_id(value@) ==> (id matches Err(ModuleError::InvalidModuleId(v)) && v@ == value@),
    {
        let chars = chars_of(value.as_str());
        if valid_id_chars(chars.as_slice()) {
            Ok(ModuleId(value))
        } else {
            Err(ModuleError::InvalidModuleId(value))
        }
    }

    pub fn as_str(&self) -> (s: &str)
        ensures
            s@ == self@,
    {
        self.0.as_str()
    }

    /// Everything before the ID's last `\`, or nothing.
    pub fn namespace(&self) -> (namespace: String)
        ensures
            namespace@ == namespace_of(self@),
    {
        let chars = chars_of(self.0.as_str());
        match last_index_of(chars.as_slice(), '\\') {
            Some(k) => {
                let mut out: Vec<char> = Vec::new();
                let mut i: usize = 0;
                while i < k
                    invariant
                        k <= chars@.len(),
                        i <= k,
                        out@ == chars@.subrange(0, i as int),
                    decreases k - i,
                {
                    out.push(chars[i]);
                    i = i + 1;
                    assert(out@ =~= chars@.subrange(0, i as int));
                }
                string_of(out.as_slice())
            },
            None => {
                let empty = String::new();
                assert(empty@ =~= Seq::<char>::empty());
                empty
            },
        }
    }
}

/// How declarations are kinded in export keys.
#[derive(Clone, Copy, Debug, PartialEq, Eq, Structural)]
pub enum DeclarationKind {
    Function,
    Class,
    Interface,
    Trait,
}

/// The keyword of a declaration kind.
pub open spec fn declaration_label(kind: DeclarationKind) -> Seq<char> {
    match kind {
        DeclarationKind::Function => "function"@,
        DeclarationKind::Class => "class"@,
        DeclarationKind::Interface => "interface"@,
        DeclarationKind::Trait => "trait"@,
    }
}

impl DeclarationKind {
    pub fn as_str(self) -> (label: &'static str)
        ensures
            label@ == declaration_label(self),
    {
        match self {
            DeclarationKind::Function => "function",
            DeclarationKind::Class => "class",
            DeclarationKind::Interface => "interface",
            DeclarationKind::Trait => "trait",
        }
    }
}

/// Why one module depends on another.
#[derive(Clone, Copy, Debug, PartialEq, Eq, Structural)]
pub enum DependencyKind {
    Import,
    Signature,
    Body,
}

/// One dependency between two modules.
#[derive(Debug, PartialEq, Eq)]
pub struct DependencyEdge {
    pub from: ModuleId,
    pub to: ModuleId,
    pub kind: DependencyKind,
    pub symbol: String,
}

impl Clone for DependencyEdge {
    fn clone(&self) -> (copy: Self)
        ensures
            copy.from@ == self.from@,
            copy.to@ == self.to@,
            copy.kind == self.kind,
            copy.symbol@ == self.symbol@,
    {
        DependencyEdge {
            from: self.from.clone(),
            to: self.to.clone(),
            kind: self.kind,
            symbol: self.symbol.clone(),
        }
    }
}

/// The modules of a project, their dependencies and the groups of modules
/// whose declarations must be compiled together.
#[derive(Clone, Debug, PartialEq, Eq)]
pub struct ModuleGraph {
    pub modules: Vec<ModuleId>,
    pub edges: Vec<DependencyEdge>,
    pub declaration_groups: Vec<Vec<ModuleId>>,
}

/// A declared name inside a namespace.
pub open spec fn qualified(namespace: Seq<char>, name: Seq<char>) -> Seq<char> {
    if namespace.len() == 0 {
        name
    } else {
        namespace + "\\"@ + name
    }
}

/// Prefixes a declared name with its namespace.
pub fn qualify_declaration(namespace: &str, name: &str) -> (q: String)
    ensures
        q@ == qualified(namespace@, name@),
{
    let mut out: Vec<char> = Vec::new();
    let ns = chars_of(namespace);
    if ns.len() > 0 {
        push_chars(&mut out, ns.as_slice());
        push_str(&mut out, "\\");
    }
    push_str(&mut out, name);
    string_of(out.as_slice())
}

/// The type names that need no declaration.
pub open spec fn builtin_type(name: Seq<char>) -> bool {
    name == "int"@ || name == "float"@ || name == "bool"@ || name == "string"@ || name == "void"@ || name
        == "never"@ || name == "mixed"@ || name == "null"@ || name == "Vec"@ || name == "Map"@ || name
        == "Stream"@ || name == "Exception"@ || name == "Resource"@
}

/// The builtin type names as the language spells them.
pub open spec fn builtin_type_names() -> Seq<Seq<char>> {
    seq![
        "int"@,
        "float"@,
        "bool"@,
        "string"@,
        "void"@,
        "never"@,
        "mixed"@,
        "null"@,
        "Vec"@,
        "Map"@,
        "Stream"@,
        "Exception"@,
        "Resource"@,
    ]
}

/// The names that need no declaration are exactly the builtin type names.
pub proof fn lemma_builtin_type_names(name: Seq<char>)
    ensures
        builtin_type(name) <==> builtin_type_names().contains(name),
{
    let names = builtin_type_names();
    if builtin_type(name) {
        if name == "int"@ { assert(names[0] == name); }
        if name == "float"@ { assert(names[1] == name); }
        if name == "bool"@ { assert(names[2] == name); }
        if name == "string"@ { assert(names[3] == name); }
        if name == "void"@ { assert(names[4] == name); }
        if name == "never"@ { assert(names[5] == name); }
        if name == "mixed"@ { assert(names[6] == name); }
        if name == "null"@ { assert(names[7] == name); }
        if name == "Vec"@ { assert(names[8] == name); }
        if name == "Map"@ { assert(names[9] == name); }
        if name == "Stream"@ { assert(names[10] == name); }
        if name == "Exception"@ { assert(names[11] == name); }
        if name == "Resource"@ { assert(names[12] == name); }
    }
}

fn str_eq(a: &str, b: &str) -> (same: bool)
    ensures
        same == (a@ == b@),
{
    let x = chars_of(a);
    let y = chars_of(b);
    chars_equal(x.as_slice(), y.as_slice())
}

fn chars_equal(a: &[char], b: &[char]) -> (same: bool)
    ensures
        same == (a@ == b@),
{
    if a.len() != b.len() {
        return false;
    }
    let mut i: usize = 0;
    while i < a.len()
        invariant
            i <= a.len(),
            a.len() == b.len(),
            forall|k: int| 0 <= k < i ==> a@[k] == b@[k],
        decreases a.len() - i,
    {
        if a[i] != b[i] {
            assert(a@[i as int] != b@[i as int]);
            return false;
        }
        i = i + 1;
    }
    assert(a@ =~= b@);
    true
}

/// Whether a type name needs no declaration.
pub fn is_builtin_type(name: &str) -> (builtin: bool)
    ensures
        builtin == builtin_type(name@),
{
    str_eq(name, "int") || str_eq(name, "float") || str_eq(name, "bool") || str_eq(name, "string") || str_eq(
        name,
        "void",
    ) || str_eq(name, "never") || str_eq(name, "mixed") || str_eq(name, "null") || str_eq(name, "Vec")
        || str_eq(name, "Map") || str_eq(name, "Stream") || str_eq(name, "Exception") || str_eq(
        name,
        "Resource",
    )
}

/// Module IDs separated by `, `.
pub open spec fn joined_ids(ids: Seq<Seq<char>>) -> Seq<char>
    decreases ids.len(),
{
    if ids.len() == 0 {
        Seq::empty()
    } else if ids.len() == 1 {
        ids[0]
    } else {
        joined_ids(ids.drop_last()) + ", "@ + ids.last()
    }
}

/// Lists module IDs for a message.
pub fn join_ids(ids: &[ModuleId]) -> (text: String)
    ensures
        text@ == joined_ids(ids@.map_values(|id: ModuleId| id@)),
{
    let mut out: Vec<char> = Vec::new();
    let mut i: usize = 0;
    while i < ids.len()
        invariant
            i <= ids@.len(),
            out@ == joined_ids(ids@.subrange(0, i as int).map_values(|id: ModuleId| id@)),
        decreases ids.len() - i,
    {
        if i > 0 {
            push_str(&mut out, ", ");
        }
        push_str(&mut out, ids[i].as_str());
        i = i + 1;
        let ghost done = ids@.subrange(0, i as int).map_values(|id: ModuleId| id@);
        assert(done.drop_last() =~= ids@.subrange(0, i - 1).map_values(|id: ModuleId| id@));
        assert(out@ =~= joined_ids(done));
    }
    assert(ids@.subrange(0, ids@.len() as int) =~= ids@);
    string_of(out.as_slice())
}

/// What an autoload prefix must look like: empty, or valid segments each
/// followed by `\`.
pub open spec fn prefix_error(prefix: Seq<char>) -> Option<Seq<char>> {
    if prefix.len() == 0 {
        None
    } else if prefix.last() != '\\' {
        Some("non-empty prefixes must end with `\\`"@)
    } else if !valid_module_id(prefix.drop_last()) {
        Some("prefix contains an invalid namespace segment"@)
    } else {
        None
    }
}

/// Checks an autoload prefix.
pub fn validate_prefix(prefix: &str) -> (checked: Result<(), ModuleError>)
    ensures
        match prefix_error(prefix@) {
            None => checked is Ok,
            Some(m) => checked matches Err(ModuleError::InvalidAutoload { prefix: p, message })
                && p@ == prefix@ && message@ == m,
        },
{
    let chars = chars_of(prefix);
    if chars.len() == 0 {
        return Ok(());
    }
    if chars[chars.len() - 1] != '\\' {
        return Err(
            ModuleError::InvalidAutoload {
                prefix: prefix.to_owned(),
                message: "non-empty prefixes must end with `\\`".to_owned(),
            },
        );
    }
    let mut head: Vec<char> = Vec::new();
    let mut i: usize = 0;
    while i + 1 < chars.len()
        invariant
            chars@.len() > 0,
            i < chars@.len(),
            head@ == chars@.subrange(0, i as int),
        decreases chars.len() - i,
    {
        head.push(chars[i]);
        i = i + 1;
        assert(head@ =~= chars@.subrange(0, i as int));
    }
    assert(head@ =~= chars@.drop_last());
    if !valid_id_chars(head.as_slice()) {
        return Err(
            ModuleError::InvalidAutoload {
                prefix: prefix.to_owned(),
                message: "prefix contains an invalid namespace segment".to_owned(),
            },
        );
    }
    Ok(())
}

/// One prefix mapped to the directories that hold its modules.
#[derive(Clone, Debug, PartialEq, Eq)]
pub struct AutoloadMapping {
    pub prefix: String,
    pub directories: Vec<String>,
}

/// Every directory of a mapping is named.
pub open spec fn directories_named(directories: Seq<String>) -> bool {
    directories.len() > 0 && forall|i: int| 0 <= i < directories.len() ==> #[trigger] directories[i]@.len() > 0
}

impl AutoloadMapping {
    /// A prefix-to-directories mapping; refused for a malformed prefix or
    /// when no directory, or an empty one, is given.
    pub fn new(prefix: String, directories: Vec<String>) -> (mapping: Result<AutoloadMapping, ModuleError>)
        ensures
            match prefix_error(prefix@) {
                Some(m) => mapping matches Err(ModuleError::InvalidAutoload { prefix: p, message })
                    && p@ == prefix@ && message@ == m,
                None => if directories_named(directories@) {
                    mapping matches Ok(a) && a.prefix == prefix && a.directories == directories
                } else {
                    mapping matches Err(ModuleError::InvalidAutoload { prefix: p, message }) && p@ == prefix@
                        && message@ == "at least one non-empty directory is required"@
                },
            },
    {
        validate_prefix(prefix.as_str())?;
        let mut named = directories.len() > 0;
        let mut i: usize = 0;
        while i < directories.len()
            invariant
                i <= directories@.len(),
                named == (directories@.len() > 0 && forall|k: int| 0 <= k < i ==> #[trigger] directories@[k]@.len() > 0),
            decreases directories.len() - i,
        {
            let d = chars_of(directories[i].as_str());
            if d.len() == 0 {
                named = false;
            }
            i = i + 1;
        }
        if !named {
            return Err(
                ModuleError::InvalidAutoload {
                    prefix,
                    message: "at least one non-empty directory is required".to_owned(),
                },
            );
        }
        Ok(AutoloadMapping { prefix, directories })
    }
}

/// The position of the first `c` in `s` at or after `i`.
pub open spec fn first_index_from(s: Seq<char>, c: char, i: int) -> Option<int>
    decreases s.len() - i,
{
    if i < 0 || i >= s.len() {
        None
    } else if s[i] == c {
        Some(i)
    } else {
        first_index_from(s, c, i + 1)
    }
}

pub proof fn lemma_first_index_from(s: Seq<char>, c: char, i: int)
    requires
        0 <= i <= s.len(),
    ensures
        match first_index_from(s, c, i) {
            Some(k) => i <= k < s.len() && s[k] == c && forall|m: int| i <= m < k ==> s[m] != c,
            None => forall|m: int| i <= m < s.len() ==> s[m] != c,
        },
    decreases s.len() - i,
{
    if i < s.len() && s[i] != c {
        lemma_first_index_from(s, c, i + 1);
    }
}

/// The pieces of `s` between occurrences of `c`.
pub open spec fn split_on(s: Seq<char>, c: char) -> Seq<Seq<char>>
    decreases s.len(),
{
    match first_index_from(s, c, 0) {
        None => seq![s],
        Some(k) => {
            proof {
                lemma_first_index_from(s, c, 0);
            }
            seq![s.subrange(0, k)] + split_on(s.subrange(k + 1, s.len() as int), c)
        },
    }
}

/// Splitting at the first separator: the piece before it, then the
/// pieces of the rest.
proof fn lemma_split_step(s: Seq<char>, c: char, start: int, i: int)
    requires
        0 <= start <= i < s.len(),
        s[i] == c,
        forall|m: int| start <= m < i ==> s[m] != c,
    ensures
        split_on(s.subrange(start, s.len() as int), c) == seq![s.subrange(start, i)] + split_on(
            s.subrange(i + 1, s.len() as int),
            c,
        ),
{
    let t = s.subrange(start, s.len() as int);
    lemma_first_index_from(t, c, 0);
    match first_index_from(t, c, 0) {
        Some(k) => {
            if k < i - start {
                assert(t[k] == s[start + k]);
            }
            if k > i - start {
                assert(t[i - start] == c);
            }
            assert(k == i - start);
            assert(t.subrange(0, k) =~= s.subrange(start, i));
            assert(t.subrange(k + 1, t.len() as int) =~= s.subrange(i + 1, s.len() as int));
        },
        None => {
            assert(t[i - start] == c);
        },
    }
}

/// The last piece: no separator remains.
proof fn lemma_split_last(s: Seq<char>, c: char, start: int)
    requires
        0 <= start <= s.len(),
        forall|m: int| start <= m < s.len() ==> s[m] != c,
    ensures
        split_on(s.subrange(start, s.len() as int), c) == seq![s.subrange(start, s.len() as int)],
{
    let t = s.subrange(start, s.len() as int);
    lemma_first_index_from(t, c, 0);
    if first_index_from(t, c, 0) is Some {
        let k = first_index_from(t, c, 0)->0;
        assert(t[k] == s[start + k]);
    }
}

/// Splits `s` at every `c`.
fn split_chars(s: &[char], c: char) -> (pieces: Vec<Vec<char>>)
    ensures
        pieces@.map_values(|p: Vec<char>| p@) == split_on(s@, c),
{
    let mut pieces: Vec<Vec<char>> = Vec::new();
    let mut current: Vec<char> = Vec::new();
    let mut start: usize = 0;
    let mut i: usize = 0;
    assert(s@.subrange(0, s@.len() as int) =~= s@);
    while i < s.len()
        invariant
            start <= i <= s@.len(),
            current@ == s@.subrange(start as int, i as int),
            forall|m: int| start <= m < i ==> s@[m] != c,
            split_on(s@, c) == pieces@.map_values(|p: Vec<char>| p@) + split_on(s@.subrange(start as int, s@.len() as int), c),
        decreases s.len() - i,
    {
        if s[i] == c {
            proof {
                lemma_split_step(s@, c, start as int, i as int);
            }
            let ghost before = pieces@.map_values(|p: Vec<char>| p@);
            pieces.push(current);
            current = Vec::new();
            assert(pieces@.map_values(|p: Vec<char>| p@) =~= before.push(s@.subrange(start as int, i as int)));
            assert(before + (seq![s@.subrange(start as int, i as int)] + split_on(s@.subrange(i + 1, s@.len() as int), c))
                =~= before.push(s@.subrange(start as int, i as int)) + split_on(s@.subrange(i + 1, s@.len() as int), c));
            i = i + 1;
            start = i;
            assert(current@ =~= s@.subrange(start as int, i as int));
        } else {
            current.push(s[i]);
            i = i + 1;
            assert(current@ =~= s@.subrange(start as int, i as int));
        }
    }
    proof {
        lemma_split_last(s@, c, start as int);
    }
    let ghost before = pieces@.map_values(|p: Vec<char>| p@);
    pieces.push(current);
    assert(pieces@.map_values(|p: Vec<char>| p@) =~= before + seq![s@.subrange(start as int, s@.len() as int)]);
    pieces
}

/// A path piece that names something: not empty, `.` or `..`.
pub open spec fn normal_piece(p: Seq<char>) -> bool {
    p.len() > 0 && p != "."@ && p != ".."@
}

/// The pieces that name something, in order.
pub open spec fn keep_normal(pieces: Seq<Seq<char>>) -> Seq<Seq<char>>
    decreases pieces.len(),
{
    if pieces.len() == 0 {
        Seq::empty()
    } else if normal_piece(pieces.last()) {
        keep_normal(pieces.drop_last()).push(pieces.last())
    } else {
        keep_normal(pieces.drop_last())
    }
}

pub proof fn lemma_keep_normal_len(pieces: Seq<Seq<char>>)
    ensures
        keep_normal(pieces).len() <= pieces.len(),
    decreases pieces.len(),
{
    if pieces.len() > 0 {
        lemma_keep_normal_len(pieces.drop_last());
    }
}

/// Pieces joined by a separator.
pub open spec fn joined(pieces: Seq<Seq<char>>, separator: Seq<char>) -> Seq<char>
    decreases pieces.len(),
{
    if pieces.len() == 0 {
        Seq::empty()
    } else if pieces.len() == 1 {
        pieces[0]
    } else {
        joined(pieces.drop_last(), separator) + separator + pieces.last()
    }
}

fn is_normal_piece(p: &[char]) -> (normal: bool)
    ensures
        normal == normal_piece(p@),
{
    proof {
        reveal_strlit(".");
        reveal_strlit("..");
    }
    if p.len() == 0 {
        return false;
    }
    if p.len() == 1 && p[0] == '.' {
        assert(p@ =~= "."@);
        return false;
    }
    if p.len() == 2 && p[0] == '.' && p[1] == '.' {
        assert(p@ =~= ".."@);
        return false;
    }
    assert(p@ != "."@ && p@ != ".."@) by {
        if p@ == "."@ {
            assert(p@.len() == 1 && p@[0] == '.');
        }
        if p@ == ".."@ {
            assert(p@.len() == 2 && p@[0] == '.' && p@[1] == '.');
        }
    }
    true
}

/// The pieces that name something.
fn normal_pieces(pieces: &Vec<Vec<char>>) -> (normal: Vec<Vec<char>>)
    ensures
        normal@.map_values(|p: Vec<char>| p@) == keep_normal(pieces@.map_values(|p: Vec<char>| p@)),
{
    let mut out: Vec<Vec<char>> = Vec::new();
    let mut i: usize = 0;
    while i < pieces.len()
        invariant
            i <= pieces@.len(),
            out@.map_values(|p: Vec<char>| p@) == keep_normal(pieces@.subrange(0, i as int).map_values(|p: Vec<char>| p@)),
        decreases pieces.len() - i,
    {
        let ghost done = pieces@.subrange(0, i as int + 1).map_values(|p: Vec<char>| p@);
        let ghost prev = out@.map_values(|p: Vec<char>| p@);
        assert(done.drop_last() =~= pieces@.subrange(0, i as int).map_values(|p: Vec<char>| p@));
        assert(done.last() == pieces@[i as int]@);
        if is_normal_piece(pieces[i].as_slice()) {
            let piece = pieces[i].clone();
            out.push(piece);
            assert(out@.map_values(|p: Vec<char>| p@) =~= prev.push(pieces@[i as int]@));
        }
        i = i + 1;
    }
    assert(pieces@.subrange(0, pieces@.len() as int) =~= pieces@);
    out
}

/// Pieces joined by `separator`.
fn join_all(pieces: &Vec<Vec<char>>, separator: &str) -> (text: Vec<char>)
    ensures
        text@ == joined(pieces@.map_values(|p: Vec<char>| p@), separator@),
{
    let mut out: Vec<char> = Vec::new();
    let mut i: usize = 0;
    while i < pieces.len()
        invariant
            i <= pieces@.len(),
            out@ == joined(pieces@.subrange(0, i as int).map_values(|p: Vec<char>| p@), separator@),
        decreases pieces.len() - i,
    {
        let ghost done = pieces@.subrange(0, i as int + 1).map_values(|p: Vec<char>| p@);
        assert(done.drop_last() =~= pieces@.subrange(0, i as int).map_values(|p: Vec<char>| p@));
        if i > 0 {
            push_str(&mut out, separator);
        }
        push_chars(&mut out, pieces[i].as_slice());
        i = i + 1;
        assert(out@ =~= joined(done, separator@));
    }
    assert(pieces@.subrange(0, pieces@.len() as int) =~= pieces@);
    out
}

/// The normal pieces joined by `separator`.
fn join_normal(pieces: &Vec<Vec<char>>, separator: &str) -> (text: Vec<char>)
    ensures
        text@ == joined(keep_normal(pieces@.map_values(|p: Vec<char>| p@)), separator@),
{
    let normal = normal_pieces(pieces);
    join_all(&normal, separator)
}

/// The ID of an entry file outside every mapping: `@entry/` and the
/// file's normal path components joined by `/`.
pub open spec fn synthetic_entry_id(project_relative: Seq<char>) -> Seq<char> {
    "@entry/"@ + joined(keep_normal(split_on(project_relative, '/')), "/"@)
}

impl ModuleId {
    /// The synthetic ID of an entry file given by its project-relative
    /// path.
    pub fn synthetic_entry(project_relative: &str) -> (id: ModuleId)
        ensures
            id@ == synthetic_entry_id(project_relative@),
    {
        let chars = chars_of(project_relative);
        let pieces = split_chars(chars.as_slice(), '/');
        let joined_text = join_normal(&pieces, "/");
        let mut out: Vec<char> = Vec::new();
        push_str(&mut out, "@entry/");
        push_chars(&mut out, joined_text.as_slice());
        ModuleId(string_of(out.as_slice()))
    }
}

/// A path that leaves the mapped directory or is not relative: it starts
/// at the root or with `.`, or has a `..` component.
pub open spec fn path_rejected(pieces: Seq<Seq<char>>) -> bool {
    ||| (pieces.len() > 1 && pieces[0].len() == 0)
    ||| (pieces.len() > 0 && pieces[0] == "."@)
    ||| exists|i: int| 0 <= i < pieces.len() && #[trigger] pieces[i] == ".."@
}

/// A file name without its extension (a leading dot starts no extension).
pub open spec fn file_stem(name: Seq<char>) -> Seq<char> {
    match last_index_before(name, '.', name.len() as int) {
        Some(k) => if k > 0 {
            name.subrange(0, k)
        } else {
            name
        },
        None => name,
    }
}

/// The pieces with the extension taken off the last.
pub open spec fn without_extension(pieces: Seq<Seq<char>>) -> Seq<Seq<char>> {
    if pieces.len() == 0 {
        pieces
    } else {
        pieces.update(pieces.len() - 1, file_stem(pieces.last()))
    }
}

/// The module ID of a file found under a mapped directory, or the text
/// that was refused: the relative path when it is not a plain relative
/// path, else the ID that is not valid.
pub open spec fn module_id_of(prefix: Seq<char>, relative: Seq<char>) -> Result<Seq<char>, Seq<char>> {
    let pieces = split_on(relative, '/');
    if path_rejected(pieces) {
        Err(relative)
    } else {
        let text = prefix + joined(without_extension(keep_normal(pieces)), "\\"@);
        if valid_module_id(text) {
            Ok(text)
        } else {
            Err(text)
        }
    }
}

fn stem_of(name: &[char]) -> (stem: Vec<char>)
    ensures
        stem@ == file_stem(name@),
{
    match last_index_of(name, '.') {
        Some(k) => {
            if k > 0 {
                crate::text::copy_chars(name, 0, k)
            } else {
                vstd::slice::slice_to_vec(name)
            }
        },
        None => vstd::slice::slice_to_vec(name),
    }
}

fn chars_are(p: &[char], text: &str) -> (same: bool)
    ensures
        same == (p@ == text@),
{
    let t = chars_of(text);
    chars_equal(p, t.as_slice())
}

fn rejected(pieces: &Vec<Vec<char>>) -> (r: bool)
    ensures
        r == path_rejected(pieces@.map_values(|p: Vec<char>| p@)),
{
    let ghost view = pieces@.map_values(|p: Vec<char>| p@);
    if pieces.len() > 1 && pieces[0].len() == 0 {
        return true;
    }
    if pieces.len() > 0 && chars_are(pieces[0].as_slice(), ".") {
        return true;
    }
    let mut i: usize = 0;
    while i < pieces.len()
        invariant
            i <= pieces@.len(),
            view == pieces@.map_values(|p: Vec<char>| p@),
            forall|k: int| 0 <= k < i ==> #[trigger] view[k] != ".."@,
        decreases pieces.len() - i,
    {
        if chars_are(pieces[i].as_slice(), "..") {
            assert(view[i as int] == ".."@);
            return true;
        }
        i = i + 1;
    }
    false
}

/// The module ID of a file under a mapped directory, from the mapping's
/// prefix and the file's path relative to the directory.
pub fn module_id(prefix: &str, relative: &str) -> (id: Result<ModuleId, ModuleError>)
    ensures
        match module_id_of(prefix@, relative@) {
            Ok(text) => id matches Ok(i) && i@ == text,
            Err(text) => id matches Err(ModuleError::InvalidModuleId(t)) && t@ == text,
        },
{
    let chars = chars_of(relative);
    let pieces = split_chars(chars.as_slice(), '/');
    if rejected(&pieces) {
        return Err(ModuleError::InvalidModuleId(relative.to_owned()));
    }
    let mut normal = normal_pieces(&pieces);
    let ghost kept = normal@.map_values(|p: Vec<char>| p@);
    let n = normal.len();
    if n > 0 {
        let stem = stem_of(normal[n - 1].as_slice());
        normal.set(n - 1, stem);
        assert(normal@.map_values(|p: Vec<char>| p@) =~= without_extension(kept));
    } else {
        assert(normal@.map_values(|p: Vec<char>| p@) =~= without_extension(kept));
    }
    let body = join_all(&normal, "\\");
    let mut text: Vec<char> = Vec::new();
    push_str(&mut text, prefix);
    push_chars(&mut text, body.as_slice());
    ModuleId::new(string_of(text.as_slice()))
}

/// Text order from position `i` on: code point by code point, a proper
/// prefix first. `ModuleId` orders by it.
pub open spec fn text_lt_at(a: Seq<char>, b: Seq<char>, i: int) -> bool
    decreases a.len() - i,
{
    if i < 0 {
        false
    } else if i >= a.len() {
        i < b.len()
    } else if i >= b.len() {
        false
    } else if a[i] != b[i] {
        (a[i] as int) < (b[i] as int)
    } else {
        text_lt_at(a, b, i + 1)
    }
}

/// Text order.
pub open spec fn text_lt(a: Seq<char>, b: Seq<char>) -> bool {
    text_lt_at(a, b, 0)
}

pub proof fn lemma_text_lt_irreflexive(a: Seq<char>, i: int)
    requires
        0 <= i,
    ensures
        !text_lt_at(a, a, i),
    decreases a.len() - i,
{
    if i < a.len() {
        lemma_text_lt_irreflexive(a, i + 1);
    }
}

pub proof fn lemma_text_lt_asymmetric(a: Seq<char>, b: Seq<char>, i: int)
    requires
        0 <= i,
        text_lt_at(a, b, i),
    ensures
        !text_lt_at(b, a, i),
    decreases a.len() - i,
{
    if i < a.len() && i < b.len() && a[i] == b[i] {
        lemma_text_lt_asymmetric(a, b, i + 1);
    }
}

pub proof fn lemma_text_lt_transitive(a: Seq<char>, b: Seq<char>, c: Seq<char>, i: int)
    requires
        0 <= i,
        text_lt_at(a, b, i),
        text_lt_at(b, c, i),
    ensures
        text_lt_at(a, c, i),
    decreases a.len() - i,
{
    if i < a.len() && i < b.len() && i < c.len() && a[i] == b[i] && b[i] == c[i] {
        lemma_text_lt_transitive(a, b, c, i + 1);
    }
}

pub proof fn lemma_text_lt_total(a: Seq<char>, b: Seq<char>, i: int)
    requires
        0 <= i <= a.len(),
        i <= b.len(),
        a.subrange(0, i) == b.subrange(0, i),
        a != b,
    ensures
        text_lt_at(a, b, i) || text_lt_at(b, a, i),
    decreases a.len() - i,
{
    if i < a.len() && i < b.len() && a[i] == b[i] {
        assert(a.subrange(0, i + 1) =~= a.subrange(0, i).push(a[i]));
        assert(b.subrange(0, i + 1) =~= b.subrange(0, i).push(b[i]));
        lemma_text_lt_total(a, b, i + 1);
    } else if i >= a.len() && i >= b.len() {
        assert(a =~= a.subrange(0, i));
        assert(b =~= b.subrange(0, i));
    }
}

/// Two texts are ordered one way or the other, or equal.
pub proof fn lemma_text_order(a: Seq<char>, b: Seq<char>)
    ensures
        !text_lt(a, a),
        text_lt(a, b) ==> !text_lt(b, a),
        a != b ==> (text_lt(a, b) || text_lt(b, a)),
{
    lemma_text_lt_irreflexive(a, 0);
    if text_lt(a, b) {
        lemma_text_lt_asymmetric(a, b, 0);
    }
    if a != b {
        assert(a.subrange(0, 0) =~= b.subrange(0, 0));
        lemma_text_lt_total(a, b, 0);
    }
}

/// Compares texts in text order.
pub fn text_less(a: &[char], b: &[char]) -> (less: bool)
    ensures
        less == text_lt(a@, b@),
{
    let mut i: usize = 0;
    while i < a.len() && i < b.len()
        invariant
            i <= a@.len(),
            i <= b@.len(),
            text_lt(a@, b@) == text_lt_at(a@, b@, i as int),
        decreases a.len() - i,
    {
        if a[i] != b[i] {
            return a[i] < b[i];
        }
        i = i + 1;
    }
    i >= a.len() && i < b.len()
}

/// A module found by a source provider.
#[derive(Debug, PartialEq, Eq)]
pub struct ModulePath {
    pub id: ModuleId,
    pub path: String,
    pub canonical_path: String,
    pub expected_namespace: String,
    pub is_entry: bool,
}

impl Clone for ModulePath {
    fn clone(&self) -> (copy: Self)
        ensures
            copy.id@ == self.id@,
            copy.path == self.path,
            copy.canonical_path == self.canonical_path,
            copy.expected_namespace == self.expected_namespace,
            copy.is_entry == self.is_entry,
    {
        ModulePath {
            id: self.id.clone(),
            path: self.path.clone(),
            canonical_path: self.canonical_path.clone(),
            expected_namespace: self.expected_namespace.clone(),
            is_entry: self.is_entry,
        }
    }
}

/// A found module as plain values.
pub struct ModuleRecord {
    pub id: Seq<char>,
    pub path: Seq<char>,
    pub canonical_path: Seq<char>,
    pub expected_namespace: Seq<char>,
    pub is_entry: bool,
}

pub open spec fn record_of(m: ModulePath) -> ModuleRecord {
    ModuleRecord {
        id: m.id@,
        path: m.path@,
        canonical_path: m.canonical_path@,
        expected_namespace: m.expected_namespace@,
        is_entry: m.is_entry,
    }
}

pub open spec fn records_of(ms: Seq<ModulePath>) -> Seq<ModuleRecord> {
    ms.map_values(|m: ModulePath| record_of(m))
}

/// Records strictly ordered by ID: each ID once, in text order.
pub open spec fn sorted_by_id(rs: Seq<ModuleRecord>) -> bool {
    forall|i: int, j: int| 0 <= i < j < rs.len() ==> text_lt(#[trigger] rs[i].id, #[trigger] rs[j].id)
}

/// Where a record with `id` goes: the first position whose ID is not
/// smaller, from `i` on.
pub open spec fn slot_from(rs: Seq<ModuleRecord>, id: Seq<char>, i: int) -> int
    decreases rs.len() - i,
{
    if i < 0 || i >= rs.len() {
        rs.len() as int
    } else if !text_lt(rs[i].id, id) {
        i
    } else {
        slot_from(rs, id, i + 1)
    }
}

pub open spec fn slot(rs: Seq<ModuleRecord>, id: Seq<char>) -> int {
    slot_from(rs, id, 0)
}

pub proof fn lemma_slot_from(rs: Seq<ModuleRecord>, id: Seq<char>, i: int)
    requires
        0 <= i <= rs.len(),
    ensures
        i <= slot_from(rs, id, i) <= rs.len(),
        forall|k: int| i <= k < slot_from(rs, id, i) ==> text_lt(#[trigger] rs[k].id, id),
        slot_from(rs, id, i) < rs.len() ==> !text_lt(rs[slot_from(rs, id, i)].id, id),
    decreases rs.len() - i,
{
    if i < rs.len() && text_lt(rs[i].id, id) {
        lemma_slot_from(rs, id, i + 1);
    }
}

/// The record with `id`, if any (in sorted records it is at its slot).
pub open spec fn record_with_id(rs: Seq<ModuleRecord>, id: Seq<char>) -> Option<ModuleRecord> {
    let k = slot(rs, id);
    if k < rs.len() && rs[k].id == id {
        Some(rs[k])
    } else {
        None
    }
}

/// Sorted records with `r` put in place: it replaces a record with its ID
/// or is inserted where the order puts it.
pub open spec fn put_record(rs: Seq<ModuleRecord>, r: ModuleRecord) -> Seq<ModuleRecord> {
    let k = slot(rs, r.id);
    if k < rs.len() && rs[k].id == r.id {
        rs.update(k, r)
    } else {
        rs.insert(k, r)
    }
}

/// Putting a record keeps records sorted by ID.
pub proof fn lemma_put_record_sorted(rs: Seq<ModuleRecord>, r: ModuleRecord)
    requires
        sorted_by_id(rs),
    ensures
        sorted_by_id(put_record(rs, r)),
        put_record(rs, r).contains(r),
        forall|i: int| 0 <= i < rs.len() && rs[i].id != r.id ==> put_record(rs, r).contains(#[trigger] rs[i]),
        forall|x: ModuleRecord| #[trigger] put_record(rs, r).contains(x) ==> x == r || rs.contains(x),
{
    lemma_slot_from(rs, r.id, 0);
    let k = slot(rs, r.id);
    let out = put_record(rs, r);
    if k < rs.len() && rs[k].id == r.id {
        assert forall|i: int, j: int| 0 <= i < j < out.len() implies text_lt(#[trigger] out[i].id, #[trigger] out[j].id) by {
            assert(text_lt(rs[i].id, rs[j].id));
        }
        assert(out[k] == r);
        assert forall|i: int| 0 <= i < rs.len() && rs[i].id != r.id implies out.contains(#[trigger] rs[i]) by {
            assert(out[i] == rs[i]);
        }
        assert forall|x: ModuleRecord| #[trigger] out.contains(x) implies x == r || rs.contains(x) by {
            let j = choose|j: int| 0 <= j < out.len() && out[j] == x;
            if j != k {
                assert(rs[j] == x);
            }
        }
    } else {
        if k < rs.len() {
            lemma_text_order(rs[k].id, r.id);
        }
        assert forall|i: int, j: int| 0 <= i < j < out.len() implies text_lt(#[trigger] out[i].id, #[trigger] out[j].id) by {
            if j < k {
                assert(text_lt(rs[i].id, rs[j].id));
            } else if j == k {
                assert(text_lt(rs[i].id, r.id));
            } else if i < k {
                assert(out[j] == rs[j - 1]);
                if j - 1 == k {
                    lemma_text_lt_transitive(rs[i].id, r.id, rs[k].id, 0);
                } else {
                    assert(text_lt(rs[i].id, rs[j - 1].id));
                }
            } else if i == k {
                assert(out[j] == rs[j - 1]);
                if j - 1 > k {
                    assert(text_lt(rs[k].id, rs[j - 1].id));
                    lemma_text_lt_transitive(r.id, rs[k].id, rs[j - 1].id, 0);
                }
            } else {
                assert(text_lt(rs[i - 1].id, rs[j - 1].id));
            }
        }
        assert(out[k] == r);
        assert forall|i: int| 0 <= i < rs.len() && rs[i].id != r.id implies out.contains(#[trigger] rs[i]) by {
            if i < k {
                assert(out[i] == rs[i]);
            } else {
                assert(out[i + 1] == rs[i]);
            }
        }
        assert forall|x: ModuleRecord| #[trigger] out.contains(x) implies x == r || rs.contains(x) by {
            let j = choose|j: int| 0 <= j < out.len() && out[j] == x;
            if j < k {
                assert(rs[j] == x);
            } else if j > k {
                assert(rs[j - 1] == x);
            }
        }
    }
}

fn find_slot(modules: &Vec<ModulePath>, id: &ModuleId) -> (k: usize)
    ensures
        k == slot(records_of(modules@), id@),
        k <= modules@.len(),
{
    let ghost rs = records_of(modules@);
    proof {
        lemma_slot_from(rs, id@, 0);
    }
    let key = chars_of(id.as_str());
    let mut i: usize = 0;
    while i < modules.len()
        invariant
            i <= modules@.len(),
            rs == records_of(modules@),
            key@ == id@,
            slot(rs, id@) == slot_from(rs, id@, i as int),
        decreases modules.len() - i,
    {
        let other = chars_of(modules[i].id.as_str());
        assert(rs[i as int].id == modules@[i as int].id@);
        if !text_less(other.as_slice(), key.as_slice()) {
            return i;
        }
        i = i + 1;
    }
    i
}

fn same_text(a: &str, b: &str) -> (same: bool)
    ensures
        same == (a@ == b@),
{
    str_eq(a, b)
}

/// Puts a module in its place among modules sorted by ID.
fn put_module(modules: &mut Vec<ModulePath>, m: ModulePath)
    ensures
        records_of(final(modules)@) == put_record(records_of(old(modules)@), record_of(m)),
{
    let k = find_slot(modules, &m.id);
    let ghost rs = records_of(modules@);
    if k < modules.len() && same_text(modules[k].id.as_str(), m.id.as_str()) {
        modules.set(k, m);
        assert(records_of(modules@) =~= rs.update(k as int, record_of(m)));
    } else {
        modules.insert(k, m);
        assert(records_of(modules@) =~= rs.insert(k as int, record_of(m)));
    }
}

/// A `.thp` file found under a mapped directory.
pub struct FoundFile {
    /// The prefix of the mapping that found it.
    pub prefix: String,
    pub path: String,
    pub canonical_path: String,
    /// Its path relative to the mapped directory.
    pub relative: String,
    /// Whether it is the entry file.
    pub matches_entry: bool,
}

/// The project's entry file.
pub struct EntryFile {
    pub path: String,
    pub canonical_path: String,
    /// Its path relative to the project root.
    pub relative: String,
}

/// Why found files cannot be indexed.
pub enum IndexFailure {
    InvalidId(Seq<char>),
    AmbiguousFile { path: Seq<char>, first: Seq<char>, second: Seq<char> },
    AmbiguousModule { id: Seq<char>, first: Seq<char>, second: Seq<char> },
}

/// The position of the record for canonical path `c`, from `i` on.
pub open spec fn canonical_index_from(rs: Seq<ModuleRecord>, c: Seq<char>, i: int) -> Option<int>
    decreases rs.len() - i,
{
    if i < 0 || i >= rs.len() {
        None
    } else if rs[i].canonical_path == c {
        Some(i)
    } else {
        canonical_index_from(rs, c, i + 1)
    }
}

pub proof fn lemma_canonical_index_from(rs: Seq<ModuleRecord>, c: Seq<char>, i: int)
    requires
        0 <= i <= rs.len(),
    ensures
        match canonical_index_from(rs, c, i) {
            Some(k) => i <= k < rs.len() && rs[k].canonical_path == c,
            None => forall|m: int| i <= m < rs.len() ==> #[trigger] rs[m].canonical_path != c,
        },
    decreases rs.len() - i,
{
    if i < rs.len() && rs[i].canonical_path != c {
        lemma_canonical_index_from(rs, c, i + 1);
    }
}

/// What one found file does to the index.
pub open spec fn index_step(rs: Seq<ModuleRecord>, f: FoundFile) -> Result<Seq<ModuleRecord>, IndexFailure> {
    match module_id_of(f.prefix@, f.relative@) {
        Err(t) => Err(IndexFailure::InvalidId(t)),
        Ok(id) => match canonical_index_from(rs, f.canonical_path@, 0) {
            Some(k) => if rs[k].id != id {
                Err(IndexFailure::AmbiguousFile { path: f.canonical_path@, first: rs[k].id, second: id })
            } else {
                Ok(rs)
            },
            None => match record_with_id(rs, id) {
                Some(r) => if r.canonical_path != f.canonical_path@ {
                    Err(IndexFailure::AmbiguousModule { id, first: r.path, second: f.path@ })
                } else {
                    Ok(rs)
                },
                None => Ok(
                    put_record(
                        rs,
                        ModuleRecord {
                            id,
                            path: f.path@,
                            canonical_path: f.canonical_path@,
                            expected_namespace: namespace_of(id),
                            is_entry: f.matches_entry,
                        },
                    ),
                ),
            },
        },
    }
}

/// The index of the found files, in the order they were found.
pub open spec fn index_files(files: Seq<FoundFile>) -> Result<Seq<ModuleRecord>, IndexFailure>
    decreases files.len(),
{
    if files.len() == 0 {
        Ok(Seq::empty())
    } else {
        match index_files(files.drop_last()) {
            Err(e) => Err(e),
            Ok(rs) => index_step(rs, files.last()),
        }
    }
}

/// The index with the entry marked: the found module that is the entry
/// file, or a synthetic entry module.
pub open spec fn with_entry(rs: Seq<ModuleRecord>, entry: EntryFile) -> Seq<ModuleRecord> {
    if canonical_index_from(rs, entry.canonical_path@, 0) is Some {
        rs.map_values(|r: ModuleRecord| ModuleRecord { is_entry: r.canonical_path == entry.canonical_path@, ..r })
    } else {
        put_record(
            rs,
            ModuleRecord {
                id: synthetic_entry_id(entry.relative@),
                path: entry.path@,
                canonical_path: entry.canonical_path@,
                expected_namespace: Seq::empty(),
                is_entry: true,
            },
        )
    }
}

/// The error that reports an index failure.
pub open spec fn reports(e: ModuleError, f: IndexFailure) -> bool {
    match f {
        IndexFailure::InvalidId(t) => e matches ModuleError::InvalidModuleId(m) && m@ == t,
        IndexFailure::AmbiguousFile { path, first, second } => e matches ModuleError::AmbiguousFile {
            path: p,
            first: a,
            second: b,
        } && p@ == path && a@ == first && b@ == second,
        IndexFailure::AmbiguousModule { id, first, second } => e matches ModuleError::AmbiguousModule {
            id: i,
            first: a,
            second: b,
        } && i@ == id && a@ == first && b@ == second,
    }
}

fn find_canonical(modules: &Vec<ModulePath>, canonical: &str) -> (k: Option<usize>)
    ensures
        match canonical_index_from(records_of(modules@), canonical@, 0) {
            Some(i) => k matches Some(p) && p == i && i < modules@.len(),
            None => k is None,
        },
{
    let ghost rs = records_of(modules@);
    proof {
        lemma_canonical_index_from(rs, canonical@, 0);
    }
    let mut i: usize = 0;
    while i < modules.len()
        invariant
            i <= modules@.len(),
            rs == records_of(modules@),
            canonical_index_from(rs, canonical@, 0) == canonical_index_from(rs, canonical@, i as int),
        decreases modules.len() - i,
    {
        assert(rs[i as int].canonical_path == modules@[i as int].canonical_path@);
        if same_text(modules[i].canonical_path.as_str(), canonical) {
            return Some(i);
        }
        i = i + 1;
    }
    None
}

/// Indexes the files found under the mapped directories, in the order
/// found, and marks the entry: the modules in ID order, or the first
/// invalid ID, file mapped to two IDs or ID provided by two files.
pub fn index_modules(files: &Vec<FoundFile>, entry: &EntryFile) -> (modules: Result<Vec<ModulePath>, ModuleError>)
    ensures
        match index_files(files@) {
            Ok(rs) => modules matches Ok(v) && records_of(v@) == with_entry(rs, *entry),
            Err(f) => modules matches Err(e) && reports(e, f),
        },
{
    let mut modules: Vec<ModulePath> = Vec::new();
    let mut i: usize = 0;
    assert(records_of(modules@) =~= Seq::<ModuleRecord>::empty());
    while i < files.len()
        invariant
            i <= files@.len(),
            index_files(files@.subrange(0, i as int)) == Ok::<Seq<ModuleRecord>, IndexFailure>(records_of(modules@)),
        decreases files.len() - i,
    {
        let f = &files[i];
        let ghost rs = records_of(modules@);
        assert(files@.subrange(0, i as int + 1).drop_last() =~= files@.subrange(0, i as int));
        assert(files@.subrange(0, i as int + 1).last() == files@[i as int]);
        let id = match module_id(f.prefix.as_str(), f.relative.as_str()) {
            Ok(id) => id,
            Err(e) => {
                proof {
                    lemma_index_files_error(files@, i as int + 1);
                }
                return Err(e);
            },
        };
        match find_canonical(&modules, f.canonical_path.as_str()) {
            Some(k) => {
                if !same_text(modules[k].id.as_str(), id.as_str()) {
                    let first = modules[k].id.clone();
                    proof {
                        lemma_index_files_error(files@, i as int + 1);
                    }
                    return Err(ModuleError::AmbiguousFile { path: f.canonical_path.clone(), first, second: id });
                }
            },
            None => {
                let k = find_slot(&modules, &id);
                if k < modules.len() && same_text(modules[k].id.as_str(), id.as_str()) {
                    if !same_text(modules[k].canonical_path.as_str(), f.canonical_path.as_str()) {
                        let first = modules[k].path.clone();
                        proof {
                            lemma_index_files_error(files@, i as int + 1);
                        }
                        return Err(ModuleError::AmbiguousModule { id, first, second: f.path.clone() });
                    }
                } else {
                    let expected_namespace = id.namespace();
                    let m = ModulePath {
                        id,
                        path: f.path.clone(),
                        canonical_path: f.canonical_path.clone(),
                        expected_namespace,
                        is_entry: f.matches_entry,
                    };
                    put_module(&mut modules, m);
                }
            },
        }
        i = i + 1;
    }
    assert(files@.subrange(0, files@.len() as int) =~= files@);
    let ghost rs = records_of(modules@);
    match find_canonical(&modules, entry.canonical_path.as_str()) {
        Some(_) => {
            let mut j: usize = 0;
            while j < modules.len()
                invariant
                    j <= modules@.len(),
                    modules@.len() == rs.len(),
                    forall|k: int| 0 <= k < j ==> #[trigger] record_of(modules@[k]) == (ModuleRecord {
                        is_entry: rs[k].canonical_path == entry.canonical_path@,
                        ..rs[k]
                    }),
                    forall|k: int| j <= k < modules@.len() ==> #[trigger] record_of(modules@[k]) == rs[k],
                decreases modules.len() - j,
            {
                let mut m = modules[j].clone();
                m.is_entry = same_text(m.canonical_path.as_str(), entry.canonical_path.as_str());
                let ghost before = modules@;
                assert(record_of(before[j as int]) == rs[j as int]);
                modules.set(j, m);
                assert(record_of(modules@[j as int]) == (ModuleRecord {
                    is_entry: rs[j as int].canonical_path == entry.canonical_path@,
                    ..rs[j as int]
                }));
                assert forall|k: int| 0 <= k < j implies #[trigger] record_of(modules@[k]) == (ModuleRecord {
                    is_entry: rs[k].canonical_path == entry.canonical_path@,
                    ..rs[k]
                }) by {
                    assert(modules@[k] == before[k]);
                }
                j = j + 1;
            }
            assert(records_of(modules@) =~= with_entry(rs, *entry));
        },
        None => {
            let id = ModuleId::synthetic_entry(entry.relative.as_str());
            let empty = String::new();
            assert(empty@ =~= Seq::<char>::empty());
            let m = ModulePath {
                id,
                path: entry.path.clone(),
                canonical_path: entry.canonical_path.clone(),
                expected_namespace: empty,
                is_entry: true,
            };
            put_module(&mut modules, m);
        },
    }
    Ok(modules)
}

/// An error partway through the files is the result.
proof fn lemma_index_files_error(files: Seq<FoundFile>, n: int)
    requires
        0 < n <= files.len(),
        index_files(files.subrange(0, n)) is Err,
    ensures
        index_files(files) == index_files(files.subrange(0, n)),
    decreases files.len() - n,
{
    if n < files.len() {
        lemma_index_files_error_extend(files, n);
        lemma_index_files_error(files, n + 1);
    } else {
        assert(files.subrange(0, n) =~= files);
    }
}

proof fn lemma_index_files_error_extend(files: Seq<FoundFile>, n: int)
    requires
        0 < n < files.len(),
        index_files(files.subrange(0, n)) is Err,
    ensures
        index_files(files.subrange(0, n + 1)) == index_files(files.subrange(0, n)),
{
    assert(files.subrange(0, n + 1).drop_last() =~= files.subrange(0, n));
}

/// Indexing keeps modules in strict ID order, each ID once, and so does
/// marking the entry: modules are discovered in a deterministic logical
/// order.
pub proof fn lemma_index_sorted(files: Seq<FoundFile>, entry: EntryFile)
    ensures
        index_files(files) matches Ok(rs) ==> sorted_by_id(rs) && sorted_by_id(with_entry(rs, entry)),
    decreases files.len(),
{
    if files.len() > 0 {
        lemma_index_sorted(files.drop_last(), entry);
        if let Ok(prev) = index_files(files.drop_last()) {
            let f = files.last();
            if let Ok(id) = module_id_of(f.prefix@, f.relative@) {
                if canonical_index_from(prev, f.canonical_path@, 0) is None && record_with_id(prev, id) is None {
                    lemma_put_record_sorted(
                        prev,
                        ModuleRecord {
                            id,
                            path: f.path@,
                            canonical_path: f.canonical_path@,
                            expected_namespace: namespace_of(id),
                            is_entry: f.matches_entry,
                        },
                    );
                }
            }
        }
    }
    if let Ok(rs) = index_files(files) {
        if canonical_index_from(rs, entry.canonical_path@, 0) is Some {
            let marked = with_entry(rs, entry);
            assert forall|i: int, j: int| 0 <= i < j < marked.len() implies text_lt(
                #[trigger] marked[i].id,
                #[trigger] marked[j].id,
            ) by {
                assert(text_lt(rs[i].id, rs[j].id));
            }
        } else {
            lemma_put_record_sorted(
                rs,
                ModuleRecord {
                    id: synthetic_entry_id(entry.relative@),
                    path: entry.path@,
                    canonical_path: entry.canonical_path@,
                    expected_namespace: Seq::empty(),
                    is_entry: true,
                },
            );
        }
    }
}

/// The sources of an in-memory provider, by position among the sorted
/// records, after putting `r` with source `source`.
pub open spec fn put_source(sources: Seq<Seq<char>>, rs: Seq<ModuleRecord>, r: ModuleRecord, source: Seq<char>) -> Seq<
    Seq<char>,
> {
    let k = slot(rs, r.id);
    if k < rs.len() && rs[k].id == r.id {
        sources.update(k, source)
    } else {
        sources.insert(k, source)
    }
}

/// Modules given by their sources, for tests and embedding.
pub struct InMemorySourceProvider {
    modules: Vec<ModulePath>,
    sources: Vec<String>,
}

impl InMemorySourceProvider {
    /// The modules, in ID order.
    pub closed spec fn records(&self) -> Seq<ModuleRecord> {
        records_of(self.modules@)
    }

    /// The sources, in the order of `records`.
    pub closed spec fn sources(&self) -> Seq<Seq<char>> {
        self.sources@.map_values(|s: String| s@)
    }

    pub closed spec fn wf(&self) -> bool {
        &&& self.modules@.len() == self.sources@.len()
        &&& sorted_by_id(records_of(self.modules@))
    }

    /// No modules.
    pub fn new() -> (provider: InMemorySourceProvider)
        ensures
            provider.wf(),
            provider.records().len() == 0,
            provider.sources().len() == 0,
    {
        let provider = InMemorySourceProvider { modules: Vec::new(), sources: Vec::new() };
        assert(records_of(provider.modules@) =~= Seq::<ModuleRecord>::empty());
        provider
    }

    /// Adds a module, or replaces the module with the same ID.
    pub fn insert(&mut self, id: ModuleId, path: String, expected_namespace: String, source: String, is_entry: bool)
        requires
            old(self).wf(),
        ensures
            final(self).wf(),
            final(self).records() == put_record(
                old(self).records(),
                ModuleRecord {
                    id: id@,
                    path: path@,
                    canonical_path: path@,
                    expected_namespace: expected_namespace@,
                    is_entry,
                },
            ),
            final(self).sources() == put_source(
                old(self).sources(),
                old(self).records(),
                ModuleRecord {
                    id: id@,
                    path: path@,
                    canonical_path: path@,
                    expected_namespace: expected_namespace@,
                    is_entry,
                },
                source@,
            ),
    {
        let ghost rs = records_of(self.modules@);
        let ghost srcs = self.sources@.map_values(|s: String| s@);
        let canonical_path = path.clone();
        let m = ModulePath { id, path, canonical_path, expected_namespace, is_entry };
        let ghost r = record_of(m);
        proof {
            lemma_put_record_sorted(rs, r);
        }
        let k = find_slot(&self.modules, &m.id);
        if k < self.modules.len() && same_text(self.modules[k].id.as_str(), m.id.as_str()) {
            self.modules.set(k, m);
            self.sources.set(k, source);
            assert(records_of(self.modules@) =~= rs.update(k as int, r));
            assert(self.sources@.map_values(|s: String| s@) =~= srcs.update(k as int, source@));
        } else {
            self.modules.insert(k, m);
            self.sources.insert(k, source);
            assert(records_of(self.modules@) =~= rs.insert(k as int, r));
            assert(self.sources@.map_values(|s: String| s@) =~= srcs.insert(k as int, source@));
        }
    }

    /// The modules in ID order.
    pub fn enumerate(&self) -> (modules: Vec<ModulePath>)
        ensures
            records_of(modules@) == self.records(),
    {
        let mut out: Vec<ModulePath> = Vec::new();
        let mut i: usize = 0;
        while i < self.modules.len()
            invariant
                i <= self.modules@.len(),
                records_of(out@) == records_of(self.modules@.subrange(0, i as int)),
            decreases self.modules.len() - i,
        {
            let m = self.modules[i].clone();
            assert(record_of(m) == record_of(self.modules@[i as int]));
            let ghost before = out@;
            out.push(m);
            assert(records_of(out@) =~= records_of(before).push(record_of(m)));
            assert(records_of(self.modules@.subrange(0, i as int + 1)) =~= records_of(
                self.modules@.subrange(0, i as int),
            ).push(record_of(self.modules@[i as int])));
            i = i + 1;
        }
        assert(self.modules@.subrange(0, self.modules@.len() as int) =~= self.modules@);
        out
    }

    /// The source of a module with `id`, if the provider has one.
    pub fn load(&self, id: &ModuleId) -> (source: Option<String>)
        requires
            self.wf(),
        ensures
            match record_with_id(self.records(), id@) {
                Some(_) => source matches Some(s) && s@ == self.sources()[slot(self.records(), id@)],
                None => source is None,
            },
    {
        let k = find_slot(&self.modules, id);
        if k < self.modules.len() && same_text(self.modules[k].id.as_str(), id.as_str()) {
            Some(self.sources[k].clone())
        } else {
            None
        }
    }
}

} // verus!
