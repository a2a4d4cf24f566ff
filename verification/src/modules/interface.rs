//! A module's interface: the declarations it exports, and a hash of their
//! signatures that changes only when a signature does.

use vstd::prelude::*;
use crate::modules::{lemma_text_lt_transitive, lemma_text_order, text_less, text_lt};
use crate::modules::{declaration_label, qualified, qualify_declaration, DeclarationKind, ModuleId, ModulePath};
use crate::modules::names::{quote, ModuleInterface, SourceId};
use crate::modules::resolve::program_namespace;
use crate::syntax::ast::{join_segments, Program, Stmt, StmtKind};
use crate::syntax::lexer::{Diagnostic, Span};
use crate::modules::names::{kind_order, Export, ExportModel};
use crate::digest::{blake3_digest, blake3_hash, hex_digit_lower, hex_lower, to_hex};
use crate::modules::joined;
use crate::syntax::ast::{
    ClassDecl, Expr, ExprKind, FunctionDecl, InterfaceDecl, MapEntry, MethodDecl, NameRef, Parameter, PropertyDecl,
    TraitDecl, TraitUse, TypeSyntax, TypeSyntaxKind, UnaryOp, Visibility,
};
use crate::text::{chars_of, push_bytes, push_chars, push_signed_decimal, push_str, signed_decimal, string_of};

verus! {

broadcast use vstd::std_specs::vec::group_vec_axioms;

/// No element is strictly before an earlier one.
pub open spec fn sorted_by<K>(s: Seq<K>, lt: spec_fn(K, K) -> bool) -> bool {
    forall|i: int, j: int| 0 <= i < j < s.len() ==> !lt(#[trigger] s[j], #[trigger] s[i])
}

/// A transitive, asymmetric relation.
pub open spec fn strict_order<K>(lt: spec_fn(K, K) -> bool) -> bool {
    &&& forall|a: K, b: K, c: K| #[trigger] lt(a, b) && #[trigger] lt(b, c) ==> lt(a, c)
    &&& forall|a: K, b: K| #[trigger] lt(a, b) ==> !lt(b, a)
}

/// Inserting an element after every element it is not before, and before
/// one it is before, keeps a sequence sorted.
proof fn lemma_insert_sorted<K>(ns: Seq<K>, k: int, x: K, lt: spec_fn(K, K) -> bool)
    requires
        strict_order(lt),
        sorted_by(ns, lt),
        0 <= k <= ns.len(),
        forall|j: int| 0 <= j < k ==> !lt(x, #[trigger] ns[j]),
        k < ns.len() ==> lt(x, ns[k]),
    ensures
        sorted_by(ns.insert(k, x), lt),
{
    let now = ns.insert(k, x);
    assert forall|a: int, b: int| 0 <= a < b < now.len() implies !lt(#[trigger] now[b], #[trigger] now[a]) by {
        if b < k {
            assert(!lt(ns[b], ns[a]));
        } else if b == k {
            assert(!lt(x, ns[a]));
        } else if a < k {
            assert(now[b] == ns[b - 1]);
            assert(!lt(ns[b - 1], ns[a]));
        } else if a == k {
            assert(now[b] == ns[b - 1]);
            if b - 1 == k {
                assert(lt(x, ns[k]));
            } else {
                assert(!lt(ns[b - 1], ns[k]));
                if lt(ns[b - 1], x) {
                    assert(lt(x, ns[k]));
                    assert(lt(ns[b - 1], ns[k]));
                }
            }
        } else {
            assert(now[b] == ns[b - 1] && now[a] == ns[a - 1]);
            assert(!lt(ns[b - 1], ns[a - 1]));
        }
    }
}

/// Text order as a relation.
pub open spec fn text_before() -> spec_fn(Seq<char>, Seq<char>) -> bool {
    |a: Seq<char>, b: Seq<char>| text_lt(a, b)
}

proof fn lemma_text_strict_order()
    ensures
        strict_order(text_before()),
{
    assert forall|a: Seq<char>, b: Seq<char>, c: Seq<char>| #[trigger] text_before()(a, b) && #[trigger] text_before()(b, c)
        implies text_before()(a, c) by {
        lemma_text_lt_transitive(a, b, c, 0);
    }
    assert forall|a: Seq<char>, b: Seq<char>| #[trigger] text_before()(a, b) implies !text_before()(b, a) by {
        lemma_text_order(a, b);
    }
}

pub open spec fn string_views(v: Seq<String>) -> Seq<Seq<char>> {
    v.map_values(|s: String| s@)
}

/// The texts in text order, each as often as given.
pub fn sorted_texts(texts: &Vec<String>) -> (out: Vec<String>)
    ensures
        sorted_by(string_views(out@), text_before()),
        string_views(out@).to_multiset() == string_views(texts@).to_multiset(),
{
    proof {
        lemma_text_strict_order();
    }
    let ghost ms = string_views(texts@);
    let mut out: Vec<String> = Vec::new();
    let mut i: usize = 0;
    assert(string_views(out@) =~= ms.subrange(0, 0));
    while i < texts.len()
        invariant
            i <= texts@.len(),
            ms == string_views(texts@),
            strict_order(text_before()),
            sorted_by(string_views(out@), text_before()),
            string_views(out@).to_multiset() == ms.subrange(0, i as int).to_multiset(),
        decreases texts.len() - i,
    {
        let ghost ns = string_views(out@);
        let text = &texts[i];
        let key = chars_of(text.as_str());
        let mut k: usize = 0;
        while k < out.len()
            invariant
                k <= out@.len(),
                ns == string_views(out@),
                key@ == text@,
                forall|j: int| 0 <= j < k ==> !text_before()(text@, #[trigger] ns[j]),
            ensures
                k <= out@.len(),
                forall|j: int| 0 <= j < k ==> !text_before()(text@, #[trigger] ns[j]),
                k < out@.len() ==> text_before()(text@, ns[k as int]),
            decreases out.len() - k,
        {
            let other = chars_of(out[k].as_str());
            if text_less(key.as_slice(), other.as_slice()) {
                break;
            }
            k = k + 1;
        }
        out.insert(k, text.clone());
        proof {
            assert(string_views(out@) =~= ns.insert(k as int, text@));
            assert(ms.subrange(0, i as int + 1) =~= ms.subrange(0, i as int).push(text@));
            vstd::seq_lib::to_multiset_insert(ns, k as int, text@);
            vstd::seq_lib::to_multiset_build(ms.subrange(0, i as int), text@);
            lemma_insert_sorted(ns, k as int, text@, text_before());
        }
        i = i + 1;
    }
    assert(ms.subrange(0, ms.len() as int) =~= ms);
    out
}

/// Export order: by name, then by kind.
pub open spec fn export_before() -> spec_fn(ExportModel, ExportModel) -> bool {
    |a: ExportModel, b: ExportModel| text_lt(a.name, b.name) || (a.name == b.name && kind_order(a.kind) < kind_order(
        b.kind,
    ))
}

proof fn lemma_export_strict_order()
    ensures
        strict_order(export_before()),
{
    assert forall|a: ExportModel, b: ExportModel, c: ExportModel| #[trigger] export_before()(a, b)
        && #[trigger] export_before()(b, c) implies export_before()(a, c) by {
        lemma_text_order(a.name, b.name);
        lemma_text_order(b.name, c.name);
        if text_lt(a.name, b.name) && text_lt(b.name, c.name) {
            lemma_text_lt_transitive(a.name, b.name, c.name, 0);
        }
    }
    assert forall|a: ExportModel, b: ExportModel| #[trigger] export_before()(a, b) implies !export_before()(b, a) by {
        lemma_text_order(a.name, b.name);
    }
}

fn kind_rank(kind: DeclarationKind) -> (rank: u8)
    ensures
        rank == kind_order(kind),
{
    match kind {
        DeclarationKind::Function => 0,
        DeclarationKind::Class => 1,
        DeclarationKind::Interface => 2,
        DeclarationKind::Trait => 3,
    }
}

fn export_less(a: &Export, b: &Export) -> (less: bool)
    ensures
        less == export_before()(a@, b@),
{
    let x = chars_of(a.name.as_str());
    let y = chars_of(b.name.as_str());
    if text_less(x.as_slice(), y.as_slice()) {
        return true;
    }
    if text_less(y.as_slice(), x.as_slice()) {
        return false;
    }
    proof {
        lemma_text_order(a.name@, b.name@);
    }
    kind_rank(a.kind) < kind_rank(b.kind)
}

pub open spec fn export_views(v: Seq<Export>) -> Seq<ExportModel> {
    v.map_values(|e: Export| e@)
}

/// The exports in export order, each as often as given.
pub fn sorted_exports(exports: &Vec<Export>) -> (out: Vec<Export>)
    ensures
        sorted_by(export_views(out@), export_before()),
        export_views(out@).to_multiset() == export_views(exports@).to_multiset(),
{
    proof {
        lemma_export_strict_order();
    }
    let ghost ms = export_views(exports@);
    let mut out: Vec<Export> = Vec::new();
    let mut i: usize = 0;
    assert(export_views(out@) =~= ms.subrange(0, 0));
    while i < exports.len()
        invariant
            i <= exports@.len(),
            ms == export_views(exports@),
            strict_order(export_before()),
            sorted_by(export_views(out@), export_before()),
            export_views(out@).to_multiset() == ms.subrange(0, i as int).to_multiset(),
        decreases exports.len() - i,
    {
        let ghost ns = export_views(out@);
        let export = &exports[i];
        let mut k: usize = 0;
        while k < out.len()
            invariant
                k <= out@.len(),
                ns == export_views(out@),
                forall|j: int| 0 <= j < k ==> !export_before()(export@, #[trigger] ns[j]),
            ensures
                k <= out@.len(),
                forall|j: int| 0 <= j < k ==> !export_before()(export@, #[trigger] ns[j]),
                k < out@.len() ==> export_before()(export@, ns[k as int]),
            decreases out.len() - k,
        {
            if export_less(export, &out[k]) {
                break;
            }
            k = k + 1;
        }
        out.insert(k, export.clone());
        proof {
            assert(export_views(out@) =~= ns.insert(k as int, export@));
            assert(ms.subrange(0, i as int + 1) =~= ms.subrange(0, i as int).push(export@));
            vstd::seq_lib::to_multiset_insert(ns, k as int, export@);
            vstd::seq_lib::to_multiset_build(ms.subrange(0, i as int), export@);
            lemma_insert_sorted(ns, k as int, export@, export_before());
        }
        i = i + 1;
    }
    assert(ms.subrange(0, ms.len() as int) =~= ms);
    out
}

/// The `Debug` rendering of a string: in double quotes, with `"`, `\\`
/// and non-printable characters escaped. Named: the escape rules take
/// pages.
pub uninterp spec fn debug_str(text: Seq<char>) -> Seq<char>;

/// `format!("{:?}", text)`, which calls `<str as Debug>::fmt`. The
/// contract claims the rendering is the named function of the text.
#[verifier::external_body]
fn debug_text(text: &str) -> (quoted: String)
    ensures
        quoted@ == debug_str(text@),
{
    format!("{:?}", text)
}

proof fn lemma_joined_push(p: Seq<Seq<char>>, x: Seq<char>, sep: Seq<char>)
    ensures
        joined(p.push(x), sep) == if p.len() == 0 {
            x
        } else {
            joined(p, sep) + sep + x
        },
{
    assert(p.push(x).drop_last() =~= p);
    if p.len() == 0 {
        assert(p.push(x)[0] == x);
    }
}

/// `true` or `false`.
pub open spec fn bool_text(b: bool) -> Seq<char> {
    if b {
        "true"@
    } else {
        "false"@
    }
}

fn push_bool(out: &mut Vec<char>, b: bool)
    ensures
        final(out)@ == old(out)@ + bool_text(b),
{
    if b {
        push_str(out, "true");
    } else {
        push_str(out, "false");
    }
}

/// The `Debug` name of a visibility.
pub open spec fn visibility_text(v: Visibility) -> Seq<char> {
    match v {
        Visibility::Public => "Public"@,
        Visibility::Protected => "Protected"@,
        Visibility::Private => "Private"@,
    }
}

fn push_visibility(out: &mut Vec<char>, v: Visibility)
    ensures
        final(out)@ == old(out)@ + visibility_text(v),
{
    match v {
        Visibility::Public => push_str(out, "Public"),
        Visibility::Protected => push_str(out, "Protected"),
        Visibility::Private => push_str(out, "Private"),
    }
}

/// The `Debug` name of a unary operator.
pub open spec fn unary_text(op: UnaryOp) -> Seq<char> {
    match op {
        UnaryOp::Negate => "Negate"@,
        UnaryOp::Not => "Not"@,
    }
}

/// The last `count` hexadecimal digits of `n`, lower case, high first.
pub open spec fn hex_digits(n: nat, count: nat) -> Seq<char>
    decreases count,
{
    if count == 0 {
        Seq::empty()
    } else {
        hex_digits(n / 16, (count - 1) as nat).push(hex_digit_lower(n % 16))
    }
}

fn hex_char(d: u64) -> (c: char)
    requires
        d < 16,
    ensures
        c == hex_digit_lower(d as nat),
{
    if d < 10 {
        ((48 + d) as u8) as char
    } else {
        ((87 + d) as u8) as char
    }
}

fn push_hex_digits(out: &mut Vec<char>, n: u64, count: u8)
    ensures
        final(out)@ == old(out)@ + hex_digits(n as nat, count as nat),
    decreases count,
{
    if count > 0 {
        push_hex_digits(out, n / 16, count - 1);
        out.push(hex_char(n % 16));
        assert(final(out)@ =~= old(out)@ + hex_digits(n as nat, count as nat));
    }
}

/// An expression in an interface signature: a constant written out, a
/// string by the hash of its bytes, anything else as `<non-constant>`.
pub open spec fn expression_sig(e: Expr) -> Seq<char>
    decreases e,
{
    match e.kind {
        ExprKind::Integer(v) => "i:"@ + signed_decimal(v as int),
        ExprKind::Float(bits) => "f:"@ + hex_digits(bits as nat, 16),
        ExprKind::Bool(b) => "b:"@ + bool_text(b),
        ExprKind::Null => "null"@,
        ExprKind::String(bytes) => "s:"@ + hex_lower(blake3_digest(bytes@)),
        ExprKind::Vector(values) => "["@ + exprs_sig(values@) + "]"@,
        ExprKind::MapLiteral(entries) => "{"@ + entries_sig(entries@) + "}"@,
        ExprKind::Unary { op, operand } => unary_text(op) + ":"@ + expression_sig(*operand),
        _ => "<non-constant>"@,
    }
}

/// Expressions' signatures joined by `,`.
pub open spec fn exprs_sig(es: Seq<Expr>) -> Seq<char>
    decreases es,
{
    if es.len() == 0 {
        Seq::empty()
    } else if es.len() == 1 {
        expression_sig(es[0])
    } else {
        exprs_sig(es.drop_last()) + ","@ + expression_sig(es.last())
    }
}

/// Map entries' signatures, `key=>value`, joined by `,`.
pub open spec fn entries_sig(es: Seq<MapEntry>) -> Seq<char>
    decreases es,
{
    if es.len() == 0 {
        Seq::empty()
    } else if es.len() == 1 {
        expression_sig(es[0].key) + "=>"@ + expression_sig(es[0].value)
    } else {
        entries_sig(es.drop_last()) + ","@ + expression_sig(es.last().key) + "=>"@ + expression_sig(es.last().value)
    }
}

fn push_expression_signature(out: &mut Vec<char>, expression: &Expr)
    ensures
        final(out)@ == old(out)@ + expression_sig(*expression),
    decreases expression,
{
    let ghost before = out@;
    match &expression.kind {
        ExprKind::Integer(v) => {
            push_str(out, "i:");
            push_signed_decimal(out, *v as i128);
        },
        ExprKind::Float(bits) => {
            push_str(out, "f:");
            push_hex_digits(out, *bits, 16);
        },
        ExprKind::Bool(b) => {
            push_str(out, "b:");
            push_bool(out, *b);
        },
        ExprKind::Null => push_str(out, "null"),
        ExprKind::String(bytes) => {
            push_str(out, "s:");
            let digest = blake3_hash(bytes.as_slice());
            let hex = to_hex(digest.as_slice());
            push_chars(out, hex.as_slice());
        },
        ExprKind::Vector(values) => {
            push_str(out, "[");
            push_exprs_signature(out, values);
            push_str(out, "]");
        },
        ExprKind::MapLiteral(entries) => {
            push_str(out, "{");
            push_entries_signature(out, entries);
            push_str(out, "}");
        },
        ExprKind::Unary { op, operand } => {
            match op {
                UnaryOp::Negate => push_str(out, "Negate"),
                UnaryOp::Not => push_str(out, "Not"),
            }
            push_str(out, ":");
            push_expression_signature(out, operand);
        },
        _ => push_str(out, "<non-constant>"),
    }
    assert(out@ =~= before + expression_sig(*expression));
}

fn push_exprs_signature(out: &mut Vec<char>, values: &Vec<Expr>)
    ensures
        final(out)@ == old(out)@ + exprs_sig(values@),
    decreases values,
{
    let ghost before = out@;
    let mut i: usize = 0;
    while i < values.len()
        invariant
            i <= values@.len(),
            out@ == before + exprs_sig(values@.subrange(0, i as int)),
        decreases values.len() - i,
    {
        assert(values@.subrange(0, i as int + 1).drop_last() =~= values@.subrange(0, i as int));
        if i > 0 {
            push_str(out, ",");
        }
        push_expression_signature(out, &values[i]);
        i = i + 1;
    }
    assert(values@.subrange(0, values@.len() as int) =~= values@);
}

fn push_entries_signature(out: &mut Vec<char>, entries: &Vec<MapEntry>)
    ensures
        final(out)@ == old(out)@ + entries_sig(entries@),
    decreases entries,
{
    let ghost before = out@;
    let mut i: usize = 0;
    while i < entries.len()
        invariant
            i <= entries@.len(),
            out@ == before + entries_sig(entries@.subrange(0, i as int)),
        decreases entries.len() - i,
    {
        assert(entries@.subrange(0, i as int + 1).drop_last() =~= entries@.subrange(0, i as int));
        if i > 0 {
            push_str(out, ",");
        }
        push_expression_signature(out, &entries[i].key);
        push_str(out, "=>");
        push_expression_signature(out, &entries[i].value);
        i = i + 1;
    }
    assert(entries@.subrange(0, entries@.len() as int) =~= entries@);
}

/// A written type as text: a name with its arguments in `<>` joined by
/// `,`, `?` before a nullable type, union members joined by `|`.
pub open spec fn type_sig(t: TypeSyntax) -> Seq<char>
    decreases t,
{
    match t.kind {
        TypeSyntaxKind::Named { name, arguments } => if arguments@.len() == 0 {
            name@
        } else {
            name@ + "<"@ + types_sig(arguments@, ","@) + ">"@
        },
        TypeSyntaxKind::Nullable(inner) => "?"@ + type_sig(*inner),
        TypeSyntaxKind::Union(members) => types_sig(members@, "|"@),
    }
}

/// Types as text joined by `sep`.
pub open spec fn types_sig(ts: Seq<TypeSyntax>, sep: Seq<char>) -> Seq<char>
    decreases ts,
{
    if ts.len() == 0 {
        Seq::empty()
    } else if ts.len() == 1 {
        type_sig(ts[0])
    } else {
        types_sig(ts.drop_last(), sep) + sep + type_sig(ts.last())
    }
}

fn push_type_signature(out: &mut Vec<char>, ty: &TypeSyntax)
    ensures
        final(out)@ == old(out)@ + type_sig(*ty),
    decreases ty,
{
    let ghost before = out@;
    match &ty.kind {
        TypeSyntaxKind::Named { name, arguments } => {
            push_str(out, name.as_str());
            if arguments.len() > 0 {
                push_str(out, "<");
                push_types_signature(out, arguments, ",");
                push_str(out, ">");
            }
        },
        TypeSyntaxKind::Nullable(inner) => {
            push_str(out, "?");
            push_type_signature(out, inner);
        },
        TypeSyntaxKind::Union(members) => push_types_signature(out, members, "|"),
    }
    assert(out@ =~= before + type_sig(*ty));
}

fn push_types_signature(out: &mut Vec<char>, types: &Vec<TypeSyntax>, sep: &str)
    ensures
        final(out)@ == old(out)@ + types_sig(types@, sep@),
    decreases types,
{
    let ghost before = out@;
    let mut i: usize = 0;
    while i < types.len()
        invariant
            i <= types@.len(),
            out@ == before + types_sig(types@.subrange(0, i as int), sep@),
        decreases types.len() - i,
    {
        assert(types@.subrange(0, i as int + 1).drop_last() =~= types@.subrange(0, i as int));
        if i > 0 {
            push_str(out, sep);
        }
        push_type_signature(out, &types[i]);
        i = i + 1;
    }
    assert(types@.subrange(0, types@.len() as int) =~= types@);
}

/// A default value, or `-` for none.
pub open spec fn default_sig(e: Option<Expr>) -> Seq<char> {
    match e {
        Some(v) => expression_sig(v),
        None => "-"@,
    }
}

fn push_default_signature(out: &mut Vec<char>, value: &Option<Expr>)
    ensures
        final(out)@ == old(out)@ + default_sig(*value),
{
    match value {
        Some(v) => push_expression_signature(out, v),
        None => push_str(out, "-"),
    }
}

/// A parameter as text: `type:name:variadic:default`.
pub open spec fn parameter_sig(p: Parameter) -> Seq<char> {
    type_sig(p.ty) + ":"@ + p.name@ + ":"@ + bool_text(p.variadic) + ":"@ + default_sig(p.default)
}

/// A function's signature: `(parameters):return type`.
pub open spec fn function_sig(f: FunctionDecl) -> Seq<char> {
    "("@ + joined(f.parameters@.map_values(|p: Parameter| parameter_sig(p)), ","@) + "):"@ + type_sig(f.return_type)
}

fn push_function_signature(out: &mut Vec<char>, function: &FunctionDecl)
    ensures
        final(out)@ == old(out)@ + function_sig(*function),
{
    let ghost before = out@;
    let ghost pieces = function.parameters@.map_values(|p: Parameter| parameter_sig(p));
    push_str(out, "(");
    let parameters = &function.parameters;
    let mut i: usize = 0;
    while i < parameters.len()
        invariant
            i <= parameters@.len(),
            pieces == parameters@.map_values(|p: Parameter| parameter_sig(p)),
            out@ == before + "("@ + joined(pieces.subrange(0, i as int), ","@),
        decreases parameters.len() - i,
    {
        proof {
            assert(pieces.subrange(0, i as int + 1) =~= pieces.subrange(0, i as int).push(pieces[i as int]));
            lemma_joined_push(pieces.subrange(0, i as int), pieces[i as int], ","@);
        }
        if i > 0 {
            push_str(out, ",");
        }
        let p = &parameters[i];
        push_type_signature(out, &p.ty);
        push_str(out, ":");
        push_str(out, p.name.as_str());
        push_str(out, ":");
        push_bool(out, p.variadic);
        push_str(out, ":");
        push_default_signature(out, &p.default);
        i = i + 1;
    }
    assert(pieces.subrange(0, pieces.len() as int) =~= pieces);
    push_str(out, "):");
    push_type_signature(out, &function.return_type);
    assert(out@ =~= before + function_sig(*function));
}

/// A method's signature: its name, its function signature, its
/// visibility and its modifiers.
pub open spec fn method_sig(m: MethodDecl) -> Seq<char> {
    m.function.name@ + ":"@ + function_sig(m.function) + ":"@ + visibility_text(m.visibility) + ":static="@
        + bool_text(m.static_method) + ":abstract="@ + bool_text(m.abstract_method) + ":final="@ + bool_text(
        m.final_method,
    )
}

/// Methods' signatures joined by `,`.
pub open spec fn methods_sig(ms: Seq<MethodDecl>) -> Seq<char> {
    joined(ms.map_values(|m: MethodDecl| method_sig(m)), ","@)
}

#[verifier::rlimit(60)]
fn push_method_signature(out: &mut Vec<char>, m: &MethodDecl)
    ensures
        final(out)@ == old(out)@ + method_sig(*m),
{
    let ghost before = out@;
    push_str(out, m.function.name.as_str());
    push_str(out, ":");
    push_function_signature(out, &m.function);
    push_str(out, ":");
    push_visibility(out, m.visibility);
    push_str(out, ":static=");
    push_bool(out, m.static_method);
    push_str(out, ":abstract=");
    push_bool(out, m.abstract_method);
    push_str(out, ":final=");
    push_bool(out, m.final_method);
    assert(out@ =~= before + method_sig(*m));
}

fn push_methods_signature(out: &mut Vec<char>, methods: &Vec<MethodDecl>)
    ensures
        final(out)@ == old(out)@ + methods_sig(methods@),
{
    let ghost before = out@;
    let ghost pieces = methods@.map_values(|m: MethodDecl| method_sig(m));
    let mut i: usize = 0;
    while i < methods.len()
        invariant
            i <= methods@.len(),
            pieces == methods@.map_values(|m: MethodDecl| method_sig(m)),
            out@ == before + joined(pieces.subrange(0, i as int), ","@),
        decreases methods.len() - i,
    {
        proof {
            assert(pieces.subrange(0, i as int + 1) =~= pieces.subrange(0, i as int).push(pieces[i as int]));
            lemma_joined_push(pieces.subrange(0, i as int), pieces[i as int], ","@);
        }
        if i > 0 {
            push_str(out, ",");
        }
        push_method_signature(out, &methods[i]);
        i = i + 1;
    }
    assert(pieces.subrange(0, pieces.len() as int) =~= pieces);
}

/// The `Debug` rendering of an optional name: `Some("…")` or `None`.
pub open spec fn opt_name_debug(p: Option<NameRef>) -> Seq<char> {
    match p {
        Some(n) => "Some("@ + debug_str(n.name@) + ")"@,
        None => "None"@,
    }
}

fn push_opt_name_debug(out: &mut Vec<char>, parent: &Option<NameRef>)
    ensures
        final(out)@ == old(out)@ + opt_name_debug(*parent),
{
    match parent {
        Some(n) => {
            push_str(out, "Some(");
            let quoted = debug_text(n.name.as_str());
            push_str(out, quoted.as_str());
            push_str(out, ")");
        },
        None => push_str(out, "None"),
    }
}

/// The `Debug` rendering of a list of names: `["…", "…"]`.
pub open spec fn list_debug(names: Seq<Seq<char>>) -> Seq<char> {
    "["@ + joined(names.map_values(|n: Seq<char>| debug_str(n)), ", "@) + "]"@
}

fn push_list_debug(out: &mut Vec<char>, names: &Vec<String>)
    ensures
        final(out)@ == old(out)@ + list_debug(string_views(names@)),
{
    let ghost before = out@;
    let ghost pieces = string_views(names@).map_values(|n: Seq<char>| debug_str(n));
    push_str(out, "[");
    let mut i: usize = 0;
    while i < names.len()
        invariant
            i <= names@.len(),
            pieces == string_views(names@).map_values(|n: Seq<char>| debug_str(n)),
            out@ == before + "["@ + joined(pieces.subrange(0, i as int), ", "@),
        decreases names.len() - i,
    {
        proof {
            assert(pieces.subrange(0, i as int + 1) =~= pieces.subrange(0, i as int).push(pieces[i as int]));
            lemma_joined_push(pieces.subrange(0, i as int), pieces[i as int], ", "@);
        }
        if i > 0 {
            push_str(out, ", ");
        }
        let quoted = debug_text(names[i].as_str());
        push_str(out, quoted.as_str());
        i = i + 1;
    }
    assert(pieces.subrange(0, pieces.len() as int) =~= pieces);
    push_str(out, "]");
    assert(out@ =~= before + list_debug(string_views(names@)));
}

/// The names written in name references.
pub open spec fn name_texts(ns: Seq<NameRef>) -> Seq<Seq<char>> {
    ns.map_values(|n: NameRef| n.name@)
}

/// The traits that trait uses name, in order.
pub open spec fn trait_names(us: Seq<TraitUse>) -> Seq<Seq<char>>
    decreases us.len(),
{
    if us.len() == 0 {
        Seq::empty()
    } else {
        trait_names(us.drop_last()) + name_texts(us.last().traits@)
    }
}

fn names_of(ns: &Vec<NameRef>, out: &mut Vec<String>)
    ensures
        string_views(final(out)@) == string_views(old(out)@) + name_texts(ns@),
{
    let ghost before = string_views(out@);
    let mut i: usize = 0;
    while i < ns.len()
        invariant
            i <= ns@.len(),
            string_views(out@) == before + name_texts(ns@.subrange(0, i as int)),
        decreases ns.len() - i,
    {
        let ghost prior = out@;
        out.push(ns[i].name.clone());
        assert(string_views(out@) =~= string_views(prior).push(ns@[i as int].name@));
        assert(name_texts(ns@.subrange(0, i as int + 1)) =~= name_texts(ns@.subrange(0, i as int)).push(ns@[i as int].name@));
        i = i + 1;
    }
    assert(ns@.subrange(0, ns@.len() as int) =~= ns@);
}

fn trait_names_of(uses: &Vec<TraitUse>) -> (names: Vec<String>)
    ensures
        string_views(names@) == trait_names(uses@),
{
    let mut names: Vec<String> = Vec::new();
    let mut i: usize = 0;
    assert(string_views(names@) =~= trait_names(uses@.subrange(0, 0)));
    while i < uses.len()
        invariant
            i <= uses@.len(),
            string_views(names@) == trait_names(uses@.subrange(0, i as int)),
        decreases uses.len() - i,
    {
        assert(uses@.subrange(0, i as int + 1).drop_last() =~= uses@.subrange(0, i as int));
        names_of(&uses[i].traits, &mut names);
        i = i + 1;
    }
    assert(uses@.subrange(0, uses@.len() as int) =~= uses@);
    names
}

/// A class property as text: `name:type:visibility:initializer`.
pub open spec fn class_property_sig(p: PropertyDecl) -> Seq<char> {
    p.name@ + ":"@ + type_sig(p.ty) + ":"@ + visibility_text(p.visibility) + ":"@ + default_sig(p.initializer)
}

/// A trait property as text: `name:type:visibility`.
pub open spec fn trait_property_sig(p: PropertyDecl) -> Seq<char> {
    p.name@ + ":"@ + type_sig(p.ty) + ":"@ + visibility_text(p.visibility)
}

/// Properties as text joined by `,`, with their initializers when
/// `with_initializer`.
pub open spec fn properties_sig(ps: Seq<PropertyDecl>, with_initializer: bool) -> Seq<char> {
    if with_initializer {
        joined(ps.map_values(|p: PropertyDecl| class_property_sig(p)), ","@)
    } else {
        joined(ps.map_values(|p: PropertyDecl| trait_property_sig(p)), ","@)
    }
}

fn push_properties_signature(out: &mut Vec<char>, properties: &Vec<PropertyDecl>, with_initializer: bool)
    ensures
        final(out)@ == old(out)@ + properties_sig(properties@, with_initializer),
{
    let ghost before = out@;
    let ghost pieces = if with_initializer {
        properties@.map_values(|p: PropertyDecl| class_property_sig(p))
    } else {
        properties@.map_values(|p: PropertyDecl| trait_property_sig(p))
    };
    let mut i: usize = 0;
    while i < properties.len()
        invariant
            i <= properties@.len(),
            pieces == if with_initializer {
                properties@.map_values(|p: PropertyDecl| class_property_sig(p))
            } else {
                properties@.map_values(|p: PropertyDecl| trait_property_sig(p))
            },
            out@ == before + joined(pieces.subrange(0, i as int), ","@),
        decreases properties.len() - i,
    {
        proof {
            assert(pieces.subrange(0, i as int + 1) =~= pieces.subrange(0, i as int).push(pieces[i as int]));
            lemma_joined_push(pieces.subrange(0, i as int), pieces[i as int], ","@);
        }
        if i > 0 {
            push_str(out, ",");
        }
        let p = &properties[i];
        let ghost at = out@;
        push_str(out, p.name.as_str());
        push_str(out, ":");
        push_type_signature(out, &p.ty);
        push_str(out, ":");
        push_visibility(out, p.visibility);
        if with_initializer {
            push_str(out, ":");
            push_default_signature(out, &p.initializer);
            assert(out@ =~= at + class_property_sig(*p));
        } else {
            assert(out@ =~= at + trait_property_sig(*p));
        }
        i = i + 1;
    }
    assert(pieces.subrange(0, pieces.len() as int) =~= pieces);
}

/// A class's signature: its modifiers, parent, interfaces, used traits,
/// properties and methods.
pub open spec fn class_sig(c: ClassDecl) -> Seq<char> {
    "abstract="@ + bool_text(c.abstract_class) + ";final="@ + bool_text(c.final_class) + ";parent="@ + opt_name_debug(
        c.parent,
    ) + ";interfaces="@ + list_debug(name_texts(c.interfaces@)) + ";traits="@ + list_debug(trait_names(c.trait_uses@))
        + ";properties="@ + properties_sig(c.properties@, true) + ";methods="@ + methods_sig(c.methods@)
}

/// An interface's signature: its parent and methods.
pub open spec fn interface_sig(i: InterfaceDecl) -> Seq<char> {
    "parent="@ + opt_name_debug(i.parent) + ";methods="@ + methods_sig(i.methods@)
}

/// A trait's signature: its used traits, properties and methods.
pub open spec fn trait_sig(t: TraitDecl) -> Seq<char> {
    "traits="@ + list_debug(trait_names(t.trait_uses@)) + ";properties="@ + properties_sig(t.properties@, false)
        + ";methods="@ + methods_sig(t.methods@)
}

#[verifier::rlimit(60)]
fn push_class_signature(out: &mut Vec<char>, class: &ClassDecl)
    ensures
        final(out)@ == old(out)@ + class_sig(*class),
{
    let ghost before = out@;
    push_str(out, "abstract=");
    push_bool(out, class.abstract_class);
    push_str(out, ";final=");
    push_bool(out, class.final_class);
    push_str(out, ";parent=");
    push_opt_name_debug(out, &class.parent);
    push_str(out, ";interfaces=");
    let mut interfaces: Vec<String> = Vec::new();
    names_of(&class.interfaces, &mut interfaces);
    assert(string_views(interfaces@) =~= name_texts(class.interfaces@));
    push_list_debug(out, &interfaces);
    push_str(out, ";traits=");
    let traits = trait_names_of(&class.trait_uses);
    push_list_debug(out, &traits);
    push_str(out, ";properties=");
    push_properties_signature(out, &class.properties, true);
    push_str(out, ";methods=");
    push_methods_signature(out, &class.methods);
    assert(out@ =~= before + class_sig(*class));
}

fn push_interface_signature(out: &mut Vec<char>, interface: &InterfaceDecl)
    ensures
        final(out)@ == old(out)@ + interface_sig(*interface),
{
    let ghost before = out@;
    push_str(out, "parent=");
    push_opt_name_debug(out, &interface.parent);
    push_str(out, ";methods=");
    push_methods_signature(out, &interface.methods);
    assert(out@ =~= before + interface_sig(*interface));
}

fn push_trait_signature(out: &mut Vec<char>, trait_decl: &TraitDecl)
    ensures
        final(out)@ == old(out)@ + trait_sig(*trait_decl),
{
    let ghost before = out@;
    push_str(out, "traits=");
    let traits = trait_names_of(&trait_decl.trait_uses);
    push_list_debug(out, &traits);
    push_str(out, ";properties=");
    push_properties_signature(out, &trait_decl.properties, false);
    push_str(out, ";methods=");
    push_methods_signature(out, &trait_decl.methods);
    assert(out@ =~= before + trait_sig(*trait_decl));
}

/// What a top-level declaration exports: its name as written, where the
/// name is, its kind and its signature. Other statements export nothing.
pub open spec fn declaration_info(st: Stmt) -> Option<(Seq<char>, Span, DeclarationKind, Seq<char>)> {
    match st.kind {
        StmtKind::Function(f) => Some((f.name@, f.name_span, DeclarationKind::Function, function_sig(f))),
        StmtKind::Class(c) => Some((c.name@, c.name_span, DeclarationKind::Class, class_sig(c))),
        StmtKind::Interface(i) => Some((i.name@, i.name_span, DeclarationKind::Interface, interface_sig(i))),
        StmtKind::Trait(t) => Some((t.name@, t.name_span, DeclarationKind::Trait, trait_sig(t))),
        _ => None,
    }
}

fn declaration_signature(statement: &Stmt) -> (info: Option<(&str, Span, DeclarationKind, String)>)
    ensures
        match declaration_info(*statement) {
            Some(d) => info matches Some(i) && i.0@ == d.0 && i.1 == d.1 && i.2 == d.2 && i.3@ == d.3,
            None => info is None,
        },
{
    let mut out: Vec<char> = Vec::new();
    match &statement.kind {
        StmtKind::Function(f) => {
            push_function_signature(&mut out, f);
            Some((f.name.as_str(), f.name_span, DeclarationKind::Function, string_of(out.as_slice())))
        },
        StmtKind::Class(c) => {
            push_class_signature(&mut out, c);
            Some((c.name.as_str(), c.name_span, DeclarationKind::Class, string_of(out.as_slice())))
        },
        StmtKind::Interface(i) => {
            push_interface_signature(&mut out, i);
            Some((i.name.as_str(), i.name_span, DeclarationKind::Interface, string_of(out.as_slice())))
        },
        StmtKind::Trait(t) => {
            push_trait_signature(&mut out, t);
            Some((t.name.as_str(), t.name_span, DeclarationKind::Trait, string_of(out.as_slice())))
        },
        _ => None,
    }
}

/// The exports that a program's top-level declarations make, in order.
pub open spec fn declared_exports(sts: Seq<Stmt>, namespace: Seq<char>, module: Seq<char>, source: SourceId) -> Seq<ExportModel>
    decreases sts.len(),
{
    if sts.len() == 0 {
        Seq::empty()
    } else {
        let rest = declared_exports(sts.drop_last(), namespace, module, source);
        match declaration_info(sts.last()) {
            Some(d) => rest.push(ExportModel { name: qualified(namespace, d.0), kind: d.2, module, source, span: d.1 }),
            None => rest,
        }
    }
}

/// The canonical lines of a program's declarations, in order:
/// `kind:name:signature`.
pub open spec fn canonical_items(sts: Seq<Stmt>, namespace: Seq<char>) -> Seq<Seq<char>>
    decreases sts.len(),
{
    if sts.len() == 0 {
        Seq::empty()
    } else {
        let rest = canonical_items(sts.drop_last(), namespace);
        match declaration_info(sts.last()) {
            Some(d) => rest.push(declaration_label(d.2) + ":"@ + qualified(namespace, d.0) + ":"@ + d.3),
            None => rest,
        }
    }
}

/// The UTF-8 bytes of each item, each followed by a zero byte.
pub open spec fn items_bytes(items: Seq<Seq<char>>) -> Seq<u8>
    decreases items.len(),
{
    if items.len() == 0 {
        Seq::empty()
    } else {
        items_bytes(items.drop_last()) + vstd::utf8::encode_utf8(items.last()) + seq![0u8]
    }
}

/// What the interface hash is taken of: a tag, the format version (1, as
/// two little-endian bytes), the module ID, the namespace and the sorted
/// canonical items, the texts in UTF-8 and each followed by a zero byte.
pub open spec fn interface_material(module: Seq<char>, namespace: Seq<char>, items: Seq<Seq<char>>) -> Seq<u8> {
    vstd::utf8::encode_utf8("THP module interface"@) + seq![1u8, 0u8] + vstd::utf8::encode_utf8(module) + seq![0u8]
        + vstd::utf8::encode_utf8(namespace) + seq![0u8] + items_bytes(items)
}

/// An ID that names an entry file outside every mapping.
pub open spec fn is_entry_id(id: Seq<char>) -> bool {
    id.len() >= 7 && id.subrange(0, 7) == "@entry/"@
}

/// The namespace a module must declare, as shown in messages.
pub open spec fn expected_label(expected: Seq<char>) -> Seq<char> {
    if expected.len() == 0 {
        "<global>"@
    } else {
        expected
    }
}

/// The interface of one parsed source unit, unless it is a mapped module
/// that declares a namespace other than the one its path gives.
pub open spec fn interface_of(
    module: ModulePath,
    source: SourceId,
    program: Program,
    result: Result<ModuleInterface, Diagnostic>,
) -> bool {
    let ns = program_namespace(program);
    if !is_entry_id(module.id@) && ns != module.expected_namespace@ {
        result matches Err(d) && d.stage@ == "modules"@ && d.code@ == "M0001"@ && d.span == match program.namespace {
            Some(n) => n.span,
            None => program.span,
        } && d.message@ == "module "@ + quote(module.id@) + " must declare namespace "@ + quote(
            expected_label(module.expected_namespace@),
        ) && d.notes@.len() == 0
    } else {
        result matches Ok(iface) && iface.module@ == module.id@ && iface.namespace@ == ns && sorted_by(
            export_views(iface.exports@),
            export_before(),
        ) && export_views(iface.exports@).to_multiset() == declared_exports(
            program.statements@,
            ns,
            module.id@,
            source,
        ).to_multiset() && exists|items: Seq<Seq<char>>|
            #![trigger interface_material(module.id@, ns, items)]
            sorted_by(items, text_before()) && items.to_multiset() == canonical_items(program.statements@, ns).to_multiset()
                && iface.interface_hash@ == hex_lower(blake3_digest(interface_material(module.id@, ns, items)))
    }
}

fn is_entry(id: &ModuleId) -> (entry: bool)
    ensures
        entry == is_entry_id(id@),
{
    let chars = chars_of(id.as_str());
    let prefix = chars_of("@entry/");
    proof {
        reveal_strlit("@entry/");
    }
    if chars.len() < 7 {
        return false;
    }
    let mut i: usize = 0;
    while i < 7
        invariant
            i <= 7,
            chars@.len() >= 7,
            chars@ == id@,
            prefix@ == "@entry/"@,
            prefix@.len() == 7,
            forall|j: int| 0 <= j < i ==> chars@[j] == prefix@[j],
        decreases 7 - i,
    {
        if chars[i] != prefix[i] {
            assert(chars@.subrange(0, 7)[i as int] != "@entry/"@[i as int]);
            return false;
        }
        i = i + 1;
    }
    assert(chars@.subrange(0, 7) =~= "@entry/"@);
    true
}

fn same_chars(a: &str, b: &str) -> (same: bool)
    ensures
        same == (a@ == b@),
{
    let x = chars_of(a);
    let y = chars_of(b);
    if x.len() != y.len() {
        return false;
    }
    let mut i: usize = 0;
    while i < x.len()
        invariant
            i <= x@.len(),
            x@.len() == y@.len(),
            x@ == a@,
            y@ == b@,
            forall|j: int| 0 <= j < i ==> x@[j] == y@[j],
        decreases x.len() - i,
    {
        if x[i] != y[i] {
            return false;
        }
        i = i + 1;
    }
    assert(x@ =~= y@);
    true
}

/// Extracts the body-independent exports of one parsed source unit and
/// the hash of their signatures.
#[verifier::rlimit(50)]
pub fn extract_interface(module: &ModulePath, source: SourceId, program: &Program) -> (result: Result<
    ModuleInterface,
    Diagnostic,
>)
    ensures
        interface_of(*module, source, *program, result),
{
    let namespace = match &program.namespace {
        Some(n) => join_segments(&n.name.segments),
        None => String::new(),
    };
    if !is_entry(&module.id) && !same_chars(namespace.as_str(), module.expected_namespace.as_str()) {
        let span = match &program.namespace {
            Some(n) => n.span,
            None => program.span,
        };
        let mut message = chars_of("module `");
        push_str(&mut message, module.id.as_str());
        push_str(&mut message, "` must declare namespace `");
        let expected = chars_of(module.expected_namespace.as_str());
        if expected.len() == 0 {
            push_str(&mut message, "<global>");
            proof {
                reveal_strlit("<global>");
            }
        } else {
            push_str(&mut message, module.expected_namespace.as_str());
        }
        push_str(&mut message, "`");
        proof {
            reveal_strlit("module `");
            reveal_strlit("` must declare namespace `");
            reveal_strlit("`");
            reveal_strlit("module ");
            reveal_strlit(" must declare namespace ");
        }
        assert(message@ =~= "module "@ + quote(module.id@) + " must declare namespace "@ + quote(
            expected_label(module.expected_namespace@),
        ));
        return Err(Diagnostic {
            stage: "modules".to_owned(),
            code: "M0001".to_owned(),
            span,
            message: string_of(message.as_slice()),
            notes: Vec::new(),
        });
    }
    let mut exports: Vec<Export> = Vec::new();
    let mut canonical: Vec<String> = Vec::new();
    let statements = &program.statements;
    let mut i: usize = 0;
    while i < statements.len()
        invariant
            i <= statements@.len(),
            export_views(exports@) == declared_exports(statements@.subrange(0, i as int), namespace@, module.id@, source),
            string_views(canonical@) == canonical_items(statements@.subrange(0, i as int), namespace@),
        decreases statements.len() - i,
    {
        assert(statements@.subrange(0, i as int + 1).drop_last() =~= statements@.subrange(0, i as int));
        match declaration_signature(&statements[i]) {
            Some((short, span, kind, signature)) => {
                let name = qualify_declaration(namespace.as_str(), short);
                let mut line = chars_of(kind.as_str());
                push_str(&mut line, ":");
                push_str(&mut line, name.as_str());
                push_str(&mut line, ":");
                push_str(&mut line, signature.as_str());
                let ghost prior_lines = string_views(canonical@);
                canonical.push(string_of(line.as_slice()));
                assert(string_views(canonical@) =~= prior_lines.push(line@));
                let ghost prior = export_views(exports@);
                exports.push(Export { name, kind, module: module.id.clone(), source, span });
                assert(export_views(exports@) =~= prior.push(exports@.last()@));
            },
            None => {},
        }
        i = i + 1;
    }
    assert(statements@.subrange(0, statements@.len() as int) =~= statements@);
    let items = sorted_texts(&canonical);
    let mut material: Vec<u8> = Vec::new();
    push_bytes(&mut material, "THP module interface".as_bytes());
    material.push(1u8);
    material.push(0u8);
    push_bytes(&mut material, module.id.as_str().as_bytes());
    material.push(0u8);
    push_bytes(&mut material, namespace.as_str().as_bytes());
    material.push(0u8);
    let ghost head = material@;
    let mut k: usize = 0;
    while k < items.len()
        invariant
            k <= items@.len(),
            material@ == head + items_bytes(string_views(items@).subrange(0, k as int)),
        decreases items.len() - k,
    {
        assert(string_views(items@).subrange(0, k as int + 1).drop_last() =~= string_views(items@).subrange(0, k as int));
        push_bytes(&mut material, items[k].as_str().as_bytes());
        material.push(0u8);
        assert(material@ =~= head + items_bytes(string_views(items@).subrange(0, k as int + 1)));
        k = k + 1;
    }
    assert(string_views(items@).subrange(0, items@.len() as int) =~= string_views(items@));
    assert(material@ =~= interface_material(module.id@, namespace@, string_views(items@)));
    let digest = blake3_hash(material.as_slice());
    let hex = to_hex(digest.as_slice());
    let interface_hash = string_of(hex.as_slice());
    let sorted = sorted_exports(&exports);
    let ghost items_view = string_views(items@);
    let ghost ns = program_namespace(*program);
    assert(namespace@ == ns);
    assert(interface_hash@ == hex_lower(blake3_digest(interface_material(module.id@, ns, items_view))));
    assert(sorted_by(items_view, text_before()));
    assert(items_view.to_multiset() == canonical_items(program.statements@, ns).to_multiset());
    let iface = ModuleInterface { module: module.id.clone(), namespace, exports: sorted, interface_hash };
    let result = Ok(iface);
    proof {
        assert(exists|items: Seq<Seq<char>>|
            #![trigger interface_material(module.id@, ns, items)]
            sorted_by(items, text_before()) && items.to_multiset() == canonical_items(program.statements@, ns).to_multiset()
                && iface.interface_hash@ == hex_lower(blake3_digest(interface_material(module.id@, ns, items))));
    }
    result
}


/// Sorted arrangements of the same texts are equal.
proof fn lemma_sorted_texts_unique(a: Seq<Seq<char>>, b: Seq<Seq<char>>)
    requires
        sorted_by(a, text_before()),
        sorted_by(b, text_before()),
        a.to_multiset() == b.to_multiset(),
    ensures
        a == b,
    decreases a.len(),
{
    broadcast use vstd::seq_lib::group_to_multiset_ensures;

    assert(a.len() == a.to_multiset().len());
    assert(b.len() == b.to_multiset().len());
    if a.len() == 0 {
        assert(a =~= b);
    } else {
        let n = a.len() - 1;
        let x = a[n];
        let y = b[n];
        assert(a.contains(x));
        assert(b.to_multiset().count(x) > 0);
        assert(b.contains(x));
        assert(a.to_multiset().count(y) > 0);
        assert(a.contains(y));
        if x != y {
            lemma_text_order(x, y);
            if text_lt(x, y) {
                let i = choose|i: int| 0 <= i < a.len() && a[i] == y;
                assert(i < n);
                assert(!text_before()(a[n], a[i]));
            } else {
                let i = choose|i: int| 0 <= i < b.len() && b[i] == x;
                assert(i < n);
                assert(!text_before()(b[n], b[i]));
            }
        }
        assert(a.remove(n) =~= a.drop_last());
        assert(b.remove(n) =~= b.drop_last());
        assert(a.drop_last().to_multiset() =~= a.to_multiset().remove(x));
        assert(b.drop_last().to_multiset() =~= b.to_multiset().remove(y));
        lemma_sorted_texts_unique(a.drop_last(), b.drop_last());
        assert(a =~= a.drop_last().push(x));
        assert(b =~= b.drop_last().push(y));
    }
}

proof fn lemma_same_declarations(p: Seq<Stmt>, q: Seq<Stmt>, namespace: Seq<char>, module: Seq<char>, source: SourceId)
    requires
        p.len() == q.len(),
        forall|k: int| 0 <= k < p.len() ==> declaration_info(#[trigger] p[k]) == declaration_info(q[k]),
    ensures
        canonical_items(p, namespace) == canonical_items(q, namespace),
        declared_exports(p, namespace, module, source) == declared_exports(q, namespace, module, source),
    decreases p.len(),
{
    if p.len() > 0 {
        lemma_same_declarations(p.drop_last(), q.drop_last(), namespace, module, source);
        assert(declaration_info(p[p.len() - 1]) == declaration_info(q[q.len() - 1]));
    }
}

/// Only declarations' names, kinds and signatures shape an interface:
/// two programs with the same namespace whose statements declare the same
/// things, whatever their bodies hold, give the same exports and the same
/// interface hash.
pub proof fn lemma_interface_ignores_bodies(
    module: ModulePath,
    source: SourceId,
    p: Program,
    q: Program,
    first: Result<ModuleInterface, Diagnostic>,
    second: Result<ModuleInterface, Diagnostic>,
)
    requires
        interface_of(module, source, p, first),
        interface_of(module, source, q, second),
        p.namespace == q.namespace,
        p.statements@.len() == q.statements@.len(),
        forall|k: int| 0 <= k < p.statements@.len() ==> declaration_info(#[trigger] p.statements@[k]) == declaration_info(q.statements@[k]),
    ensures
        first is Ok <==> second is Ok,
        first matches Ok(a) ==> (second matches Ok(b) && a.interface_hash@ == b.interface_hash@
            && export_views(a.exports@).to_multiset() == export_views(b.exports@).to_multiset()),
{
    let ns = program_namespace(p);
    assert(program_namespace(q) == ns);
    lemma_same_declarations(p.statements@, q.statements@, ns, module.id@, source);
    if let Ok(a) = first {
        if let Ok(b) = second {
            let ia = choose|items: Seq<Seq<char>>|
                #![trigger interface_material(module.id@, ns, items)]
                sorted_by(items, text_before()) && items.to_multiset() == canonical_items(p.statements@, ns).to_multiset()
                    && a.interface_hash@ == hex_lower(blake3_digest(interface_material(module.id@, ns, items)));
            let ib = choose|items: Seq<Seq<char>>|
                #![trigger interface_material(module.id@, ns, items)]
                sorted_by(items, text_before()) && items.to_multiset() == canonical_items(q.statements@, ns).to_multiset()
                    && b.interface_hash@ == hex_lower(blake3_digest(interface_material(module.id@, ns, items)));
            lemma_sorted_texts_unique(ia, ib);
        }
    }
}

} // verus!
