//! Name resolution over a parsed program: every declared, written and
//! called name rewritten to the canonical name it stands for.

use vstd::prelude::*;
use crate::modules::{qualified, qualify_declaration};
use crate::modules::names::{
    alias_of, bind_imports, bound, import_issues, reports_import, resolve_function_name, resolve_type_name,
    resolved_function_name, resolved_type_name, Aliases, ExportIndex, ExportModel,
};
use crate::syntax::ast::{join_segments, joined_segments, Program, UseKind};
use crate::syntax::lexer::Diagnostic;
use crate::syntax::ast::{
    Argument, CatchClause, ClassDecl, Expr, ExprKind, ForClause, ForClauseKind, FunctionDecl, InterfaceDecl,
    MapEntry, MatchArm, MethodDecl, NameRef, Parameter, PropertyDecl, ScopeTarget, Stmt, StmtKind, TraitAdaptation,
    TraitDecl, TraitUse, TypeSyntax, TypeSyntaxKind,
};

verus! {

broadcast use vstd::std_specs::vec::group_vec_axioms;

/// What names resolve against: the module's namespace, its type and
/// function import aliases, and the project's exports.
pub struct Resolution {
    pub namespace: Seq<char>,
    pub types: Seq<(Seq<char>, Seq<char>)>,
    pub functions: Seq<(Seq<char>, Seq<char>)>,
    pub index: Seq<ExportModel>,
}

/// The namespace and import aliases of the module being resolved.
pub struct Scope {
    pub namespace: String,
    pub types: Aliases,
    pub functions: Aliases,
}

pub open spec fn resolution(scope: &Scope, index: &ExportIndex) -> Resolution {
    Resolution { namespace: scope.namespace@, types: scope.types@, functions: scope.functions@, index: index@ }
}

pub open spec fn type_name_in(r: Resolution, name: Seq<char>) -> Seq<char> {
    resolved_type_name(name, r.namespace, r.types)
}

/// `after` is `before` with each named type resolved.
pub open spec fn type_resolved(before: TypeSyntax, after: TypeSyntax, r: Resolution) -> bool
    decreases before,
{
    after.span == before.span && match (before.kind, after.kind) {
        (TypeSyntaxKind::Named { name: n, arguments: x }, TypeSyntaxKind::Named { name: m, arguments: y }) => {
            m@ == type_name_in(r, n@) && x@.len() == y@.len() && forall|j: int|
                0 <= j < x@.len() ==> type_resolved(#[trigger] x@[j], y@[j], r)
        },
        (TypeSyntaxKind::Nullable(x), TypeSyntaxKind::Nullable(y)) => type_resolved(*x, *y, r),
        (TypeSyntaxKind::Union(x), TypeSyntaxKind::Union(y)) => x@.len() == y@.len() && forall|j: int|
            0 <= j < x@.len() ==> type_resolved(#[trigger] x@[j], y@[j], r),
        _ => false,
    }
}

pub open spec fn opt_type_resolved(before: Option<TypeSyntax>, after: Option<TypeSyntax>, r: Resolution) -> bool {
    match (before, after) {
        (Some(x), Some(y)) => type_resolved(x, y, r),
        (None, None) => true,
        _ => false,
    }
}

/// A name written in a header, resolved as a type name.
pub open spec fn name_ref_resolved(before: NameRef, after: NameRef, r: Resolution) -> bool {
    after.span == before.span && after.name@ == type_name_in(r, before.name@)
}

pub open spec fn name_refs_resolved(before: Seq<NameRef>, after: Seq<NameRef>, r: Resolution) -> bool {
    before.len() == after.len() && forall|j: int| 0 <= j < before.len() ==> name_ref_resolved(#[trigger] before[j], after[j], r)
}

pub open spec fn opt_name_ref_resolved(before: Option<NameRef>, after: Option<NameRef>, r: Resolution) -> bool {
    match (before, after) {
        (Some(x), Some(y)) => name_ref_resolved(x, y, r),
        (None, None) => true,
        _ => false,
    }
}

/// The literals, variables and bare names that resolution leaves alone.
pub open spec fn is_leaf(k: ExprKind) -> bool {
    match k {
        ExprKind::Integer(_) | ExprKind::Float(_) | ExprKind::Bool(_) | ExprKind::Null | ExprKind::String(_)
        | ExprKind::Variable(_) | ExprKind::Name(_) => true,
        _ => false,
    }
}

/// `after` is `before` with the names inside resolved: a called bare name
/// as a function name, the classes of `new`, of static calls, of constants
/// and of `instanceof` as type names; everything else as it was.
pub open spec fn expr_resolved(before: Expr, after: Expr, r: Resolution) -> bool
    decreases before,
{
    after.span == before.span && match (before.kind, after.kind) {
        (ExprKind::Call { callee: c, arguments: x }, ExprKind::Call { callee: d, arguments: y }) => {
            (match (c.kind, d.kind) {
                (ExprKind::Name(n), ExprKind::Name(m)) => d.span == c.span && m@ == resolved_function_name(
                    n@,
                    r.namespace,
                    r.functions,
                    r.index,
                ),
                (ExprKind::Name(_), _) => false,
                _ => expr_resolved(*c, *d, r),
            }) && args_resolved(x@, y@, r)
        },
        (
            ExprKind::New { class_name: n, class_span: s, arguments: x },
            ExprKind::New { class_name: m, class_span: t, arguments: y },
        ) => t == s && m@ == type_name_in(r, n@) && args_resolved(x@, y@, r),
        (
            ExprKind::StaticCall { target: tb, class_span: s, name: n, name_span: ns, arguments: x },
            ExprKind::StaticCall { target: ta, class_span: t, name: m, name_span: ms, arguments: y },
        ) => t == s && m == n && ms == ns && match (tb, ta) {
            (ScopeTarget::Named(p), ScopeTarget::Named(q)) => q@ == type_name_in(r, p@),
            (ScopeTarget::Named(_), _) => false,
            _ => ta == tb,
        } && args_resolved(x@, y@, r),
        (
            ExprKind::ClassConstant { class_name: n, class_span: s, name: cn, name_span: cs },
            ExprKind::ClassConstant { class_name: m, class_span: t, name: dn, name_span: ds },
        ) => t == s && m@ == type_name_in(r, n@) && dn == cn && ds == cs,
        (
            ExprKind::InstanceOf { value: v, class_name: n, class_span: s },
            ExprKind::InstanceOf { value: w, class_name: m, class_span: t },
        ) => t == s && m@ == type_name_in(r, n@) && expr_resolved(*v, *w, r),
        (ExprKind::Unary { op: o, operand: v }, ExprKind::Unary { op: p, operand: w }) => p == o && expr_resolved(
            *v,
            *w,
            r,
        ),
        (ExprKind::Binary { op: o, left: l, right: rt }, ExprKind::Binary { op: p, left: l2, right: r2 }) => p == o
            && expr_resolved(*l, *l2, r) && expr_resolved(*rt, *r2, r),
        (ExprKind::Vector(x), ExprKind::Vector(y)) => exprs_resolved(x@, y@, r),
        (ExprKind::MapLiteral(x), ExprKind::MapLiteral(y)) => entries_resolved(x@, y@, r),
        (ExprKind::Index { collection: c, index: i }, ExprKind::Index { collection: d, index: j }) => expr_resolved(
            *c,
            *d,
            r,
        ) && expr_resolved(*i, *j, r),
        (
            ExprKind::Property { object: o, name: n, name_span: s },
            ExprKind::Property { object: p, name: m, name_span: t },
        ) => m == n && t == s && expr_resolved(*o, *p, r),
        (
            ExprKind::MethodCall { object: o, name: n, name_span: s, arguments: x },
            ExprKind::MethodCall { object: p, name: m, name_span: t, arguments: y },
        ) => m == n && t == s && expr_resolved(*o, *p, r) && args_resolved(x@, y@, r),
        (ExprKind::Match { subject: s, arms: x }, ExprKind::Match { subject: t, arms: y }) => expr_resolved(*s, *t, r)
            && arms_resolved(x@, y@, r),
        (k, l) => is_leaf(k) && l == k,
    }
}

pub open spec fn exprs_resolved(before: Seq<Expr>, after: Seq<Expr>, r: Resolution) -> bool
    decreases before,
{
    before.len() == after.len() && forall|j: int| 0 <= j < before.len() ==> expr_resolved(#[trigger] before[j], after[j], r)
}

pub open spec fn arg_resolved(before: Argument, after: Argument, r: Resolution) -> bool
    decreases before,
{
    after.name == before.name && after.name_span == before.name_span && after.span == before.span && expr_resolved(
        before.value,
        after.value,
        r,
    )
}

pub open spec fn args_resolved(before: Seq<Argument>, after: Seq<Argument>, r: Resolution) -> bool
    decreases before,
{
    before.len() == after.len() && forall|j: int| 0 <= j < before.len() ==> arg_resolved(#[trigger] before[j], after[j], r)
}

pub open spec fn entry_resolved(before: MapEntry, after: MapEntry, r: Resolution) -> bool
    decreases before,
{
    after.span == before.span && expr_resolved(before.key, after.key, r) && expr_resolved(before.value, after.value, r)
}

pub open spec fn entries_resolved(before: Seq<MapEntry>, after: Seq<MapEntry>, r: Resolution) -> bool
    decreases before,
{
    before.len() == after.len() && forall|j: int| 0 <= j < before.len() ==> entry_resolved(#[trigger] before[j], after[j], r)
}

pub open spec fn arm_resolved(before: MatchArm, after: MatchArm, r: Resolution) -> bool
    decreases before,
{
    after.span == before.span && after.default == before.default && exprs_resolved(
        before.conditions@,
        after.conditions@,
        r,
    ) && expr_resolved(before.value, after.value, r)
}

pub open spec fn arms_resolved(before: Seq<MatchArm>, after: Seq<MatchArm>, r: Resolution) -> bool
    decreases before,
{
    before.len() == after.len() && forall|j: int| 0 <= j < before.len() ==> arm_resolved(#[trigger] before[j], after[j], r)
}

pub open spec fn opt_expr_resolved(before: Option<Expr>, after: Option<Expr>, r: Resolution) -> bool {
    match (before, after) {
        (Some(x), Some(y)) => expr_resolved(x, y, r),
        (None, None) => true,
        _ => false,
    }
}

/// Resolves the names a written type mentions.
fn resolve_type(ty: &mut TypeSyntax, scope: &Scope, index: &ExportIndex)
    ensures
        type_resolved(*old(ty), *final(ty), resolution(scope, index)),
    decreases *old(ty),
{
    match &mut ty.kind {
        TypeSyntaxKind::Named { name, arguments } => {
            *name = resolve_type_name(name.as_str(), scope.namespace.as_str(), &scope.types);
            resolve_types(arguments, scope, index);
        },
        TypeSyntaxKind::Nullable(inner) => resolve_type(&mut **inner, scope, index),
        TypeSyntaxKind::Union(members) => resolve_types(members, scope, index),
    }
}

fn resolve_types(types: &mut Vec<TypeSyntax>, scope: &Scope, index: &ExportIndex)
    ensures
        final(types)@.len() == old(types)@.len(),
        forall|j: int|
            0 <= j < old(types)@.len() ==> type_resolved(
                #[trigger] old(types)@[j],
                final(types)@[j],
                resolution(scope, index),
            ),
    decreases *old(types),
{
    let ghost original = types@;
    let mut i: usize = 0;
    while i < types.len()
        invariant
            i <= types@.len(),
            types@.len() == original.len(),
            original == old(types)@,
            forall|j: int| 0 <= j < i ==> type_resolved(#[trigger] original[j], types@[j], resolution(scope, index)),
            forall|j: int| i <= j < types@.len() ==> #[trigger] types@[j] == original[j],
        decreases types.len() - i,
    {
        proof {
            assert(decreases_to!(*old(types) => old(types)@[i as int]));
        }
        resolve_type(&mut types[i], scope, index);
        i = i + 1;
    }
}

fn resolve_opt_type(ty: &mut Option<TypeSyntax>, scope: &Scope, index: &ExportIndex)
    ensures
        opt_type_resolved(*old(ty), *final(ty), resolution(scope, index)),
{
    match ty {
        Some(t) => resolve_type(t, scope, index),
        None => {},
    }
}

fn resolve_name_ref(reference: &mut NameRef, scope: &Scope)
    ensures
        final(reference).span == old(reference).span,
        final(reference).name@ == resolved_type_name(old(reference).name@, scope.namespace@, scope.types@),
{
    reference.name = resolve_type_name(reference.name.as_str(), scope.namespace.as_str(), &scope.types);
}

fn resolve_name_refs(names: &mut Vec<NameRef>, scope: &Scope, index: &ExportIndex)
    ensures
        name_refs_resolved(old(names)@, final(names)@, resolution(scope, index)),
{
    let ghost original = names@;
    let mut i: usize = 0;
    while i < names.len()
        invariant
            i <= names@.len(),
            names@.len() == original.len(),
            forall|j: int| 0 <= j < i ==> name_ref_resolved(#[trigger] original[j], names@[j], resolution(scope, index)),
            forall|j: int| i <= j < names@.len() ==> #[trigger] names@[j] == original[j],
        decreases names.len() - i,
    {
        resolve_name_ref(&mut names[i], scope);
        i = i + 1;
    }
}

fn resolve_opt_name_ref(reference: &mut Option<NameRef>, scope: &Scope, index: &ExportIndex)
    ensures
        opt_name_ref_resolved(*old(reference), *final(reference), resolution(scope, index)),
{
    match reference {
        Some(n) => resolve_name_ref(n, scope),
        None => {},
    }
}

/// Resolves the names inside an expression.
fn resolve_expr(expression: &mut Expr, scope: &Scope, index: &ExportIndex)
    requires
        index.wf(),
    ensures
        expr_resolved(*old(expression), *final(expression), resolution(scope, index)),
    decreases *old(expression),
{
    match &mut expression.kind {
        ExprKind::Call { callee, arguments } => {
            match &mut callee.kind {
                ExprKind::Name(name) => {
                    *name = resolve_function_name(
                        name.as_str(),
                        scope.namespace.as_str(),
                        &scope.functions,
                        index,
                    );
                },
                _ => resolve_expr(&mut **callee, scope, index),
            }
            resolve_args(arguments, scope, index);
        },
        ExprKind::New { class_name, arguments, .. } => {
            *class_name = resolve_type_name(class_name.as_str(), scope.namespace.as_str(), &scope.types);
            resolve_args(arguments, scope, index);
        },
        ExprKind::StaticCall { target, arguments, .. } => {
            match target {
                ScopeTarget::Named(name) => {
                    *name = resolve_type_name(name.as_str(), scope.namespace.as_str(), &scope.types);
                },
                _ => {},
            }
            resolve_args(arguments, scope, index);
        },
        ExprKind::ClassConstant { class_name, .. } => {
            *class_name = resolve_type_name(class_name.as_str(), scope.namespace.as_str(), &scope.types);
        },
        ExprKind::InstanceOf { value, class_name, .. } => {
            *class_name = resolve_type_name(class_name.as_str(), scope.namespace.as_str(), &scope.types);
            resolve_expr(&mut **value, scope, index);
        },
        ExprKind::Unary { operand, .. } => resolve_expr(&mut **operand, scope, index),
        ExprKind::Binary { left, right, .. } => {
            resolve_expr(&mut **left, scope, index);
            resolve_expr(&mut **right, scope, index);
        },
        ExprKind::Vector(values) => resolve_exprs(values, scope, index),
        ExprKind::MapLiteral(entries) => resolve_entries(entries, scope, index),
        ExprKind::Index { collection, index: key } => {
            resolve_expr(&mut **collection, scope, index);
            resolve_expr(&mut **key, scope, index);
        },
        ExprKind::Property { object, .. } => resolve_expr(&mut **object, scope, index),
        ExprKind::MethodCall { object, arguments, .. } => {
            resolve_expr(&mut **object, scope, index);
            resolve_args(arguments, scope, index);
        },
        ExprKind::Match { subject, arms } => {
            resolve_expr(&mut **subject, scope, index);
            resolve_arms(arms, scope, index);
        },
        _ => {},
    }
}

fn resolve_exprs(values: &mut Vec<Expr>, scope: &Scope, index: &ExportIndex)
    requires
        index.wf(),
    ensures
        exprs_resolved(old(values)@, final(values)@, resolution(scope, index)),
    decreases *old(values),
{
    let ghost original = values@;
    let mut i: usize = 0;
    while i < values.len()
        invariant
            index.wf(),
            i <= values@.len(),
            values@.len() == original.len(),
            original == old(values)@,
            forall|j: int| 0 <= j < i ==> expr_resolved(#[trigger] original[j], values@[j], resolution(scope, index)),
            forall|j: int| i <= j < values@.len() ==> #[trigger] values@[j] == original[j],
        decreases values.len() - i,
    {
        proof {
            assert(decreases_to!(*old(values) => old(values)@[i as int]));
        }
        resolve_expr(&mut values[i], scope, index);
        i = i + 1;
    }
}

fn resolve_args(arguments: &mut Vec<Argument>, scope: &Scope, index: &ExportIndex)
    requires
        index.wf(),
    ensures
        args_resolved(old(arguments)@, final(arguments)@, resolution(scope, index)),
    decreases *old(arguments),
{
    let ghost original = arguments@;
    let mut i: usize = 0;
    while i < arguments.len()
        invariant
            index.wf(),
            i <= arguments@.len(),
            arguments@.len() == original.len(),
            original == old(arguments)@,
            forall|j: int| 0 <= j < i ==> arg_resolved(#[trigger] original[j], arguments@[j], resolution(scope, index)),
            forall|j: int| i <= j < arguments@.len() ==> #[trigger] arguments@[j] == original[j],
        decreases arguments.len() - i,
    {
        proof {
            assert(decreases_to!(*old(arguments) => old(arguments)@[i as int].value));
        }
        resolve_expr(&mut arguments[i].value, scope, index);
        i = i + 1;
    }
}

fn resolve_entries(entries: &mut Vec<MapEntry>, scope: &Scope, index: &ExportIndex)
    requires
        index.wf(),
    ensures
        entries_resolved(old(entries)@, final(entries)@, resolution(scope, index)),
    decreases *old(entries),
{
    let ghost original = entries@;
    let mut i: usize = 0;
    while i < entries.len()
        invariant
            index.wf(),
            i <= entries@.len(),
            entries@.len() == original.len(),
            original == old(entries)@,
            forall|j: int| 0 <= j < i ==> entry_resolved(#[trigger] original[j], entries@[j], resolution(scope, index)),
            forall|j: int| i <= j < entries@.len() ==> #[trigger] entries@[j] == original[j],
        decreases entries.len() - i,
    {
        proof {
            assert(decreases_to!(*old(entries) => old(entries)@[i as int].key));
            assert(decreases_to!(*old(entries) => old(entries)@[i as int].value));
        }
        resolve_expr(&mut entries[i].key, scope, index);
        resolve_expr(&mut entries[i].value, scope, index);
        i = i + 1;
    }
}

fn resolve_arms(arms: &mut Vec<MatchArm>, scope: &Scope, index: &ExportIndex)
    requires
        index.wf(),
    ensures
        arms_resolved(old(arms)@, final(arms)@, resolution(scope, index)),
    decreases *old(arms),
{
    let ghost original = arms@;
    let mut i: usize = 0;
    while i < arms.len()
        invariant
            index.wf(),
            i <= arms@.len(),
            arms@.len() == original.len(),
            original == old(arms)@,
            forall|j: int| 0 <= j < i ==> arm_resolved(#[trigger] original[j], arms@[j], resolution(scope, index)),
            forall|j: int| i <= j < arms@.len() ==> #[trigger] arms@[j] == original[j],
        decreases arms.len() - i,
    {
        proof {
            assert(decreases_to!(*old(arms) => old(arms)@[i as int].conditions));
            assert(decreases_to!(*old(arms) => old(arms)@[i as int].value));
        }
        resolve_exprs(&mut arms[i].conditions, scope, index);
        resolve_expr(&mut arms[i].value, scope, index);
        i = i + 1;
    }
}

fn resolve_opt_expr(value: &mut Option<Expr>, scope: &Scope, index: &ExportIndex)
    requires
        index.wf(),
    ensures
        opt_expr_resolved(*old(value), *final(value), resolution(scope, index)),
{
    match value {
        Some(v) => resolve_expr(v, scope, index),
        None => {},
    }
}

/// A `for` clause with its annotation and expressions resolved.
pub open spec fn clause_resolved(before: ForClause, after: ForClause, r: Resolution) -> bool {
    after.span == before.span && match (before.kind, after.kind) {
        (
            ForClauseKind::Assign { name: n, name_span: s, annotation: a, value: v },
            ForClauseKind::Assign { name: m, name_span: t, annotation: b, value: w },
        ) => m == n && t == s && opt_type_resolved(a, b, r) && expr_resolved(v, w, r),
        (
            ForClauseKind::SetProperty { object: o, property: p, property_span: s, value: v },
            ForClauseKind::SetProperty { object: o2, property: q, property_span: t, value: w },
        ) => q == p && t == s && expr_resolved(o, o2, r) && expr_resolved(v, w, r),
        (
            ForClauseKind::SetIndex { root: n, root_span: s, indices: x, value: v },
            ForClauseKind::SetIndex { root: m, root_span: t, indices: y, value: w },
        ) => m == n && t == s && exprs_resolved(x@, y@, r) && expr_resolved(v, w, r),
        (ForClauseKind::Expression(v), ForClauseKind::Expression(w)) => expr_resolved(v, w, r),
        _ => false,
    }
}

pub open spec fn clauses_resolved(before: Seq<ForClause>, after: Seq<ForClause>, r: Resolution) -> bool {
    before.len() == after.len() && forall|j: int| 0 <= j < before.len() ==> clause_resolved(#[trigger] before[j], after[j], r)
}

/// A parameter with its type and default resolved.
pub open spec fn parameter_resolved(before: Parameter, after: Parameter, r: Resolution) -> bool {
    after.name == before.name && after.name_span == before.name_span && after.variadic == before.variadic
        && after.span == before.span && type_resolved(before.ty, after.ty, r) && opt_expr_resolved(
        before.default,
        after.default,
        r,
    )
}

pub open spec fn parameters_resolved(before: Seq<Parameter>, after: Seq<Parameter>, r: Resolution) -> bool {
    before.len() == after.len() && forall|j: int|
        0 <= j < before.len() ==> parameter_resolved(#[trigger] before[j], after[j], r)
}

/// A trait adaptation with the traits it names resolved.
pub open spec fn adaptation_resolved(before: TraitAdaptation, after: TraitAdaptation, r: Resolution) -> bool {
    match (before, after) {
        (
            TraitAdaptation::InsteadOf { trait_name: t, method: m, excluded: x, span: s },
            TraitAdaptation::InsteadOf { trait_name: u, method: n, excluded: y, span: q },
        ) => n == m && q == s && name_ref_resolved(t, u, r) && name_refs_resolved(x@, y@, r),
        (
            TraitAdaptation::Alias { trait_name: t, method: m, visibility: v, final_method: f, alias: a, span: s },
            TraitAdaptation::Alias { trait_name: u, method: n, visibility: w, final_method: g, alias: b, span: q },
        ) => n == m && w == v && g == f && b == a && q == s && name_ref_resolved(t, u, r),
        _ => false,
    }
}

/// A trait use with its traits and adaptations resolved.
pub open spec fn trait_use_resolved(before: TraitUse, after: TraitUse, r: Resolution) -> bool {
    after.span == before.span && name_refs_resolved(before.traits@, after.traits@, r)
        && before.adaptations@.len() == after.adaptations@.len() && forall|j: int|
        0 <= j < before.adaptations@.len() ==> adaptation_resolved(
            #[trigger] before.adaptations@[j],
            after.adaptations@[j],
            r,
        )
}

pub open spec fn trait_uses_resolved(before: Seq<TraitUse>, after: Seq<TraitUse>, r: Resolution) -> bool {
    before.len() == after.len() && forall|j: int|
        0 <= j < before.len() ==> trait_use_resolved(#[trigger] before[j], after[j], r)
}

/// A property with its type resolved, and its initializer too when
/// `with_initializer`.
pub open spec fn property_resolved(before: PropertyDecl, after: PropertyDecl, r: Resolution, with_initializer: bool) -> bool {
    after.name == before.name && after.name_span == before.name_span && after.visibility == before.visibility
        && after.span == before.span && type_resolved(before.ty, after.ty, r) && if with_initializer {
        opt_expr_resolved(before.initializer, after.initializer, r)
    } else {
        after.initializer == before.initializer
    }
}

pub open spec fn properties_resolved(
    before: Seq<PropertyDecl>,
    after: Seq<PropertyDecl>,
    r: Resolution,
    with_initializer: bool,
) -> bool {
    before.len() == after.len() && forall|j: int|
        0 <= j < before.len() ==> property_resolved(#[trigger] before[j], after[j], r, with_initializer)
}

/// A function with its parameters, return type and body resolved; its
/// name is left as it is.
pub open spec fn function_resolved(before: FunctionDecl, after: FunctionDecl, r: Resolution) -> bool
    decreases before,
{
    after.name == before.name && after.name_span == before.name_span && parameters_resolved(
        before.parameters@,
        after.parameters@,
        r,
    ) && type_resolved(before.return_type, after.return_type, r) && block_resolved(before.body@, after.body@, r)
}

pub open spec fn method_resolved(before: MethodDecl, after: MethodDecl, r: Resolution) -> bool
    decreases before,
{
    after.visibility == before.visibility && after.static_method == before.static_method && after.abstract_method
        == before.abstract_method && after.final_method == before.final_method && after.span == before.span
        && function_resolved(before.function, after.function, r)
}

pub open spec fn methods_resolved(before: Seq<MethodDecl>, after: Seq<MethodDecl>, r: Resolution) -> bool
    decreases before,
{
    before.len() == after.len() && forall|j: int| 0 <= j < before.len() ==> method_resolved(#[trigger] before[j], after[j], r)
}

pub open spec fn class_resolved(before: ClassDecl, after: ClassDecl, r: Resolution) -> bool
    decreases before,
{
    after.name_span == before.name_span && after.abstract_class == before.abstract_class && after.final_class
        == before.final_class && opt_name_ref_resolved(before.parent, after.parent, r) && name_refs_resolved(
        before.interfaces@,
        after.interfaces@,
        r,
    ) && trait_uses_resolved(before.trait_uses@, after.trait_uses@, r) && properties_resolved(
        before.properties@,
        after.properties@,
        r,
        true,
    ) && methods_resolved(before.methods@, after.methods@, r)
}

pub open spec fn interface_resolved(before: InterfaceDecl, after: InterfaceDecl, r: Resolution) -> bool
    decreases before,
{
    after.name_span == before.name_span && opt_name_ref_resolved(before.parent, after.parent, r) && methods_resolved(
        before.methods@,
        after.methods@,
        r,
    )
}

/// A trait's properties keep their initializers as written.
pub open spec fn trait_resolved(before: TraitDecl, after: TraitDecl, r: Resolution) -> bool
    decreases before,
{
    after.name_span == before.name_span && trait_uses_resolved(before.trait_uses@, after.trait_uses@, r)
        && properties_resolved(before.properties@, after.properties@, r, false) && methods_resolved(
        before.methods@,
        after.methods@,
        r,
    )
}

pub open spec fn catch_resolved(before: CatchClause, after: CatchClause, r: Resolution) -> bool
    decreases before,
{
    after.class_name@ == type_name_in(r, before.class_name@) && after.class_span == before.class_span
        && after.variable == before.variable && after.variable_span == before.variable_span && after.span
        == before.span && block_resolved(before.body@, after.body@, r)
}

pub open spec fn catches_resolved(before: Seq<CatchClause>, after: Seq<CatchClause>, r: Resolution) -> bool
    decreases before,
{
    before.len() == after.len() && forall|j: int| 0 <= j < before.len() ==> catch_resolved(#[trigger] before[j], after[j], r)
}

pub open spec fn branch_resolved(before: (Expr, Vec<Stmt>), after: (Expr, Vec<Stmt>), r: Resolution) -> bool
    decreases before,
{
    expr_resolved(before.0, after.0, r) && block_resolved(before.1@, after.1@, r)
}

pub open spec fn branches_resolved(before: Seq<(Expr, Vec<Stmt>)>, after: Seq<(Expr, Vec<Stmt>)>, r: Resolution) -> bool
    decreases before,
{
    before.len() == after.len() && forall|j: int| 0 <= j < before.len() ==> branch_resolved(#[trigger] before[j], after[j], r)
}

pub open spec fn opt_block_resolved(before: Option<Vec<Stmt>>, after: Option<Vec<Stmt>>, r: Resolution) -> bool
    decreases before,
{
    match (before, after) {
        (Some(x), Some(y)) => block_resolved(x@, y@, r),
        (None, None) => true,
        _ => false,
    }
}

/// `after` is the statement `before` with its names resolved: a
/// declaration's own name prefixed with the namespace, the types it
/// writes resolved as type names, and every expression inside resolved.
pub open spec fn stmt_resolved(before: Stmt, after: Stmt, r: Resolution) -> bool
    decreases before,
{
    after.span == before.span && match (before.kind, after.kind) {
        (StmtKind::Function(f), StmtKind::Function(g)) => g.name@ == qualified(r.namespace, f.name@) && g.name_span
            == f.name_span && parameters_resolved(f.parameters@, g.parameters@, r) && type_resolved(
            f.return_type,
            g.return_type,
            r,
        ) && block_resolved(f.body@, g.body@, r),
        (StmtKind::Class(c), StmtKind::Class(d)) => d.name@ == qualified(r.namespace, c.name@) && class_resolved(c, d, r),
        (StmtKind::Interface(c), StmtKind::Interface(d)) => d.name@ == qualified(r.namespace, c.name@)
            && interface_resolved(c, d, r),
        (StmtKind::Trait(c), StmtKind::Trait(d)) => d.name@ == qualified(r.namespace, c.name@) && trait_resolved(c, d, r),
        (
            StmtKind::Assign { name: n, annotation: a, value: v },
            StmtKind::Assign { name: m, annotation: b, value: w },
        ) => m == n && opt_type_resolved(a, b, r) && expr_resolved(v, w, r),
        (StmtKind::Echo(v), StmtKind::Echo(w)) => expr_resolved(v, w, r),
        (StmtKind::Throw(v), StmtKind::Throw(w)) => expr_resolved(v, w, r),
        (StmtKind::Expression(v), StmtKind::Expression(w)) => expr_resolved(v, w, r),
        (StmtKind::Return(v), StmtKind::Return(w)) => opt_expr_resolved(v, w, r),
        (StmtKind::If { branches: x, otherwise: o }, StmtKind::If { branches: y, otherwise: p }) => branches_resolved(
            x@,
            y@,
            r,
        ) && opt_block_resolved(o, p, r),
        (StmtKind::While { condition: c, body: b }, StmtKind::While { condition: d, body: e }) => expr_resolved(c, d, r)
            && block_resolved(b@, e@, r),
        (
            StmtKind::For { initializers: i1, conditions: c1, updates: u1, body: b1 },
            StmtKind::For { initializers: i2, conditions: c2, updates: u2, body: b2 },
        ) => clauses_resolved(i1@, i2@, r) && clauses_resolved(c1@, c2@, r) && clauses_resolved(u1@, u2@, r)
            && block_resolved(b1@, b2@, r),
        (
            StmtKind::Foreach { source: s, key: k, value: v, body: b },
            StmtKind::Foreach { source: t, key: l, value: w, body: c },
        ) => l == k && w == v && expr_resolved(s, t, r) && block_resolved(b@, c@, r),
        (
            StmtKind::SetProperty { object: o, property: p, property_span: s, value: v },
            StmtKind::SetProperty { object: o2, property: q, property_span: t, value: w },
        ) => q == p && t == s && expr_resolved(o, o2, r) && expr_resolved(v, w, r),
        (
            StmtKind::SetIndex { root: n, root_span: s, indices: x, value: v },
            StmtKind::SetIndex { root: m, root_span: t, indices: y, value: w },
        ) => m == n && t == s && exprs_resolved(x@, y@, r) && expr_resolved(v, w, r),
        (
            StmtKind::Try { body: b, catches: x, finally: f },
            StmtKind::Try { body: c, catches: y, finally: g },
        ) => block_resolved(b@, c@, r) && catches_resolved(x@, y@, r) && opt_block_resolved(f, g, r),
        (
            StmtKind::Using { variable: n, variable_span: s, value: v, body: b },
            StmtKind::Using { variable: m, variable_span: t, value: w, body: c },
        ) => m == n && t == s && expr_resolved(v, w, r) && block_resolved(b@, c@, r),
        (StmtKind::Block(b), StmtKind::Block(c)) => block_resolved(b@, c@, r),
        (StmtKind::Break, StmtKind::Break) => true,
        (StmtKind::Continue, StmtKind::Continue) => true,
        _ => false,
    }
}

pub open spec fn block_resolved(before: Seq<Stmt>, after: Seq<Stmt>, r: Resolution) -> bool
    decreases before,
{
    before.len() == after.len() && forall|j: int| 0 <= j < before.len() ==> stmt_resolved(#[trigger] before[j], after[j], r)
}

fn resolve_for_clause(clause: &mut ForClause, scope: &Scope, index: &ExportIndex)
    requires
        index.wf(),
    ensures
        clause_resolved(*old(clause), *final(clause), resolution(scope, index)),
{
    match &mut clause.kind {
        ForClauseKind::Assign { annotation, value, .. } => {
            resolve_opt_type(annotation, scope, index);
            resolve_expr(value, scope, index);
        },
        ForClauseKind::SetProperty { object, value, .. } => {
            resolve_expr(object, scope, index);
            resolve_expr(value, scope, index);
        },
        ForClauseKind::SetIndex { indices, value, .. } => {
            resolve_exprs(indices, scope, index);
            resolve_expr(value, scope, index);
        },
        ForClauseKind::Expression(value) => resolve_expr(value, scope, index),
    }
}

fn resolve_for_clauses(clauses: &mut Vec<ForClause>, scope: &Scope, index: &ExportIndex)
    requires
        index.wf(),
    ensures
        clauses_resolved(old(clauses)@, final(clauses)@, resolution(scope, index)),
{
    let ghost original = clauses@;
    let mut i: usize = 0;
    while i < clauses.len()
        invariant
            index.wf(),
            i <= clauses@.len(),
            clauses@.len() == original.len(),
            forall|j: int| 0 <= j < i ==> clause_resolved(#[trigger] original[j], clauses@[j], resolution(scope, index)),
            forall|j: int| i <= j < clauses@.len() ==> #[trigger] clauses@[j] == original[j],
        decreases clauses.len() - i,
    {
        resolve_for_clause(&mut clauses[i], scope, index);
        i = i + 1;
    }
}

fn resolve_parameters(parameters: &mut Vec<Parameter>, scope: &Scope, index: &ExportIndex)
    requires
        index.wf(),
    ensures
        parameters_resolved(old(parameters)@, final(parameters)@, resolution(scope, index)),
{
    let ghost original = parameters@;
    let mut i: usize = 0;
    while i < parameters.len()
        invariant
            index.wf(),
            i <= parameters@.len(),
            parameters@.len() == original.len(),
            forall|j: int|
                0 <= j < i ==> parameter_resolved(#[trigger] original[j], parameters@[j], resolution(scope, index)),
            forall|j: int| i <= j < parameters@.len() ==> #[trigger] parameters@[j] == original[j],
        decreases parameters.len() - i,
    {
        resolve_type(&mut parameters[i].ty, scope, index);
        resolve_opt_expr(&mut parameters[i].default, scope, index);
        i = i + 1;
    }
}

fn resolve_function(function: &mut FunctionDecl, scope: &Scope, index: &ExportIndex)
    requires
        index.wf(),
    ensures
        function_resolved(*old(function), *final(function), resolution(scope, index)),
    decreases *old(function),
{
    resolve_parameters(&mut function.parameters, scope, index);
    resolve_type(&mut function.return_type, scope, index);
    proof {
        assert(decreases_to!(*old(function) => old(function).body));
    }
    resolve_block(&mut function.body, scope, index);
}

fn resolve_methods(methods: &mut Vec<MethodDecl>, scope: &Scope, index: &ExportIndex)
    requires
        index.wf(),
    ensures
        methods_resolved(old(methods)@, final(methods)@, resolution(scope, index)),
    decreases *old(methods),
{
    let ghost original = methods@;
    let mut i: usize = 0;
    while i < methods.len()
        invariant
            index.wf(),
            i <= methods@.len(),
            methods@.len() == original.len(),
            original == old(methods)@,
            forall|j: int| 0 <= j < i ==> method_resolved(#[trigger] original[j], methods@[j], resolution(scope, index)),
            forall|j: int| i <= j < methods@.len() ==> #[trigger] methods@[j] == original[j],
        decreases methods.len() - i,
    {
        proof {
            assert(decreases_to!(*old(methods) => old(methods)@[i as int].function));
        }
        resolve_function(&mut methods[i].function, scope, index);
        i = i + 1;
    }
}

fn resolve_properties(properties: &mut Vec<PropertyDecl>, with_initializer: bool, scope: &Scope, index: &ExportIndex)
    requires
        index.wf(),
    ensures
        properties_resolved(old(properties)@, final(properties)@, resolution(scope, index), with_initializer),
{
    let ghost original = properties@;
    let mut i: usize = 0;
    while i < properties.len()
        invariant
            index.wf(),
            i <= properties@.len(),
            properties@.len() == original.len(),
            forall|j: int|
                0 <= j < i ==> property_resolved(
                    #[trigger] original[j],
                    properties@[j],
                    resolution(scope, index),
                    with_initializer,
                ),
            forall|j: int| i <= j < properties@.len() ==> #[trigger] properties@[j] == original[j],
        decreases properties.len() - i,
    {
        resolve_type(&mut properties[i].ty, scope, index);
        if with_initializer {
            resolve_opt_expr(&mut properties[i].initializer, scope, index);
        }
        i = i + 1;
    }
}

fn resolve_adaptation(adaptation: &mut TraitAdaptation, scope: &Scope, index: &ExportIndex)
    ensures
        adaptation_resolved(*old(adaptation), *final(adaptation), resolution(scope, index)),
{
    match adaptation {
        TraitAdaptation::InsteadOf { trait_name, excluded, .. } => {
            resolve_name_ref(trait_name, scope);
            resolve_name_refs(excluded, scope, index);
        },
        TraitAdaptation::Alias { trait_name, .. } => resolve_name_ref(trait_name, scope),
    }
}

fn resolve_trait_uses(uses: &mut Vec<TraitUse>, scope: &Scope, index: &ExportIndex)
    ensures
        trait_uses_resolved(old(uses)@, final(uses)@, resolution(scope, index)),
{
    let ghost original = uses@;
    let mut i: usize = 0;
    while i < uses.len()
        invariant
            i <= uses@.len(),
            uses@.len() == original.len(),
            forall|j: int| 0 <= j < i ==> trait_use_resolved(#[trigger] original[j], uses@[j], resolution(scope, index)),
            forall|j: int| i <= j < uses@.len() ==> #[trigger] uses@[j] == original[j],
        decreases uses.len() - i,
    {
        resolve_name_refs(&mut uses[i].traits, scope, index);
        let ghost before = uses@[i as int].adaptations@;
        let mut k: usize = 0;
        while k < uses[i].adaptations.len()
            invariant
                i < uses@.len(),
                uses@.len() == original.len(),
                k <= uses@[i as int].adaptations@.len(),
                uses@[i as int].adaptations@.len() == before.len(),
                uses@[i as int].span == original[i as int].span,
                name_refs_resolved(original[i as int].traits@, uses@[i as int].traits@, resolution(scope, index)),
                original[i as int].adaptations@ == before,
                forall|j: int|
                    0 <= j < k ==> adaptation_resolved(
                        #[trigger] before[j],
                        uses@[i as int].adaptations@[j],
                        resolution(scope, index),
                    ),
                forall|j: int|
                    k <= j < uses@[i as int].adaptations@.len() ==> #[trigger] uses@[i as int].adaptations@[j]
                        == before[j],
                forall|j: int| 0 <= j < i ==> trait_use_resolved(#[trigger] original[j], uses@[j], resolution(scope, index)),
                forall|j: int| i < j < uses@.len() ==> #[trigger] uses@[j] == original[j],
            decreases uses@[i as int].adaptations@.len() - k,
        {
            resolve_adaptation(&mut uses[i].adaptations[k], scope, index);
            k = k + 1;
        }
        i = i + 1;
    }
}

fn resolve_class(class: &mut ClassDecl, scope: &Scope, index: &ExportIndex)
    requires
        index.wf(),
    ensures
        class_resolved(*old(class), *final(class), resolution(scope, index)),
        final(class).name == old(class).name,
    decreases *old(class),
{
    resolve_opt_name_ref(&mut class.parent, scope, index);
    resolve_name_refs(&mut class.interfaces, scope, index);
    resolve_trait_uses(&mut class.trait_uses, scope, index);
    resolve_properties(&mut class.properties, true, scope, index);
    proof {
        assert(decreases_to!(*old(class) => old(class).methods));
    }
    resolve_methods(&mut class.methods, scope, index);
}

fn resolve_interface(interface: &mut InterfaceDecl, scope: &Scope, index: &ExportIndex)
    requires
        index.wf(),
    ensures
        interface_resolved(*old(interface), *final(interface), resolution(scope, index)),
        final(interface).name == old(interface).name,
    decreases *old(interface),
{
    resolve_opt_name_ref(&mut interface.parent, scope, index);
    proof {
        assert(decreases_to!(*old(interface) => old(interface).methods));
    }
    resolve_methods(&mut interface.methods, scope, index);
}

fn resolve_trait(trait_decl: &mut TraitDecl, scope: &Scope, index: &ExportIndex)
    requires
        index.wf(),
    ensures
        trait_resolved(*old(trait_decl), *final(trait_decl), resolution(scope, index)),
        final(trait_decl).name == old(trait_decl).name,
    decreases *old(trait_decl),
{
    resolve_trait_uses(&mut trait_decl.trait_uses, scope, index);
    resolve_properties(&mut trait_decl.properties, false, scope, index);
    proof {
        assert(decreases_to!(*old(trait_decl) => old(trait_decl).methods));
    }
    resolve_methods(&mut trait_decl.methods, scope, index);
}

fn resolve_opt_block(block: &mut Option<Vec<Stmt>>, scope: &Scope, index: &ExportIndex)
    requires
        index.wf(),
    ensures
        opt_block_resolved(*old(block), *final(block), resolution(scope, index)),
    decreases *old(block),
{
    match block {
        Some(b) => resolve_block(b, scope, index),
        None => {},
    }
}

fn resolve_branches(branches: &mut Vec<(Expr, Vec<Stmt>)>, scope: &Scope, index: &ExportIndex)
    requires
        index.wf(),
    ensures
        branches_resolved(old(branches)@, final(branches)@, resolution(scope, index)),
    decreases *old(branches),
{
    let ghost original = branches@;
    let mut i: usize = 0;
    while i < branches.len()
        invariant
            index.wf(),
            i <= branches@.len(),
            branches@.len() == original.len(),
            original == old(branches)@,
            forall|j: int| 0 <= j < i ==> branch_resolved(#[trigger] original[j], branches@[j], resolution(scope, index)),
            forall|j: int| i <= j < branches@.len() ==> #[trigger] branches@[j] == original[j],
        decreases branches.len() - i,
    {
        proof {
            assert(decreases_to!(*old(branches) => old(branches)@[i as int].1));
        }
        resolve_expr(&mut branches[i].0, scope, index);
        resolve_block(&mut branches[i].1, scope, index);
        i = i + 1;
    }
}

fn resolve_catches(catches: &mut Vec<CatchClause>, scope: &Scope, index: &ExportIndex)
    requires
        index.wf(),
    ensures
        catches_resolved(old(catches)@, final(catches)@, resolution(scope, index)),
    decreases *old(catches),
{
    let ghost original = catches@;
    let mut i: usize = 0;
    while i < catches.len()
        invariant
            index.wf(),
            i <= catches@.len(),
            catches@.len() == original.len(),
            original == old(catches)@,
            forall|j: int| 0 <= j < i ==> catch_resolved(#[trigger] original[j], catches@[j], resolution(scope, index)),
            forall|j: int| i <= j < catches@.len() ==> #[trigger] catches@[j] == original[j],
        decreases catches.len() - i,
    {
        proof {
            assert(decreases_to!(*old(catches) => old(catches)@[i as int].body));
        }
        catches[i].class_name = resolve_type_name(
            catches[i].class_name.as_str(),
            scope.namespace.as_str(),
            &scope.types,
        );
        resolve_block(&mut catches[i].body, scope, index);
        i = i + 1;
    }
}

/// Resolves the names inside a statement.
fn resolve_statement(statement: &mut Stmt, scope: &Scope, index: &ExportIndex)
    requires
        index.wf(),
    ensures
        stmt_resolved(*old(statement), *final(statement), resolution(scope, index)),
    decreases *old(statement),
{
    match &mut statement.kind {
        StmtKind::Function(declaration) => {
            resolve_function(declaration, scope, index);
            declaration.name = qualify_declaration(scope.namespace.as_str(), declaration.name.as_str());
        },
        StmtKind::Class(declaration) => {
            resolve_class(declaration, scope, index);
            declaration.name = qualify_declaration(scope.namespace.as_str(), declaration.name.as_str());
        },
        StmtKind::Interface(declaration) => {
            resolve_interface(declaration, scope, index);
            declaration.name = qualify_declaration(scope.namespace.as_str(), declaration.name.as_str());
        },
        StmtKind::Trait(declaration) => {
            resolve_trait(declaration, scope, index);
            declaration.name = qualify_declaration(scope.namespace.as_str(), declaration.name.as_str());
        },
        StmtKind::Assign { annotation, value, .. } => {
            resolve_opt_type(annotation, scope, index);
            resolve_expr(value, scope, index);
        },
        StmtKind::Echo(value) => resolve_expr(value, scope, index),
        StmtKind::Throw(value) => resolve_expr(value, scope, index),
        StmtKind::Expression(value) => resolve_expr(value, scope, index),
        StmtKind::Return(value) => resolve_opt_expr(value, scope, index),
        StmtKind::If { branches, otherwise } => {
            resolve_branches(branches, scope, index);
            resolve_opt_block(otherwise, scope, index);
        },
        StmtKind::While { condition, body } => {
            resolve_expr(condition, scope, index);
            resolve_block(body, scope, index);
        },
        StmtKind::For { initializers, conditions, updates, body } => {
            resolve_for_clauses(initializers, scope, index);
            resolve_for_clauses(conditions, scope, index);
            resolve_for_clauses(updates, scope, index);
            resolve_block(body, scope, index);
        },
        StmtKind::Foreach { source, body, .. } => {
            resolve_expr(source, scope, index);
            resolve_block(body, scope, index);
        },
        StmtKind::SetProperty { object, value, .. } => {
            resolve_expr(object, scope, index);
            resolve_expr(value, scope, index);
        },
        StmtKind::SetIndex { indices, value, .. } => {
            resolve_exprs(indices, scope, index);
            resolve_expr(value, scope, index);
        },
        StmtKind::Try { body, catches, finally } => {
            resolve_block(body, scope, index);
            resolve_catches(catches, scope, index);
            resolve_opt_block(finally, scope, index);
        },
        StmtKind::Using { value, body, .. } => {
            resolve_expr(value, scope, index);
            resolve_block(body, scope, index);
        },
        StmtKind::Block(body) => resolve_block(body, scope, index),
        StmtKind::Break => {},
        StmtKind::Continue => {},
    }
}

/// Resolves the names inside each statement of a block.
fn resolve_block(block: &mut Vec<Stmt>, scope: &Scope, index: &ExportIndex)
    requires
        index.wf(),
    ensures
        block_resolved(old(block)@, final(block)@, resolution(scope, index)),
    decreases *old(block),
{
    let ghost original = block@;
    let mut i: usize = 0;
    while i < block.len()
        invariant
            index.wf(),
            i <= block@.len(),
            block@.len() == original.len(),
            original == old(block)@,
            forall|j: int| 0 <= j < i ==> stmt_resolved(#[trigger] original[j], block@[j], resolution(scope, index)),
            forall|j: int| i <= j < block@.len() ==> #[trigger] block@[j] == original[j],
        decreases block.len() - i,
    {
        proof {
            assert(decreases_to!(*old(block) => old(block)@[i as int]));
        }
        resolve_statement(&mut block[i], scope, index);
        i = i + 1;
    }
}

/// The namespace a program declares, its segments joined by `\\`; empty
/// for the global namespace.
pub open spec fn program_namespace(program: Program) -> Seq<char> {
    match program.namespace {
        Some(n) => joined_segments(n.name),
        None => Seq::empty(),
    }
}

/// What a program's names resolve against: its namespace, the aliases its
/// imports bind, and the project's exports.
pub open spec fn resolution_of(program: Program, index: Seq<ExportModel>, r: Resolution) -> bool {
    &&& r.namespace == program_namespace(program)
    &&& r.index == index
    &&& forall|a: Seq<char>| #[trigger] alias_of(r.types, a) == bound(program.imports@, UseKind::Type, a)
    &&& forall|a: Seq<char>| #[trigger] alias_of(r.functions, a) == bound(program.imports@, UseKind::Function, a)
}

/// Resolves every name in a program to the canonical name it stands for,
/// and reports the imports that rebind an alias or name nothing exported.
pub fn resolve_program(program: &mut Program, index: &ExportIndex) -> (diagnostics: Vec<Diagnostic>)
    requires
        index.wf(),
    ensures
        final(program).namespace == old(program).namespace,
        final(program).imports == old(program).imports,
        final(program).span == old(program).span,
        exists|r: Resolution|
            resolution_of(*old(program), index@, r) && block_resolved(
                old(program).statements@,
                final(program).statements@,
                r,
            ),
        diagnostics@.len() == import_issues(old(program).imports@, index@).len(),
        forall|k: int|
            0 <= k < diagnostics@.len() ==> reports_import(
                #[trigger] diagnostics@[k],
                import_issues(old(program).imports@, index@)[k],
            ),
{
    let namespace = match &program.namespace {
        Some(n) => join_segments(&n.name.segments),
        None => String::new(),
    };
    let bindings = bind_imports(program.imports.as_slice(), index);
    let scope = Scope { namespace, types: bindings.types, functions: bindings.functions };
    resolve_block(&mut program.statements, &scope, index);
    proof {
        let r = resolution(&scope, index);
        assert(resolution_of(*old(program), index@, r));
    }
    bindings.diagnostics
}

} // verus!
