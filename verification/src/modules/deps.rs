//! The names a module's declarations depend on: those its signatures
//! mention, and those its bodies call, construct or test against.

use vstd::prelude::*;
use crate::modules::{builtin_type, builtin_type_names, is_builtin_type, lemma_builtin_type_names};
use crate::syntax::ast::{
    Argument, CatchClause, Expr, ExprKind, ForClause, ForClauseKind, FunctionDecl, MapEntry, MatchArm,
    MethodDecl, NameRef, Parameter, Program, PropertyDecl, ScopeTarget, Stmt, StmtKind, TraitUse, TypeSyntax,
    TypeSyntaxKind,
};

verus! {

broadcast use vstd::std_specs::vec::group_vec_axioms;

/// A dependency: whether it names a function, and the name.
pub type Dep = (bool, Seq<char>);

/// The dependencies held in a list of `(is_function, name)` pairs.
pub open spec fn deps_of(v: Seq<(bool, String)>) -> Seq<Dep> {
    v.map_values(|p: (bool, String)| (p.0, p.1@))
}

proof fn lemma_deps_push(v: Seq<(bool, String)>, p: (bool, String))
    ensures
        deps_of(v.push(p)) == deps_of(v).push((p.0, p.1@)),
{
    assert(deps_of(v.push(p)) =~= deps_of(v).push((p.0, p.1@)));
}

/// Appends one dependency.
fn push_dep(output: &mut Vec<(bool, String)>, is_function: bool, name: &String)
    ensures
        deps_of(final(output)@) == deps_of(old(output)@).push((is_function, name@)),
{
    let ghost before = output@;
    let copy = name.clone();
    let ghost pair = (is_function, copy);
    output.push((is_function, copy));
    proof {
        lemma_deps_push(before, pair);
    }
}

/// The named types a written type mentions, builtin types left out, in
/// the order they are written.
pub open spec fn type_deps(ty: TypeSyntax) -> Seq<Dep>
    decreases ty,
{
    match ty.kind {
        TypeSyntaxKind::Named { name, arguments } => {
            let own = if builtin_type(name@) { Seq::empty() } else { seq![(false, name@)] };
            own + types_deps(arguments@)
        },
        TypeSyntaxKind::Nullable(inner) => type_deps(*inner),
        TypeSyntaxKind::Union(members) => types_deps(members@),
    }
}

/// A builtin type is no dependency: a written type that names a builtin
/// type without type arguments contributes nothing, and one that names
/// anything else contributes that name, as a type.
pub proof fn lemma_builtin_types_are_no_dependencies(ty: TypeSyntax)
    ensures
        ty.kind matches TypeSyntaxKind::Named { name, arguments } ==> (arguments@.len() == 0 ==> type_deps(ty) == if builtin_type_names().contains(name@) {
            Seq::<Dep>::empty()
        } else {
            seq![(false, name@)]
        }),
{
    if let TypeSyntaxKind::Named { name, arguments } = ty.kind {
        lemma_builtin_type_names(name@);
        if arguments@.len() == 0 {
            assert(types_deps(arguments@) == Seq::<Dep>::empty());
            assert(Seq::<Dep>::empty() + Seq::<Dep>::empty() =~= Seq::<Dep>::empty());
            assert(seq![(false, name@)] + Seq::<Dep>::empty() =~= seq![(false, name@)]);
        }
    }
}

/// The dependencies of several types, in order.
pub open spec fn types_deps(tys: Seq<TypeSyntax>) -> Seq<Dep>
    decreases tys,
{
    if tys.len() == 0 {
        Seq::empty()
    } else {
        types_deps(tys.drop_last()) + type_deps(tys.last())
    }
}

/// Appends the named types `ty` mentions.
pub fn collect_type_dependencies(ty: &TypeSyntax, output: &mut Vec<(bool, String)>)
    ensures
        deps_of(final(output)@) == deps_of(old(output)@) + type_deps(*ty),
    decreases ty,
{
    match &ty.kind {
        TypeSyntaxKind::Named { name, arguments } => {
            let ghost before = deps_of(output@);
            if !is_builtin_type(name.as_str()) {
                push_dep(output, false, name);
            }
            collect_types(arguments, output);
            assert(deps_of(output@) =~= before + type_deps(*ty));
        },
        TypeSyntaxKind::Nullable(inner) => collect_type_dependencies(inner, output),
        TypeSyntaxKind::Union(members) => collect_types(members, output),
    }
}

fn collect_types(tys: &Vec<TypeSyntax>, output: &mut Vec<(bool, String)>)
    ensures
        deps_of(final(output)@) == deps_of(old(output)@) + types_deps(tys@),
    decreases tys,
{
    let ghost before = deps_of(output@);
    let mut i: usize = 0;
    while i < tys.len()
        invariant
            i <= tys@.len(),
            deps_of(output@) == before + types_deps(tys@.subrange(0, i as int)),
        decreases tys.len() - i,
    {
        assert(tys@.subrange(0, i as int + 1).drop_last() =~= tys@.subrange(0, i as int));
        collect_type_dependencies(&tys[i], output);
        i = i + 1;
    }
    assert(tys@.subrange(0, tys@.len() as int) =~= tys@);
}


/// The names an expression calls as functions, and the classes it
/// constructs, calls statically, reads constants of or tests against, in
/// the order they are written.
pub open spec fn expr_deps(e: Expr) -> Seq<Dep>
    decreases e,
{
    match e.kind {
        ExprKind::Call { callee, arguments } => {
            let head = match callee.kind {
                ExprKind::Name(name) => seq![(true, name@)],
                _ => expr_deps(*callee),
            };
            head + args_deps(arguments@)
        },
        ExprKind::New { class_name, arguments, .. } => seq![(false, class_name@)] + args_deps(arguments@),
        ExprKind::StaticCall { target, arguments, .. } => {
            let head = match target {
                ScopeTarget::Named(name) => seq![(false, name@)],
                _ => Seq::empty(),
            };
            head + args_deps(arguments@)
        },
        ExprKind::ClassConstant { class_name, .. } => seq![(false, class_name@)],
        ExprKind::InstanceOf { value, class_name, .. } => seq![(false, class_name@)] + expr_deps(*value),
        ExprKind::Unary { operand, .. } => expr_deps(*operand),
        ExprKind::Binary { left, right, .. } => expr_deps(*left) + expr_deps(*right),
        ExprKind::Vector(values) => exprs_deps(values@),
        ExprKind::MapLiteral(entries) => entries_deps(entries@),
        ExprKind::Index { collection, index } => expr_deps(*collection) + expr_deps(*index),
        ExprKind::Property { object, .. } => expr_deps(*object),
        ExprKind::MethodCall { object, arguments, .. } => expr_deps(*object) + args_deps(arguments@),
        ExprKind::Match { subject, arms } => expr_deps(*subject) + arms_deps(arms@),
        _ => Seq::empty(),
    }
}

/// The dependencies of several expressions, in order.
pub open spec fn exprs_deps(es: Seq<Expr>) -> Seq<Dep>
    decreases es,
{
    if es.len() == 0 {
        Seq::empty()
    } else {
        exprs_deps(es.drop_last()) + expr_deps(es.last())
    }
}

/// The dependencies of call arguments' values, in order.
pub open spec fn args_deps(args: Seq<Argument>) -> Seq<Dep>
    decreases args,
{
    if args.len() == 0 {
        Seq::empty()
    } else {
        args_deps(args.drop_last()) + expr_deps(args.last().value)
    }
}

/// The dependencies of map entries, each key before its value.
pub open spec fn entries_deps(entries: Seq<MapEntry>) -> Seq<Dep>
    decreases entries,
{
    if entries.len() == 0 {
        Seq::empty()
    } else {
        entries_deps(entries.drop_last()) + expr_deps(entries.last().key) + expr_deps(entries.last().value)
    }
}

/// The dependencies of match arms, each arm's conditions before its value.
pub open spec fn arms_deps(arms: Seq<MatchArm>) -> Seq<Dep>
    decreases arms,
{
    if arms.len() == 0 {
        Seq::empty()
    } else {
        arms_deps(arms.drop_last()) + exprs_deps(arms.last().conditions@) + expr_deps(arms.last().value)
    }
}

/// Appends the dependencies of an expression.
pub fn collect_body_expr(expression: &Expr, output: &mut Vec<(bool, String)>)
    ensures
        deps_of(final(output)@) == deps_of(old(output)@) + expr_deps(*expression),
    decreases expression,
{
    let ghost before = deps_of(output@);
    match &expression.kind {
        ExprKind::Call { callee, arguments } => {
            match &callee.kind {
                ExprKind::Name(name) => push_dep(output, true, name),
                _ => collect_body_expr(callee, output),
            }
            collect_args(arguments, output);
        },
        ExprKind::New { class_name, arguments, .. } => {
            push_dep(output, false, class_name);
            collect_args(arguments, output);
        },
        ExprKind::StaticCall { target, arguments, .. } => {
            match target {
                ScopeTarget::Named(name) => push_dep(output, false, name),
                _ => {},
            }
            collect_args(arguments, output);
        },
        ExprKind::ClassConstant { class_name, .. } => push_dep(output, false, class_name),
        ExprKind::InstanceOf { value, class_name, .. } => {
            push_dep(output, false, class_name);
            collect_body_expr(value, output);
        },
        ExprKind::Unary { operand, .. } => collect_body_expr(operand, output),
        ExprKind::Binary { left, right, .. } => {
            collect_body_expr(left, output);
            collect_body_expr(right, output);
        },
        ExprKind::Vector(values) => collect_exprs(values, output),
        ExprKind::MapLiteral(entries) => collect_entries(entries, output),
        ExprKind::Index { collection, index } => {
            collect_body_expr(collection, output);
            collect_body_expr(index, output);
        },
        ExprKind::Property { object, .. } => collect_body_expr(object, output),
        ExprKind::MethodCall { object, arguments, .. } => {
            collect_body_expr(object, output);
            collect_args(arguments, output);
        },
        ExprKind::Match { subject, arms } => {
            collect_body_expr(subject, output);
            collect_arms(arms, output);
        },
        _ => {},
    }
    assert(deps_of(output@) =~= before + expr_deps(*expression));
}

fn collect_exprs(es: &Vec<Expr>, output: &mut Vec<(bool, String)>)
    ensures
        deps_of(final(output)@) == deps_of(old(output)@) + exprs_deps(es@),
    decreases es,
{
    let ghost before = deps_of(output@);
    let mut i: usize = 0;
    while i < es.len()
        invariant
            i <= es@.len(),
            deps_of(output@) == before + exprs_deps(es@.subrange(0, i as int)),
        decreases es.len() - i,
    {
        assert(es@.subrange(0, i as int + 1).drop_last() =~= es@.subrange(0, i as int));
        collect_body_expr(&es[i], output);
        i = i + 1;
    }
    assert(es@.subrange(0, es@.len() as int) =~= es@);
}

fn collect_args(args: &Vec<Argument>, output: &mut Vec<(bool, String)>)
    ensures
        deps_of(final(output)@) == deps_of(old(output)@) + args_deps(args@),
    decreases args,
{
    let ghost before = deps_of(output@);
    let mut i: usize = 0;
    while i < args.len()
        invariant
            i <= args@.len(),
            deps_of(output@) == before + args_deps(args@.subrange(0, i as int)),
        decreases args.len() - i,
    {
        assert(args@.subrange(0, i as int + 1).drop_last() =~= args@.subrange(0, i as int));
        collect_body_expr(&args[i].value, output);
        i = i + 1;
    }
    assert(args@.subrange(0, args@.len() as int) =~= args@);
}

fn collect_entries(entries: &Vec<MapEntry>, output: &mut Vec<(bool, String)>)
    ensures
        deps_of(final(output)@) == deps_of(old(output)@) + entries_deps(entries@),
    decreases entries,
{
    let ghost before = deps_of(output@);
    let mut i: usize = 0;
    while i < entries.len()
        invariant
            i <= entries@.len(),
            deps_of(output@) == before + entries_deps(entries@.subrange(0, i as int)),
        decreases entries.len() - i,
    {
        assert(entries@.subrange(0, i as int + 1).drop_last() =~= entries@.subrange(0, i as int));
        collect_body_expr(&entries[i].key, output);
        collect_body_expr(&entries[i].value, output);
        i = i + 1;
    }
    assert(entries@.subrange(0, entries@.len() as int) =~= entries@);
}

fn collect_arms(arms: &Vec<MatchArm>, output: &mut Vec<(bool, String)>)
    ensures
        deps_of(final(output)@) == deps_of(old(output)@) + arms_deps(arms@),
    decreases arms,
{
    let ghost before = deps_of(output@);
    let mut i: usize = 0;
    while i < arms.len()
        invariant
            i <= arms@.len(),
            deps_of(output@) == before + arms_deps(arms@.subrange(0, i as int)),
        decreases arms.len() - i,
    {
        assert(arms@.subrange(0, i as int + 1).drop_last() =~= arms@.subrange(0, i as int));
        collect_exprs(&arms[i].conditions, output);
        collect_body_expr(&arms[i].value, output);
        i = i + 1;
    }
    assert(arms@.subrange(0, arms@.len() as int) =~= arms@);
}

/// The dependencies of an optional type.
pub open spec fn opt_type_deps(ty: Option<TypeSyntax>) -> Seq<Dep> {
    match ty {
        Some(t) => type_deps(t),
        None => Seq::empty(),
    }
}

/// The dependencies of an optional expression.
pub open spec fn opt_expr_deps(e: Option<Expr>) -> Seq<Dep> {
    match e {
        Some(v) => expr_deps(v),
        None => Seq::empty(),
    }
}

/// The dependencies of a `for` clause.
pub open spec fn clause_deps(c: ForClause) -> Seq<Dep> {
    match c.kind {
        ForClauseKind::Assign { annotation, value, .. } => opt_type_deps(annotation) + expr_deps(value),
        ForClauseKind::SetProperty { object, value, .. } => expr_deps(object) + expr_deps(value),
        ForClauseKind::SetIndex { indices, value, .. } => exprs_deps(indices@) + expr_deps(value),
        ForClauseKind::Expression(value) => expr_deps(value),
    }
}

/// The dependencies of several `for` clauses, in order.
pub open spec fn clauses_deps(cs: Seq<ForClause>) -> Seq<Dep>
    decreases cs.len(),
{
    if cs.len() == 0 {
        Seq::empty()
    } else {
        clauses_deps(cs.drop_last()) + clause_deps(cs.last())
    }
}

/// The dependencies of property initializers, in order.
pub open spec fn initializers_deps(ps: Seq<PropertyDecl>) -> Seq<Dep>
    decreases ps.len(),
{
    if ps.len() == 0 {
        Seq::empty()
    } else {
        initializers_deps(ps.drop_last()) + opt_expr_deps(ps.last().initializer)
    }
}

/// What a statement's bodies depend on: the functions they call and the
/// classes they construct, call statically, read constants of, test
/// against or catch, and the types their local annotations name, in the
/// order they are written.
pub open spec fn stmt_deps(st: Stmt) -> Seq<Dep>
    decreases st,
{
    match st.kind {
        StmtKind::Function(f) => block_deps(f.body@),
        StmtKind::Class(c) => initializers_deps(c.properties@) + method_bodies_deps(c.methods@),
        StmtKind::Trait(t) => initializers_deps(t.properties@) + method_bodies_deps(t.methods@),
        StmtKind::Interface(_) | StmtKind::Break | StmtKind::Continue => Seq::empty(),
        StmtKind::Assign { annotation, value, .. } => opt_type_deps(annotation) + expr_deps(value),
        StmtKind::Echo(v) | StmtKind::Throw(v) | StmtKind::Expression(v) => expr_deps(v),
        StmtKind::Return(v) => opt_expr_deps(v),
        StmtKind::If { branches, otherwise } => branches_deps(branches@) + match otherwise {
            Some(b) => block_deps(b@),
            None => Seq::empty(),
        },
        StmtKind::While { condition, body } => expr_deps(condition) + block_deps(body@),
        StmtKind::For { initializers, conditions, updates, body } => clauses_deps(initializers@)
            + clauses_deps(conditions@) + clauses_deps(updates@) + block_deps(body@),
        StmtKind::Foreach { source, body, .. } => expr_deps(source) + block_deps(body@),
        StmtKind::SetProperty { object, value, .. } => expr_deps(object) + expr_deps(value),
        StmtKind::SetIndex { indices, value, .. } => exprs_deps(indices@) + expr_deps(value),
        StmtKind::Try { body, catches, finally } => block_deps(body@) + catches_deps(catches@) + match finally {
            Some(b) => block_deps(b@),
            None => Seq::empty(),
        },
        StmtKind::Using { value, body, .. } => expr_deps(value) + block_deps(body@),
        StmtKind::Block(body) => block_deps(body@),
    }
}

/// The body dependencies of several statements, in order.
pub open spec fn block_deps(b: Seq<Stmt>) -> Seq<Dep>
    decreases b,
{
    if b.len() == 0 {
        Seq::empty()
    } else {
        block_deps(b.drop_last()) + stmt_deps(b.last())
    }
}

/// The dependencies of the branches of an `if`, each condition before its
/// block.
pub open spec fn branches_deps(bs: Seq<(Expr, Vec<Stmt>)>) -> Seq<Dep>
    decreases bs,
{
    if bs.len() == 0 {
        Seq::empty()
    } else {
        branches_deps(bs.drop_last()) + expr_deps(bs.last().0) + block_deps(bs.last().1@)
    }
}

/// The dependencies of `catch` clauses: each caught class, then its block.
pub open spec fn catches_deps(cs: Seq<CatchClause>) -> Seq<Dep>
    decreases cs,
{
    if cs.len() == 0 {
        Seq::empty()
    } else {
        catches_deps(cs.drop_last()) + seq![(false, cs.last().class_name@)] + block_deps(cs.last().body@)
    }
}

/// The body dependencies of methods, in order.
pub open spec fn method_bodies_deps(ms: Seq<MethodDecl>) -> Seq<Dep>
    decreases ms,
{
    if ms.len() == 0 {
        Seq::empty()
    } else {
        method_bodies_deps(ms.drop_last()) + block_deps(ms.last().function.body@)
    }
}

fn collect_opt_type(ty: &Option<TypeSyntax>, output: &mut Vec<(bool, String)>)
    ensures
        deps_of(final(output)@) == deps_of(old(output)@) + opt_type_deps(*ty),
{
    match ty {
        Some(t) => collect_type_dependencies(t, output),
        None => assert(deps_of(output@) =~= deps_of(output@) + Seq::<Dep>::empty()),
    }
}

fn collect_opt_expr(e: &Option<Expr>, output: &mut Vec<(bool, String)>)
    ensures
        deps_of(final(output)@) == deps_of(old(output)@) + opt_expr_deps(*e),
{
    match e {
        Some(v) => collect_body_expr(v, output),
        None => assert(deps_of(output@) =~= deps_of(output@) + Seq::<Dep>::empty()),
    }
}

fn collect_clause(c: &ForClause, output: &mut Vec<(bool, String)>)
    ensures
        deps_of(final(output)@) == deps_of(old(output)@) + clause_deps(*c),
{
    let ghost before = deps_of(output@);
    match &c.kind {
        ForClauseKind::Assign { annotation, value, .. } => {
            collect_opt_type(annotation, output);
            collect_body_expr(value, output);
        },
        ForClauseKind::SetProperty { object, value, .. } => {
            collect_body_expr(object, output);
            collect_body_expr(value, output);
        },
        ForClauseKind::SetIndex { indices, value, .. } => {
            collect_exprs(indices, output);
            collect_body_expr(value, output);
        },
        ForClauseKind::Expression(value) => collect_body_expr(value, output),
    }
    assert(deps_of(output@) =~= before + clause_deps(*c));
}

fn collect_clauses(cs: &Vec<ForClause>, output: &mut Vec<(bool, String)>)
    ensures
        deps_of(final(output)@) == deps_of(old(output)@) + clauses_deps(cs@),
{
    let ghost before = deps_of(output@);
    let mut i: usize = 0;
    while i < cs.len()
        invariant
            i <= cs@.len(),
            deps_of(output@) == before + clauses_deps(cs@.subrange(0, i as int)),
        decreases cs.len() - i,
    {
        assert(cs@.subrange(0, i as int + 1).drop_last() =~= cs@.subrange(0, i as int));
        collect_clause(&cs[i], output);
        i = i + 1;
    }
    assert(cs@.subrange(0, cs@.len() as int) =~= cs@);
}

fn collect_initializers(ps: &Vec<PropertyDecl>, output: &mut Vec<(bool, String)>)
    ensures
        deps_of(final(output)@) == deps_of(old(output)@) + initializers_deps(ps@),
{
    let ghost before = deps_of(output@);
    let mut i: usize = 0;
    while i < ps.len()
        invariant
            i <= ps@.len(),
            deps_of(output@) == before + initializers_deps(ps@.subrange(0, i as int)),
        decreases ps.len() - i,
    {
        assert(ps@.subrange(0, i as int + 1).drop_last() =~= ps@.subrange(0, i as int));
        collect_opt_expr(&ps[i].initializer, output);
        i = i + 1;
    }
    assert(ps@.subrange(0, ps@.len() as int) =~= ps@);
}

/// Appends what a statement's bodies depend on.
pub fn collect_body_statement(statement: &Stmt, output: &mut Vec<(bool, String)>)
    ensures
        deps_of(final(output)@) == deps_of(old(output)@) + stmt_deps(*statement),
    decreases statement,
{
    let ghost before = deps_of(output@);
    match &statement.kind {
        StmtKind::Function(function) => collect_body_block(&function.body, output),
        StmtKind::Class(class) => {
            collect_initializers(&class.properties, output);
            collect_method_bodies(&class.methods, output);
        },
        StmtKind::Trait(trait_decl) => {
            collect_initializers(&trait_decl.properties, output);
            collect_method_bodies(&trait_decl.methods, output);
        },
        StmtKind::Interface(_) | StmtKind::Break | StmtKind::Continue => {},
        StmtKind::Assign { annotation, value, .. } => {
            collect_opt_type(annotation, output);
            collect_body_expr(value, output);
        },
        StmtKind::Echo(value) | StmtKind::Throw(value) | StmtKind::Expression(value) => {
            collect_body_expr(value, output);
        },
        StmtKind::Return(value) => collect_opt_expr(value, output),
        StmtKind::If { branches, otherwise } => {
            collect_branches(branches, output);
            match otherwise {
                Some(block) => collect_body_block(block, output),
                None => {},
            }
        },
        StmtKind::While { condition, body } => {
            collect_body_expr(condition, output);
            collect_body_block(body, output);
        },
        StmtKind::For { initializers, conditions, updates, body } => {
            collect_clauses(initializers, output);
            collect_clauses(conditions, output);
            collect_clauses(updates, output);
            collect_body_block(body, output);
        },
        StmtKind::Foreach { source, body, .. } => {
            collect_body_expr(source, output);
            collect_body_block(body, output);
        },
        StmtKind::SetProperty { object, value, .. } => {
            collect_body_expr(object, output);
            collect_body_expr(value, output);
        },
        StmtKind::SetIndex { indices, value, .. } => {
            collect_exprs(indices, output);
            collect_body_expr(value, output);
        },
        StmtKind::Try { body, catches, finally } => {
            collect_body_block(body, output);
            collect_catches(catches, output);
            match finally {
                Some(block) => collect_body_block(block, output),
                None => {},
            }
        },
        StmtKind::Using { value, body, .. } => {
            collect_body_expr(value, output);
            collect_body_block(body, output);
        },
        StmtKind::Block(body) => collect_body_block(body, output),
    }
    assert(deps_of(output@) =~= before + stmt_deps(*statement));
}

/// Appends what the statements of a block depend on, in order.
pub fn collect_body_block(block: &Vec<Stmt>, output: &mut Vec<(bool, String)>)
    ensures
        deps_of(final(output)@) == deps_of(old(output)@) + block_deps(block@),
    decreases block,
{
    let ghost before = deps_of(output@);
    let mut i: usize = 0;
    while i < block.len()
        invariant
            i <= block@.len(),
            deps_of(output@) == before + block_deps(block@.subrange(0, i as int)),
        decreases block.len() - i,
    {
        assert(block@.subrange(0, i as int + 1).drop_last() =~= block@.subrange(0, i as int));
        collect_body_statement(&block[i], output);
        i = i + 1;
    }
    assert(block@.subrange(0, block@.len() as int) =~= block@);
}

fn collect_branches(bs: &Vec<(Expr, Vec<Stmt>)>, output: &mut Vec<(bool, String)>)
    ensures
        deps_of(final(output)@) == deps_of(old(output)@) + branches_deps(bs@),
    decreases bs,
{
    let ghost before = deps_of(output@);
    let mut i: usize = 0;
    while i < bs.len()
        invariant
            i <= bs@.len(),
            deps_of(output@) == before + branches_deps(bs@.subrange(0, i as int)),
        decreases bs.len() - i,
    {
        assert(bs@.subrange(0, i as int + 1).drop_last() =~= bs@.subrange(0, i as int));
        collect_body_expr(&bs[i].0, output);
        collect_body_block(&bs[i].1, output);
        i = i + 1;
    }
    assert(bs@.subrange(0, bs@.len() as int) =~= bs@);
}

fn collect_catches(cs: &Vec<CatchClause>, output: &mut Vec<(bool, String)>)
    ensures
        deps_of(final(output)@) == deps_of(old(output)@) + catches_deps(cs@),
    decreases cs,
{
    let ghost before = deps_of(output@);
    let mut i: usize = 0;
    while i < cs.len()
        invariant
            i <= cs@.len(),
            deps_of(output@) == before + catches_deps(cs@.subrange(0, i as int)),
        decreases cs.len() - i,
    {
        assert(cs@.subrange(0, i as int + 1).drop_last() =~= cs@.subrange(0, i as int));
        push_dep(output, false, &cs[i].class_name);
        collect_body_block(&cs[i].body, output);
        i = i + 1;
    }
    assert(cs@.subrange(0, cs@.len() as int) =~= cs@);
}

fn collect_method_bodies(ms: &Vec<MethodDecl>, output: &mut Vec<(bool, String)>)
    ensures
        deps_of(final(output)@) == deps_of(old(output)@) + method_bodies_deps(ms@),
    decreases ms,
{
    let ghost before = deps_of(output@);
    let mut i: usize = 0;
    while i < ms.len()
        invariant
            i <= ms@.len(),
            deps_of(output@) == before + method_bodies_deps(ms@.subrange(0, i as int)),
        decreases ms.len() - i,
    {
        assert(ms@.subrange(0, i as int + 1).drop_last() =~= ms@.subrange(0, i as int));
        collect_body_block(&ms[i].function.body, output);
        i = i + 1;
    }
    assert(ms@.subrange(0, ms@.len() as int) =~= ms@);
}

/// The types written in parameters' declarations, in order.
pub open spec fn parameter_types_deps(ps: Seq<Parameter>) -> Seq<Dep>
    decreases ps.len(),
{
    if ps.len() == 0 {
        Seq::empty()
    } else {
        parameter_types_deps(ps.drop_last()) + type_deps(ps.last().ty)
    }
}

/// What a function's signature names: its parameter types, then its
/// return type.
pub open spec fn function_sig_deps(f: FunctionDecl) -> Seq<Dep> {
    parameter_types_deps(f.parameters@) + type_deps(f.return_type)
}

/// Names written in a header, each as a class-like dependency.
pub open spec fn names_deps(ns: Seq<NameRef>) -> Seq<Dep>
    decreases ns.len(),
{
    if ns.len() == 0 {
        Seq::empty()
    } else {
        names_deps(ns.drop_last()) + seq![(false, ns.last().name@)]
    }
}

/// The traits named by trait uses, in order.
pub open spec fn trait_uses_deps(us: Seq<TraitUse>) -> Seq<Dep>
    decreases us.len(),
{
    if us.len() == 0 {
        Seq::empty()
    } else {
        trait_uses_deps(us.drop_last()) + names_deps(us.last().traits@)
    }
}

/// The declared types of properties, in order.
pub open spec fn property_types_deps(ps: Seq<PropertyDecl>) -> Seq<Dep>
    decreases ps.len(),
{
    if ps.len() == 0 {
        Seq::empty()
    } else {
        property_types_deps(ps.drop_last()) + type_deps(ps.last().ty)
    }
}

/// The signatures of methods, in order.
pub open spec fn method_sigs_deps(ms: Seq<MethodDecl>) -> Seq<Dep>
    decreases ms.len(),
{
    if ms.len() == 0 {
        Seq::empty()
    } else {
        method_sigs_deps(ms.drop_last()) + function_sig_deps(ms.last().function)
    }
}

/// A parent named in a header, if any.
pub open spec fn parent_deps(parent: Option<NameRef>) -> Seq<Dep> {
    match parent {
        Some(p) => seq![(false, p.name@)],
        None => Seq::empty(),
    }
}

/// What a top-level declaration's signature names: a function's
/// parameter and return types; a class's parent, interfaces, used traits,
/// property types and method signatures; an interface's parent and method
/// signatures; a trait's used traits, property types and method
/// signatures. Other statements name nothing.
pub open spec fn declaration_sig_deps(st: Stmt) -> Seq<Dep> {
    match st.kind {
        StmtKind::Function(f) => function_sig_deps(f),
        StmtKind::Class(c) => parent_deps(c.parent) + names_deps(c.interfaces@) + trait_uses_deps(c.trait_uses@)
            + property_types_deps(c.properties@) + method_sigs_deps(c.methods@),
        StmtKind::Interface(i) => parent_deps(i.parent) + method_sigs_deps(i.methods@),
        StmtKind::Trait(t) => trait_uses_deps(t.trait_uses@) + property_types_deps(t.properties@) + method_sigs_deps(
            t.methods@,
        ),
        _ => Seq::empty(),
    }
}

/// The signature dependencies of top-level statements, in order.
pub open spec fn program_sig_deps(sts: Seq<Stmt>) -> Seq<Dep>
    decreases sts.len(),
{
    if sts.len() == 0 {
        Seq::empty()
    } else {
        program_sig_deps(sts.drop_last()) + declaration_sig_deps(sts.last())
    }
}

fn collect_parameter_types(ps: &Vec<Parameter>, output: &mut Vec<(bool, String)>)
    ensures
        deps_of(final(output)@) == deps_of(old(output)@) + parameter_types_deps(ps@),
{
    let ghost before = deps_of(output@);
    let mut i: usize = 0;
    while i < ps.len()
        invariant
            i <= ps@.len(),
            deps_of(output@) == before + parameter_types_deps(ps@.subrange(0, i as int)),
        decreases ps.len() - i,
    {
        assert(ps@.subrange(0, i as int + 1).drop_last() =~= ps@.subrange(0, i as int));
        collect_type_dependencies(&ps[i].ty, output);
        i = i + 1;
    }
    assert(ps@.subrange(0, ps@.len() as int) =~= ps@);
}

/// Appends what a function's signature names.
pub fn collect_function_signature(function: &FunctionDecl, output: &mut Vec<(bool, String)>)
    ensures
        deps_of(final(output)@) == deps_of(old(output)@) + function_sig_deps(*function),
{
    let ghost before = deps_of(output@);
    collect_parameter_types(&function.parameters, output);
    collect_type_dependencies(&function.return_type, output);
    assert(deps_of(output@) =~= before + function_sig_deps(*function));
}

fn collect_names(ns: &Vec<NameRef>, output: &mut Vec<(bool, String)>)
    ensures
        deps_of(final(output)@) == deps_of(old(output)@) + names_deps(ns@),
{
    let ghost before = deps_of(output@);
    let mut i: usize = 0;
    while i < ns.len()
        invariant
            i <= ns@.len(),
            deps_of(output@) == before + names_deps(ns@.subrange(0, i as int)),
        decreases ns.len() - i,
    {
        assert(ns@.subrange(0, i as int + 1).drop_last() =~= ns@.subrange(0, i as int));
        push_dep(output, false, &ns[i].name);
        i = i + 1;
    }
    assert(ns@.subrange(0, ns@.len() as int) =~= ns@);
}

fn collect_trait_uses(us: &Vec<TraitUse>, output: &mut Vec<(bool, String)>)
    ensures
        deps_of(final(output)@) == deps_of(old(output)@) + trait_uses_deps(us@),
{
    let ghost before = deps_of(output@);
    let mut i: usize = 0;
    while i < us.len()
        invariant
            i <= us@.len(),
            deps_of(output@) == before + trait_uses_deps(us@.subrange(0, i as int)),
        decreases us.len() - i,
    {
        assert(us@.subrange(0, i as int + 1).drop_last() =~= us@.subrange(0, i as int));
        collect_names(&us[i].traits, output);
        i = i + 1;
    }
    assert(us@.subrange(0, us@.len() as int) =~= us@);
}

fn collect_property_types(ps: &Vec<PropertyDecl>, output: &mut Vec<(bool, String)>)
    ensures
        deps_of(final(output)@) == deps_of(old(output)@) + property_types_deps(ps@),
{
    let ghost before = deps_of(output@);
    let mut i: usize = 0;
    while i < ps.len()
        invariant
            i <= ps@.len(),
            deps_of(output@) == before + property_types_deps(ps@.subrange(0, i as int)),
        decreases ps.len() - i,
    {
        assert(ps@.subrange(0, i as int + 1).drop_last() =~= ps@.subrange(0, i as int));
        collect_type_dependencies(&ps[i].ty, output);
        i = i + 1;
    }
    assert(ps@.subrange(0, ps@.len() as int) =~= ps@);
}

fn collect_method_signatures(ms: &Vec<MethodDecl>, output: &mut Vec<(bool, String)>)
    ensures
        deps_of(final(output)@) == deps_of(old(output)@) + method_sigs_deps(ms@),
{
    let ghost before = deps_of(output@);
    let mut i: usize = 0;
    while i < ms.len()
        invariant
            i <= ms@.len(),
            deps_of(output@) == before + method_sigs_deps(ms@.subrange(0, i as int)),
        decreases ms.len() - i,
    {
        assert(ms@.subrange(0, i as int + 1).drop_last() =~= ms@.subrange(0, i as int));
        collect_function_signature(&ms[i].function, output);
        i = i + 1;
    }
    assert(ms@.subrange(0, ms@.len() as int) =~= ms@);
}

fn collect_parent(parent: &Option<NameRef>, output: &mut Vec<(bool, String)>)
    ensures
        deps_of(final(output)@) == deps_of(old(output)@) + parent_deps(*parent),
{
    match parent {
        Some(p) => push_dep(output, false, &p.name),
        None => assert(deps_of(output@) =~= deps_of(output@) + Seq::<Dep>::empty()),
    }
}

fn collect_declaration_signature(statement: &Stmt, output: &mut Vec<(bool, String)>)
    ensures
        deps_of(final(output)@) == deps_of(old(output)@) + declaration_sig_deps(*statement),
{
    let ghost before = deps_of(output@);
    match &statement.kind {
        StmtKind::Function(function) => collect_function_signature(function, output),
        StmtKind::Class(class) => {
            collect_parent(&class.parent, output);
            collect_names(&class.interfaces, output);
            collect_trait_uses(&class.trait_uses, output);
            collect_property_types(&class.properties, output);
            collect_method_signatures(&class.methods, output);
        },
        StmtKind::Interface(interface) => {
            collect_parent(&interface.parent, output);
            collect_method_signatures(&interface.methods, output);
        },
        StmtKind::Trait(trait_decl) => {
            collect_trait_uses(&trait_decl.trait_uses, output);
            collect_property_types(&trait_decl.properties, output);
            collect_method_signatures(&trait_decl.methods, output);
        },
        _ => {},
    }
    assert(deps_of(output@) =~= before + declaration_sig_deps(*statement));
}

/// Appends what the signatures of a program's top-level declarations
/// name, in order.
pub fn collect_signature_dependencies(program: &Program, output: &mut Vec<(bool, String)>)
    ensures
        deps_of(final(output)@) == deps_of(old(output)@) + program_sig_deps(program.statements@),
{
    let ghost before = deps_of(output@);
    let statements = &program.statements;
    let mut i: usize = 0;
    while i < statements.len()
        invariant
            i <= statements@.len(),
            deps_of(output@) == before + program_sig_deps(statements@.subrange(0, i as int)),
        decreases statements.len() - i,
    {
        assert(statements@.subrange(0, i as int + 1).drop_last() =~= statements@.subrange(0, i as int));
        collect_declaration_signature(&statements[i], output);
        i = i + 1;
    }
    assert(statements@.subrange(0, statements@.len() as int) =~= statements@);
}

} // verus!
