//! The module graph of a project: the edges that imports, signatures and
//! bodies make between modules, and the declaration groups they form.

use vstd::prelude::*;
use crate::modules::{same_text, DeclarationKind, DependencyEdge, DependencyKind, ModuleGraph, ModuleId, ModulePath};
use crate::modules::deps::{
    block_deps, collect_body_block, collect_signature_dependencies, deps_of, program_sig_deps, Dep,
};
use crate::modules::graph::{declaration_groups_of, edge_ends, edge_keys, edges_sorted, groups_view, ids, ids_sorted};
use crate::modules::names::{
    import_edge_keys, import_edges, lookup, lookup_type, unknown_imports, ExportIndex, ExportModel,
};
use crate::modules::resolve::{block_resolved, resolution_of, resolve_program, Resolution};
use crate::syntax::ast::Program;
use crate::syntax::lexer::Span;

verus! {

broadcast use vstd::std_specs::vec::group_vec_axioms;

/// The export a dependency names: a function, or a class, interface or
/// trait.
pub open spec fn dependency_target(index: Seq<ExportModel>, is_function: bool, symbol: Seq<char>) -> Option<ExportModel> {
    if is_function {
        lookup(index, DeclarationKind::Function, symbol)
    } else {
        lookup_type(index, symbol)
    }
}

/// The edges of `kind` that dependencies make, in order: one to the
/// exporting module of each named export that another module exports.
pub open spec fn dependency_edge_keys(
    module: Seq<char>,
    deps: Seq<Dep>,
    kind: DependencyKind,
    index: Seq<ExportModel>,
) -> Seq<(Seq<char>, Seq<char>, DependencyKind, Seq<char>)>
    decreases deps.len(),
{
    if deps.len() == 0 {
        Seq::empty()
    } else {
        let d = deps.last();
        let rest = dependency_edge_keys(module, deps.drop_last(), kind, index);
        match dependency_target(index, d.0, d.1) {
            Some(e) => if e.module != module {
                rest.push((module, e.module, kind, d.1))
            } else {
                rest
            },
            None => rest,
        }
    }
}

fn dependency_export<'a>(index: &'a ExportIndex, is_function: bool, symbol: &str) -> (found: Option<&'a crate::modules::names::Export>)
    requires
        index.wf(),
    ensures
        match dependency_target(index@, is_function, symbol@) {
            Some(e) => found matches Some(x) && x@ == e,
            None => found is None,
        },
{
    if is_function {
        index.get(DeclarationKind::Function, symbol)
    } else {
        index.find_type(symbol)
    }
}

/// Appends the edges of `kind` that dependencies make.
fn dependency_edges(
    module: &ModuleId,
    deps: &Vec<(bool, String)>,
    kind: DependencyKind,
    index: &ExportIndex,
    edges: &mut Vec<DependencyEdge>,
)
    requires
        index.wf(),
    ensures
        edge_keys(final(edges)@) == edge_keys(old(edges)@) + dependency_edge_keys(module@, deps_of(deps@), kind, index@),
{
    let ghost before = edge_keys(edges@);
    let ghost all = deps_of(deps@);
    let mut i: usize = 0;
    while i < deps.len()
        invariant
            i <= deps@.len(),
            index.wf(),
            all == deps_of(deps@),
            edge_keys(edges@) == before + dependency_edge_keys(module@, all.subrange(0, i as int), kind, index@),
        decreases deps.len() - i,
    {
        let ghost done = all.subrange(0, i as int);
        let ghost next = all.subrange(0, i as int + 1);
        assert(next.drop_last() =~= done);
        assert(next.last() == (deps@[i as int].0, deps@[i as int].1@));
        let symbol = &deps[i].1;
        let ghost keys = edge_keys(edges@);
        match dependency_export(index, deps[i].0, symbol.as_str()) {
            Some(e) => {
                if !same_text(e.module.as_str(), module.as_str()) {
                    edges.push(DependencyEdge { from: module.clone(), to: e.module.clone(), kind, symbol: symbol.clone() });
                    assert(edge_keys(edges@) =~= keys.push((module@, e.module@, kind, symbol@)));
                }
            },
            None => {},
        }
        i = i + 1;
    }
    assert(all.subrange(0, all.len() as int) =~= all);
}

/// `after` is the program `before` with its names resolved.
pub open spec fn program_resolved(before: Program, after: Program, index: Seq<ExportModel>) -> bool {
    exists|r: Resolution| resolution_of(before, index, r) && block_resolved(before.statements@, after.statements@, r)
}

/// The edges one module makes, in order: its imports', then its resolved
/// signatures', then its resolved bodies'.
pub open spec fn module_edge_keys(
    module: Seq<char>,
    before: Program,
    after: Program,
    index: Seq<ExportModel>,
) -> Seq<(Seq<char>, Seq<char>, DependencyKind, Seq<char>)> {
    import_edge_keys(module, before.imports@, index) + dependency_edge_keys(
        module,
        program_sig_deps(after.statements@),
        DependencyKind::Signature,
        index,
    ) + dependency_edge_keys(module, block_deps(after.statements@), DependencyKind::Body, index)
}

/// The edges all the modules make, in order.
pub open spec fn all_edge_keys(
    units: Seq<(ModulePath, Program)>,
    resolved: Seq<Program>,
    index: Seq<ExportModel>,
) -> Seq<(Seq<char>, Seq<char>, DependencyKind, Seq<char>)>
    decreases units.len(),
{
    if units.len() == 0 {
        Seq::empty()
    } else {
        let k = units.len() - 1;
        all_edge_keys(units.drop_last(), resolved, index) + module_edge_keys(
            units[k].0.id@,
            units[k].1,
            resolved[k],
            index,
        )
    }
}

/// The imports of all the modules whose targets nothing exports, in order.
pub open spec fn all_unknown_imports(units: Seq<(ModulePath, Program)>, index: Seq<ExportModel>) -> Seq<
    (Seq<char>, Seq<char>, Span),
>
    decreases units.len(),
{
    if units.len() == 0 {
        Seq::empty()
    } else {
        all_unknown_imports(units.drop_last(), index) + unknown_imports(
            units.last().0.id@,
            units.last().1.imports@,
            index,
        )
    }
}

/// The programs of the units.
pub open spec fn programs(units: Seq<(ModulePath, Program)>) -> Seq<Program> {
    units.map_values(|u: (ModulePath, Program)| u.1)
}

proof fn lemma_all_edges_frame(
    units: Seq<(ModulePath, Program)>,
    a: Seq<Program>,
    b: Seq<Program>,
    index: Seq<ExportModel>,
)
    requires
        units.len() <= a.len(),
        units.len() <= b.len(),
        forall|k: int| 0 <= k < units.len() ==> a[k] == b[k],
    ensures
        all_edge_keys(units, a, index) == all_edge_keys(units, b, index),
    decreases units.len(),
{
    if units.len() > 0 {
        lemma_all_edges_frame(units.drop_last(), a, b, index);
    }
}

pub open spec fn unit_ids(units: Seq<(ModulePath, Program)>) -> Seq<Seq<char>> {
    units.map_values(|u: (ModulePath, Program)| u.0.id@)
}

pub open spec fn unknown_view(v: Seq<(ModuleId, String, Span)>) -> Seq<(Seq<char>, Seq<char>, Span)> {
    v.map_values(|u: (ModuleId, String, Span)| (u.0@, u.1@, u.2))
}

/// `resolved` holds the units' programs resolved, and an `Ok` graph has
/// the units' modules in ID order, exactly the edges that the modules
/// make, in edge order, and the declaration groups those edges form.
pub open spec fn built_from(
    units: Seq<(ModulePath, Program)>,
    resolved: Seq<Program>,
    index: Seq<ExportModel>,
    graph: Result<ModuleGraph, Vec<(ModuleId, String, Span)>>,
) -> bool {
    &&& resolved.len() == units.len()
    &&& forall|k: int| 0 <= k < units.len() ==> program_resolved(#[trigger] units[k].1, resolved[k], index)
    &&& graph matches Ok(g) ==> {
        &&& ids_sorted(ids(g.modules@))
        &&& ids(g.modules@).to_multiset() == unit_ids(units).to_multiset()
        &&& edges_sorted(edge_keys(g.edges@))
        &&& forall|x: (Seq<char>, Seq<char>, DependencyKind, Seq<char>)| #[trigger]
            edge_keys(g.edges@).contains(x) <==> all_edge_keys(units, resolved, index).contains(x)
        &&& declaration_groups_of(groups_view(g.declaration_groups@), ids(g.modules@), edge_ends(g.edges@))
    }
}

impl ModuleGraph {
    /// Builds the project's module graph. Each module's imports make
    /// import edges; its program, resolved, makes signature and body edges
    /// to the modules that export what it names. Fails with every import
    /// of something nothing exports.
    pub fn build(units: Vec<(ModulePath, Program)>, index: &ExportIndex) -> (graph: Result<
        ModuleGraph,
        Vec<(ModuleId, String, Span)>,
    >)
        requires
            index.wf(),
        ensures
            all_unknown_imports(units@, index@).len() > 0 <==> graph is Err,
            graph matches Err(unknown) ==> unknown_view(unknown@) == all_unknown_imports(units@, index@),
            exists|resolved: Seq<Program>| #[trigger] built_from(units@, resolved, index@, graph),
    {
        let ghost original = units@;
        let mut units = units;
        let mut modules: Vec<ModuleId> = Vec::new();
        let mut edges: Vec<DependencyEdge> = Vec::new();
        let mut unknown: Vec<(ModuleId, String, Span)> = Vec::new();
        let mut i: usize = 0;
        while i < units.len()
            invariant
                index.wf(),
                i <= units@.len(),
                units@.len() == original.len(),
                forall|k: int| 0 <= k < units@.len() ==> #[trigger] units@[k].0 == original[k].0,
                forall|k: int| i <= k < units@.len() ==> #[trigger] units@[k].1 == original[k].1,
                forall|k: int| 0 <= k < i ==> program_resolved(original[k].1, #[trigger] units@[k].1, index@),
                ids(modules@) == unit_ids(original.subrange(0, i as int)),
                edge_keys(edges@) == all_edge_keys(original.subrange(0, i as int), programs(units@), index@),
                unknown_view(unknown@) == all_unknown_imports(original.subrange(0, i as int), index@),
            decreases units.len() - i,
        {
            let ghost done = original.subrange(0, i as int);
            let ghost next = original.subrange(0, i as int + 1);
            assert(next.drop_last() =~= done);
            let ghost before = units@;
            let ghost keys_before = edge_keys(edges@);
            let ghost unknown_before = unknown_view(unknown@);
            let ghost ids_before = ids(modules@);
            let (mut found, mut missing) = import_edges(&units[i].0.id, units[i].1.imports.as_slice(), index);
            let ghost found_keys = edge_keys(found@);
            let ghost missing_view = unknown_view(missing@);
            edges.append(&mut found);
            unknown.append(&mut missing);
            modules.push(units[i].0.id.clone());
            assert(edge_keys(edges@) =~= keys_before + found_keys);
            assert(unknown_view(unknown@) =~= unknown_before + missing_view);
            assert(ids(modules@) =~= ids_before.push(original[i as int].0.id@));
            assert(unit_ids(next) =~= unit_ids(done).push(original[i as int].0.id@));
            let _ = resolve_program(&mut units[i].1, index);
            let mut signature_dependencies: Vec<(bool, String)> = Vec::new();
            collect_signature_dependencies(&units[i].1, &mut signature_dependencies);
            assert(deps_of(signature_dependencies@) =~= program_sig_deps(units@[i as int].1.statements@));
            dependency_edges(&units[i].0.id, &signature_dependencies, DependencyKind::Signature, index, &mut edges);
            let mut body_dependencies: Vec<(bool, String)> = Vec::new();
            collect_body_block(&units[i].1.statements, &mut body_dependencies);
            assert(deps_of(body_dependencies@) =~= block_deps(units@[i as int].1.statements@));
            dependency_edges(&units[i].0.id, &body_dependencies, DependencyKind::Body, index, &mut edges);
            proof {
                lemma_all_edges_frame(done, programs(before), programs(units@), index@);
                assert(edge_keys(edges@) == all_edge_keys(next, programs(units@), index@));
            }
            i = i + 1;
        }
        assert(original.subrange(0, original.len() as int) =~= original);
        if unknown.len() > 0 {
            proof {
                assert(programs(units@).len() == original.len());
                assert(forall|k: int| 0 <= k < original.len() ==> program_resolved(original[k].1, #[trigger] programs(units@)[k], index@));
            }
            let failed = Err(unknown);
            assert(built_from(original, programs(units@), index@, failed));
            return failed;
        }
        let graph = ModuleGraph::assemble(modules, edges);
        proof {
            assert(programs(units@).len() == original.len());
            assert(forall|k: int| 0 <= k < original.len() ==> program_resolved(original[k].1, #[trigger] programs(units@)[k], index@));
        }
        let built = Ok(graph);
        assert(built_from(original, programs(units@), index@, built));
        built
    }
}


proof fn lemma_import_edges_leave(module: Seq<char>, imports: Seq<crate::syntax::UseDecl>, index: Seq<ExportModel>)
    ensures
        forall|k: int|
            0 <= k < import_edge_keys(module, imports, index).len() ==> (#[trigger] import_edge_keys(module, imports, index)[k]).0
                == module && import_edge_keys(module, imports, index)[k].1 != module,
    decreases imports.len(),
{
    if imports.len() > 0 {
        let rest = import_edge_keys(module, imports.drop_last(), index);
        lemma_import_edges_leave(module, imports.drop_last(), index);
        let all = import_edge_keys(module, imports, index);
        assert forall|k: int| 0 <= k < all.len() implies (#[trigger] all[k]).0 == module && all[k].1 != module by {
            if k < rest.len() {
                assert(all[k] == rest[k]);
            }
        }
    }
}

proof fn lemma_dependency_edges_leave(module: Seq<char>, deps: Seq<Dep>, kind: DependencyKind, index: Seq<ExportModel>)
    ensures
        forall|k: int|
            0 <= k < dependency_edge_keys(module, deps, kind, index).len() ==> (#[trigger] dependency_edge_keys(
                module,
                deps,
                kind,
                index,
            )[k]).0 == module && dependency_edge_keys(module, deps, kind, index)[k].1 != module,
    decreases deps.len(),
{
    if deps.len() > 0 {
        let rest = dependency_edge_keys(module, deps.drop_last(), kind, index);
        lemma_dependency_edges_leave(module, deps.drop_last(), kind, index);
        let all = dependency_edge_keys(module, deps, kind, index);
        assert forall|k: int| 0 <= k < all.len() implies (#[trigger] all[k]).0 == module && all[k].1 != module by {
            if k < rest.len() {
                assert(all[k] == rest[k]);
            }
        }
    }
}

proof fn lemma_all_edges_leave(units: Seq<(ModulePath, Program)>, resolved: Seq<Program>, index: Seq<ExportModel>)
    ensures
        forall|x: (Seq<char>, Seq<char>, DependencyKind, Seq<char>)|
            #[trigger] all_edge_keys(units, resolved, index).contains(x) ==> x.0 != x.1 && unit_ids(units).contains(x.0),
    decreases units.len(),
{
    if units.len() > 0 {
        let k = units.len() - 1;
        let rest = all_edge_keys(units.drop_last(), resolved, index);
        let m = units[k].0.id@;
        lemma_all_edges_leave(units.drop_last(), resolved, index);
        lemma_import_edges_leave(m, units[k].1.imports@, index);
        lemma_dependency_edges_leave(m, program_sig_deps(resolved[k].statements@), DependencyKind::Signature, index);
        lemma_dependency_edges_leave(m, block_deps(resolved[k].statements@), DependencyKind::Body, index);
        let own = module_edge_keys(m, units[k].1, resolved[k], index);
        assert forall|x: (Seq<char>, Seq<char>, DependencyKind, Seq<char>)| #[trigger]
            all_edge_keys(units, resolved, index).contains(x) implies x.0 != x.1 && unit_ids(units).contains(x.0) by {
            let all = all_edge_keys(units, resolved, index);
            assert(all == rest + own);
            let i = choose|i: int| 0 <= i < all.len() && all[i] == x;
            assert(unit_ids(units)[k] == m);
            if i < rest.len() {
                assert(rest.contains(x));
                assert(unit_ids(units.drop_last()).contains(x.0));
                let j = choose|j: int| 0 <= j < unit_ids(units.drop_last()).len() && unit_ids(units.drop_last())[j] == x.0;
                assert(unit_ids(units)[j] == x.0);
            } else {
                let o = i - rest.len();
                let imports = import_edge_keys(m, units[k].1.imports@, index);
                let sigs = dependency_edge_keys(m, program_sig_deps(resolved[k].statements@), DependencyKind::Signature, index);
                let bodies = dependency_edge_keys(m, block_deps(resolved[k].statements@), DependencyKind::Body, index);
                assert(own == imports + sigs + bodies);
                if o < imports.len() {
                    assert(imports[o] == x);
                } else if o < imports.len() + sigs.len() {
                    assert(sigs[o - imports.len()] == x);
                } else {
                    assert(bodies[o - imports.len() - sigs.len()] == x);
                }
            }
        }
    }
}

/// A module never depends on itself, and every edge of a built graph
/// leaves one of the graph's modules for another.
pub proof fn lemma_edges_join_distinct_modules(
    units: Seq<(ModulePath, Program)>,
    resolved: Seq<Program>,
    index: Seq<ExportModel>,
    graph: ModuleGraph,
)
    requires
        built_from(units, resolved, index, Ok(graph)),
    ensures
        forall|k: int|
            0 <= k < graph.edges@.len() ==> (#[trigger] graph.edges@[k]).from@ != graph.edges@[k].to@ && ids(
                graph.modules@,
            ).contains(graph.edges@[k].from@),
{
    lemma_all_edges_leave(units, resolved, index);
    assert forall|k: int| 0 <= k < graph.edges@.len() implies (#[trigger] graph.edges@[k]).from@ != graph.edges@[k].to@
        && ids(graph.modules@).contains(graph.edges@[k].from@) by {
        let x = edge_keys(graph.edges@)[k];
        assert(edge_keys(graph.edges@).contains(x));
        assert(all_edge_keys(units, resolved, index).contains(x));
        broadcast use vstd::seq_lib::group_to_multiset_ensures;
        assert(unit_ids(units).to_multiset().count(x.0) > 0);
        assert(ids(graph.modules@).to_multiset().count(x.0) > 0);
    }
}

} // verus!
