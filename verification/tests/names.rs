use thp::modules::names::{
    bind_imports, build_export_index, import_edges, resolve_function_name, resolve_qualified, resolve_type_name, Aliases, Export, ExportIndex,
    ModuleInterface, SourceId,
};
use thp::modules::{DeclarationKind, DependencyKind, ModuleGraph, ModuleId};
use thp::syntax::{QualifiedName, UseDecl, UseKind};
use thp::syntax::Span;

fn export(name: &str, kind: DeclarationKind, module: &str) -> Export {
    Export {
        name: name.to_owned(),
        kind,
        module: ModuleId::new(module.to_owned()).unwrap(),
        source: SourceId(0),
        span: Span { start: 0, end: 1 },
    }
}

fn interface(module: &str, exports: Vec<Export>) -> ModuleInterface {
    ModuleInterface {
        module: ModuleId::new(module.to_owned()).unwrap(),
        namespace: "Vendor".to_owned(),
        exports,
        interface_hash: String::new(),
    }
}

fn vendor_index() -> ExportIndex {
    build_export_index(&[interface(
        "Vendor\\Client",
        vec![
            export("Vendor\\make", DeclarationKind::Function, "Vendor\\Client"),
            export("Vendor\\Client", DeclarationKind::Class, "Vendor\\Client"),
        ],
    )])
    .unwrap()
}

#[test]
fn export_index_finds_functions_and_types() {
    let index = vendor_index();
    assert!(index.get(DeclarationKind::Function, "Vendor\\make").is_some());
    assert!(index.get(DeclarationKind::Class, "Vendor\\make").is_none());
    assert_eq!(index.find_type("Vendor\\Client").unwrap().kind, DeclarationKind::Class);
    assert!(index.find_type("Vendor\\Other").is_none());
    let names: Vec<&str> = index.exports().iter().map(|e| e.name.as_str()).collect();
    assert_eq!(names, ["Vendor\\make", "Vendor\\Client"]);
}

#[test]
fn colliding_exports_are_reported_in_pairs() {
    let duplicates = build_export_index(&[
        interface("A", vec![export("X\\f", DeclarationKind::Function, "A")]),
        interface("B", vec![export("X\\f", DeclarationKind::Function, "B"), export("X\\f", DeclarationKind::Class, "B")]),
    ])
    .unwrap_err();
    assert_eq!(duplicates.len(), 1);
    assert_eq!(duplicates[0].0.module.as_str(), "A");
    assert_eq!(duplicates[0].1.module.as_str(), "B");
}

#[test]
fn inserting_a_taken_key_returns_both_exports() {
    let mut index = ExportIndex::new();
    assert!(index.insert(export("T", DeclarationKind::Trait, "M")).is_ok());
    let (previous, refused) = index.insert(export("T", DeclarationKind::Trait, "N")).unwrap_err();
    assert_eq!(previous.module.as_str(), "M");
    assert_eq!(refused.module.as_str(), "N");
    assert_eq!(index.exports().len(), 1);
}

#[test]
fn aliases_rebind_and_report_the_previous_target() {
    let mut aliases = Aliases::new();
    assert_eq!(aliases.insert("C".to_owned(), "Vendor\\Client".to_owned()), None);
    assert_eq!(aliases.get("C"), Some("Vendor\\Client"));
    assert_eq!(aliases.insert("C".to_owned(), "Other\\C".to_owned()), Some("Vendor\\Client".to_owned()));
    assert_eq!(aliases.get("C"), Some("Other\\C"));
    assert_eq!(aliases.get("D"), None);
}

#[test]
fn names_resolve_through_aliases_and_namespaces() {
    let mut aliases = Aliases::new();
    aliases.insert("C".to_owned(), "Vendor\\Client".to_owned());
    assert_eq!(resolve_qualified("C", "App", &aliases), "Vendor\\Client");
    assert_eq!(resolve_qualified("C\\Inner", "App", &aliases), "Vendor\\Client\\Inner");
    assert_eq!(resolve_qualified("Local", "App", &aliases), "App\\Local");
    assert_eq!(resolve_qualified("Local", "", &aliases), "Local");
    assert_eq!(resolve_type_name("\\\\Root\\T", "App", &aliases), "Root\\T");
    assert_eq!(resolve_type_name("int", "App", &aliases), "int");
    assert_eq!(resolve_type_name("C", "App", &aliases), "Vendor\\Client");
}

#[test]
fn aliases_resolve_imported_types_and_functions() {
    let index = vendor_index();
    let mut types = Aliases::new();
    types.insert("C".to_owned(), "Vendor\\Client".to_owned());
    let mut functions = Aliases::new();
    functions.insert("make".to_owned(), "Vendor\\make".to_owned());
    assert_eq!(resolve_type_name("C", "", &types), "Vendor\\Client");
    assert_eq!(resolve_function_name("make", "", &functions, &index), "Vendor\\make");
}

#[test]
fn unknown_global_functions_keep_their_written_name() {
    let index = vendor_index();
    let none = Aliases::new();
    assert_eq!(resolve_function_name("strlen", "App", &none, &index), "strlen");
    assert_eq!(resolve_function_name("make", "Vendor", &none, &index), "Vendor\\make");
    assert_eq!(resolve_function_name("Sub\\f", "App", &none, &index), "App\\Sub\\f");
    assert_eq!(resolve_function_name("\\strlen", "App", &none, &index), "strlen");
}

fn import(kind: UseKind, target: &[&str], alias: &str, at: usize) -> UseDecl {
    UseDecl {
        kind,
        target: QualifiedName {
            absolute: false,
            segments: target.iter().map(|s| (*s).to_owned()).collect(),
            span: Span { start: at, end: at + 5 },
        },
        alias: alias.to_owned(),
        alias_span: Span { start: at + 9, end: at + 10 },
        span: Span { start: at, end: at + 10 },
    }
}

#[test]
fn imports_bind_aliases_and_report_problems() {
    let index = vendor_index();
    let bindings = bind_imports(
        &[
            import(UseKind::Type, &["Vendor", "Client"], "C", 0),
            import(UseKind::Function, &["Vendor", "make"], "make", 20),
            import(UseKind::Type, &["Vendor", "Missing"], "C", 40),
        ],
        &index,
    );
    assert_eq!(bindings.types.get("C"), Some("Vendor\\Missing"));
    assert_eq!(bindings.functions.get("make"), Some("Vendor\\make"));
    assert_eq!(bindings.diagnostics.len(), 2);
    assert_eq!(bindings.diagnostics[0].code, "M0002");
    assert_eq!(bindings.diagnostics[0].message, "duplicate import alias `C`");
    assert_eq!(bindings.diagnostics[0].notes, vec!["the alias was already bound to `Vendor\\Client`".to_owned()]);
    assert_eq!(bindings.diagnostics[0].span, Span { start: 49, end: 50 });
    assert_eq!(bindings.diagnostics[1].code, "M0003");
    assert_eq!(bindings.diagnostics[1].message, "unknown imported type `Vendor\\Missing`");
    assert_eq!(bindings.diagnostics[1].stage, "resolution");
}

#[test]
fn qualified_names_join_their_segments() {
    let name = QualifiedName { absolute: true, segments: vec!["App".to_owned(), "B".to_owned()], span: Span { start: 0, end: 6 } };
    assert_eq!(name.as_string(), "\\App\\B");
    assert_eq!(name.last(), Some("B"));
    let empty = QualifiedName { absolute: false, segments: Vec::new(), span: Span { start: 0, end: 0 } };
    assert_eq!(empty.as_string(), "");
    assert_eq!(empty.last(), None);
}

#[test]
fn mutual_imports_make_edges_that_form_one_group() {
    let index = build_export_index(&[
        interface("App\\A", vec![export("App\\A", DeclarationKind::Class, "App\\A")]),
        interface("App\\B", vec![export("App\\B", DeclarationKind::Class, "App\\B")]),
    ])
    .unwrap();
    let a = ModuleId::new("App\\A".to_owned()).unwrap();
    let b = ModuleId::new("App\\B".to_owned()).unwrap();
    let (from_a, unknown_a) = import_edges(&a, &[import(UseKind::Type, &["App", "B"], "B", 0)], &index);
    let (from_b, unknown_b) = import_edges(
        &b,
        &[import(UseKind::Type, &["App", "A"], "A", 0), import(UseKind::Type, &["App", "Gone"], "Gone", 20)],
        &index,
    );
    assert!(unknown_a.is_empty());
    assert_eq!(unknown_b.len(), 1);
    assert_eq!(unknown_b[0].1, "App\\Gone");
    assert_eq!(from_a.len(), 1);
    assert_eq!(from_a[0].kind, DependencyKind::Import);
    assert_eq!(from_a[0].to.as_str(), "App\\B");
    let mut edges = from_b;
    edges.extend(from_a);
    let graph = ModuleGraph::assemble(vec![b.clone(), a.clone()], edges);
    assert_eq!(graph.declaration_groups, vec![vec![a, b]]);
}

#[test]
fn imports_of_the_module_itself_make_no_edge() {
    let index = vendor_index();
    let client = ModuleId::new("Vendor\\Client".to_owned()).unwrap();
    let (edges, unknown) = import_edges(&client, &[import(UseKind::Function, &["Vendor", "make"], "make", 0)], &index);
    assert!(edges.is_empty());
    assert!(unknown.is_empty());
}
