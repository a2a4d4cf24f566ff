use thp::modules::graph::strongly_connected_components;
use thp::modules::{
    index_modules, is_builtin_type, join_ids, module_id, qualify_declaration, validate_prefix,
    AutoloadMapping, DeclarationKind, DependencyEdge, DependencyKind, EntryFile, FoundFile, InMemorySourceProvider, ModuleError,
    ModuleGraph, ModuleId,
};

fn found(relative: &str) -> FoundFile {
    FoundFile {
        prefix: "App\\".to_owned(),
        path: format!("src/{relative}"),
        canonical_path: format!("/project/src/{relative}"),
        relative: relative.to_owned(),
        matches_entry: false,
    }
}

fn entry() -> EntryFile {
    EntryFile {
        path: "main.thp".to_owned(),
        canonical_path: "/project/main.thp".to_owned(),
        relative: "main.thp".to_owned(),
    }
}

#[test]
fn discovers_modules_in_deterministic_logical_order() {
    let files = vec![found("Service/Zed.thp"), found("Service/Client.thp")];
    let ids = index_modules(&files, &entry())
        .unwrap()
        .into_iter()
        .map(|module| module.id.as_str().to_owned())
        .collect::<Vec<_>>();
    assert_eq!(
        ids,
        [
            "@entry/main.thp",
            "App\\Service\\Client",
            "App\\Service\\Zed"
        ]
    );
}

#[test]
fn entry_found_under_a_mapping_keeps_its_logical_id() {
    let mut main = found("Main.thp");
    main.matches_entry = true;
    let entry = EntryFile {
        path: "src/Main.thp".to_owned(),
        canonical_path: "/project/src/Main.thp".to_owned(),
        relative: "src/Main.thp".to_owned(),
    };
    let modules = index_modules(&vec![main, found("Other.thp")], &entry).unwrap();
    assert_eq!(modules.len(), 2);
    assert_eq!(modules[0].id.as_str(), "App\\Main");
    assert!(modules[0].is_entry);
    assert_eq!(modules[0].expected_namespace, "App");
    assert!(!modules[1].is_entry);
}

#[test]
fn one_id_from_two_files_is_ambiguous() {
    let mut second = found("Service/Client.thp");
    second.path = "lib/Service/Client.thp".to_owned();
    second.canonical_path = "/project/lib/Service/Client.thp".to_owned();
    let error = index_modules(&vec![found("Service/Client.thp"), second], &entry()).unwrap_err();
    assert!(matches!(error, ModuleError::AmbiguousModule { .. }));
}

#[test]
fn one_file_under_two_prefixes_is_ambiguous() {
    let mut other = found("Client.thp");
    other.prefix = "Vendor\\".to_owned();
    let error = index_modules(&vec![found("Client.thp"), other], &entry()).unwrap_err();
    assert!(matches!(error, ModuleError::AmbiguousFile { .. }));
}

#[test]
fn invalid_file_names_do_not_index() {
    let error = index_modules(&vec![found("9lives.thp")], &entry()).unwrap_err();
    assert!(matches!(error, ModuleError::InvalidModuleId(_)));
}

#[test]
fn module_ids_validate_segments() {
    assert_eq!(ModuleId::new("App\\Service".to_owned()).unwrap().as_str(), "App\\Service");
    assert_eq!(ModuleId::new("_x1".to_owned()).unwrap().as_str(), "_x1");
    for bad in ["", "\\App", "App\\", "App\\\\B", "1App", "App-B", "App\\9"] {
        assert_eq!(
            ModuleId::new(bad.to_owned()),
            Err(ModuleError::InvalidModuleId(bad.to_owned())),
            "{bad}"
        );
    }
}

#[test]
fn namespace_is_everything_before_the_last_separator() {
    assert_eq!(ModuleId::new("App\\Service\\Client".to_owned()).unwrap().namespace(), "App\\Service");
    assert_eq!(ModuleId::new("Client".to_owned()).unwrap().namespace(), "");
}

#[test]
fn synthetic_entry_ids_keep_normal_components() {
    assert_eq!(ModuleId::synthetic_entry("main.thp").as_str(), "@entry/main.thp");
    assert_eq!(ModuleId::synthetic_entry("./bin//run.thp").as_str(), "@entry/bin/run.thp");
}

#[test]
fn module_ids_come_from_prefix_and_relative_path() {
    assert_eq!(module_id("App\\", "Service/Client.thp").unwrap().as_str(), "App\\Service\\Client");
    assert_eq!(module_id("", "Client.thp").unwrap().as_str(), "Client");
    assert!(matches!(module_id("App\\", "../Client.thp"), Err(ModuleError::InvalidModuleId(_))));
    assert!(matches!(module_id("App\\", "bad-name.thp"), Err(ModuleError::InvalidModuleId(_))));
}

#[test]
fn prefixes_must_end_with_a_separator_and_hold_valid_segments() {
    assert_eq!(validate_prefix(""), Ok(()));
    assert_eq!(validate_prefix("App\\Sub\\"), Ok(()));
    assert!(matches!(validate_prefix("App"), Err(ModuleError::InvalidAutoload { .. })));
    assert!(matches!(validate_prefix("App\\1\\"), Err(ModuleError::InvalidAutoload { .. })));
}

#[test]
fn autoload_mappings_need_a_valid_prefix_and_directories() {
    let mapping = AutoloadMapping::new("App\\".to_owned(), vec!["src".to_owned()]).unwrap();
    assert_eq!(mapping.prefix, "App\\");
    assert_eq!(mapping.directories, vec!["src".to_owned()]);
    assert!(matches!(
        AutoloadMapping::new("App\\".to_owned(), Vec::new()),
        Err(ModuleError::InvalidAutoload { .. })
    ));
    assert!(matches!(
        AutoloadMapping::new("App\\".to_owned(), vec![String::new()]),
        Err(ModuleError::InvalidAutoload { .. })
    ));
    assert!(matches!(
        AutoloadMapping::new("App".to_owned(), vec!["src".to_owned()]),
        Err(ModuleError::InvalidAutoload { .. })
    ));
}

#[test]
fn declarations_are_qualified_by_their_namespace() {
    assert_eq!(qualify_declaration("App", "greet"), "App\\greet");
    assert_eq!(qualify_declaration("", "greet"), "greet");
}

#[test]
fn builtin_type_names_are_recognised() {
    assert!(is_builtin_type("int"));
    assert!(is_builtin_type("Resource"));
    assert!(!is_builtin_type("Integer"));
    assert!(!is_builtin_type("User"));
}

#[test]
fn module_ids_join_with_commas() {
    let ids = vec![
        ModuleId::new("App\\A".to_owned()).unwrap(),
        ModuleId::new("App\\B".to_owned()).unwrap(),
    ];
    assert_eq!(join_ids(&ids), "App\\A, App\\B");
    assert_eq!(join_ids(&[]), "");
}

#[test]
fn declaration_kinds_have_labels() {
    assert_eq!(DeclarationKind::Function.as_str(), "function");
}

#[test]
fn in_memory_provider_enumerates_in_id_order_and_loads_sources() {
    let mut provider = InMemorySourceProvider::new();
    let b = ModuleId::new("App\\B".to_owned()).unwrap();
    let a = ModuleId::new("App\\A".to_owned()).unwrap();
    provider.insert(b.clone(), "B.thp".to_owned(), "App".to_owned(), "<?thp b".to_owned(), false);
    provider.insert(a.clone(), "A.thp".to_owned(), "App".to_owned(), "<?thp a".to_owned(), true);
    let ids = provider
        .enumerate()
        .into_iter()
        .map(|module| module.id.as_str().to_owned())
        .collect::<Vec<_>>();
    assert_eq!(ids, ["App\\A", "App\\B"]);
    assert_eq!(provider.load(&a), Some("<?thp a".to_owned()));
    assert_eq!(provider.load(&ModuleId::new("App\\C".to_owned()).unwrap()), None);
}

fn id(text: &str) -> ModuleId {
    ModuleId::new(text.to_owned()).unwrap()
}

fn edge(from: &str, to: &str, kind: DependencyKind, symbol: &str) -> DependencyEdge {
    DependencyEdge { from: id(from), to: id(to), kind, symbol: symbol.to_owned() }
}

fn group_names(groups: &[Vec<ModuleId>]) -> Vec<Vec<String>> {
    groups
        .iter()
        .map(|group| group.iter().map(|m| m.as_str().to_owned()).collect())
        .collect()
}

#[test]
fn assembled_graph_groups_mutual_edges() {
    let graph = ModuleGraph::assemble(
        vec![id("App\\B"), id("App\\A")],
        vec![
            edge("App\\B", "App\\A", DependencyKind::Import, "App\\A"),
            edge("App\\A", "App\\B", DependencyKind::Import, "App\\B"),
        ],
    );
    assert_eq!(graph.declaration_groups, vec![vec![id("App\\A"), id("App\\B")]]);
}

#[test]
fn graph_orders_modules_and_drops_repeated_edges() {
    let graph = ModuleGraph::assemble(
        vec![id("C"), id("A"), id("B")],
        vec![
            edge("B", "C", DependencyKind::Body, "C\\f"),
            edge("A", "B", DependencyKind::Signature, "B"),
            edge("A", "B", DependencyKind::Import, "B"),
            edge("B", "C", DependencyKind::Body, "C\\f"),
        ],
    );
    let modules: Vec<&str> = graph.modules.iter().map(|m| m.as_str()).collect();
    assert_eq!(modules, ["A", "B", "C"]);
    assert_eq!(
        graph.edges,
        vec![
            edge("A", "B", DependencyKind::Import, "B"),
            edge("A", "B", DependencyKind::Signature, "B"),
            edge("B", "C", DependencyKind::Body, "C\\f"),
        ]
    );
    assert_eq!(group_names(&graph.declaration_groups), vec![vec!["A"], vec!["B"], vec!["C"]]);
}

#[test]
fn components_join_cycles_and_follow_edges_out_of_the_module_list() {
    let groups = strongly_connected_components(
        &[id("Z"), id("M")],
        &[
            edge("M", "N", DependencyKind::Import, "N"),
            edge("N", "O", DependencyKind::Import, "O"),
            edge("O", "M", DependencyKind::Import, "M"),
            edge("Q", "Z", DependencyKind::Import, "Z"),
            edge("Z", "Z", DependencyKind::Body, "Z\\self"),
        ],
    );
    assert_eq!(group_names(&groups), vec![vec!["M", "N", "O"], vec!["Z"]]);
}

#[test]
fn components_of_nothing_are_empty() {
    assert!(strongly_connected_components(&[], &[edge("A", "B", DependencyKind::Import, "B")]).is_empty());
}
