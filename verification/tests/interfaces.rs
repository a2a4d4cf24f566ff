use thp::modules::deps::{collect_body_statement, collect_signature_dependencies};
use thp::modules::interface::extract_interface;
use thp::modules::names::{build_export_index, SourceId};
use thp::modules::resolve::resolve_program;
use thp::modules::{DeclarationKind, DependencyKind, ModuleGraph, ModuleId, ModulePath};
use thp::syntax::ast::{
    Argument, CatchClause, ClassDecl, Expr, ExprKind, FunctionDecl, NameRef, NamespaceDecl, Parameter, Program,
    PropertyDecl, ScopeTarget, Stmt, StmtKind, TypeSyntax, TypeSyntaxKind, UnaryOp, Visibility,
};
use thp::syntax::{QualifiedName, Span, UseDecl, UseKind};

fn sp(start: usize, end: usize) -> Span {
    Span { start, end }
}

fn named(name: &str) -> TypeSyntax {
    TypeSyntax { kind: TypeSyntaxKind::Named { name: name.to_owned(), arguments: Vec::new() }, span: sp(0, 1) }
}

fn expr(kind: ExprKind) -> Expr {
    Expr { kind, span: sp(0, 1) }
}

fn stmt(kind: StmtKind) -> Stmt {
    Stmt { kind, span: sp(0, 1) }
}

fn qualified(segments: &[&str]) -> QualifiedName {
    QualifiedName { absolute: false, segments: segments.iter().map(|s| (*s).to_owned()).collect(), span: sp(0, 1) }
}

fn import(kind: UseKind, segments: &[&str], alias: &str) -> UseDecl {
    UseDecl { kind, target: qualified(segments), alias: alias.to_owned(), alias_span: sp(0, 1), span: sp(0, 1) }
}

fn function(name: &str, parameters: Vec<Parameter>, return_type: &str, body: Vec<Stmt>) -> Stmt {
    stmt(StmtKind::Function(FunctionDecl {
        name: name.to_owned(),
        name_span: sp(10, 14),
        parameters,
        return_type: named(return_type),
        body,
    }))
}

fn parameter(name: &str, ty: &str) -> Parameter {
    Parameter { name: name.to_owned(), name_span: sp(0, 1), ty: named(ty), default: None, variadic: false, span: sp(0, 1) }
}

fn class(name: &str) -> ClassDecl {
    ClassDecl {
        name: name.to_owned(),
        name_span: sp(20, 26),
        abstract_class: false,
        final_class: false,
        parent: None,
        interfaces: Vec::new(),
        trait_uses: Vec::new(),
        properties: Vec::new(),
        methods: Vec::new(),
    }
}

fn program(namespace: Option<&[&str]>, imports: Vec<UseDecl>, statements: Vec<Stmt>) -> Program {
    Program {
        namespace: namespace.map(|segments| NamespaceDecl { name: qualified(segments), span: sp(6, 20) }),
        imports,
        statements,
        span: sp(0, 100),
    }
}

fn vendor_program(returned: i64) -> Program {
    program(
        Some(&["Vendor"]),
        Vec::new(),
        vec![
            function("make", Vec::new(), "int", vec![stmt(StmtKind::Return(Some(expr(ExprKind::Integer(returned)))))]),
            stmt(StmtKind::Class(class("Client"))),
        ],
    )
}

fn module(id: &str, namespace: &str, is_entry: bool) -> ModulePath {
    ModulePath {
        id: ModuleId::new(id.to_owned()).unwrap(),
        path: format!("{id}.thp"),
        canonical_path: format!("{id}.thp"),
        expected_namespace: namespace.to_owned(),
        is_entry,
    }
}

fn call(name: &str) -> Expr {
    expr(ExprKind::Call { callee: Box::new(expr(ExprKind::Name(name.to_owned()))), arguments: Vec::new() })
}

#[test]
fn extracts_body_independent_interfaces_and_resolves_aliases() {
    let client = module("Vendor\\Client", "Vendor", false);
    let one = extract_interface(&client, SourceId(0), &vendor_program(1)).unwrap();
    let two = extract_interface(&client, SourceId(0), &vendor_program(2)).unwrap();
    assert_eq!(one.interface_hash, two.interface_hash);
    assert_eq!(one.interface_hash.len(), 64);

    let index = build_export_index(&[one]).unwrap();
    assert!(index.get(DeclarationKind::Function, "Vendor\\make").is_some());
    let mut main = program(
        None,
        vec![import(UseKind::Type, &["Vendor", "Client"], "C"), import(UseKind::Function, &["Vendor", "make"], "make")],
        vec![function("run", vec![parameter("c", "C")], "int", vec![stmt(StmtKind::Return(Some(call("make"))))])],
    );
    assert!(resolve_program(&mut main, &index).is_empty());
    let StmtKind::Function(function) = &main.statements[0].kind else {
        panic!("expected function");
    };
    let TypeSyntaxKind::Named { name, .. } = &function.parameters[0].ty.kind else {
        panic!("expected named type");
    };
    assert_eq!(name, "Vendor\\Client");
    assert_eq!(function.name, "run");
    let StmtKind::Return(Some(value)) = &function.body[0].kind else {
        panic!("expected return");
    };
    let ExprKind::Call { callee, .. } = &value.kind else {
        panic!("expected call");
    };
    assert_eq!(callee.kind, ExprKind::Name("Vendor\\make".to_owned()));
}

#[test]
fn graph_marks_mutual_imports_as_one_declaration_group() {
    let a = module("App\\A", "App", true);
    let b = module("App\\B", "App", false);
    let a_program = || program(Some(&["App"]), vec![import(UseKind::Type, &["App", "B"], "B")], vec![stmt(StmtKind::Class(class("A")))]);
    let b_program = || program(Some(&["App"]), vec![import(UseKind::Type, &["App", "A"], "A")], vec![stmt(StmtKind::Class(class("B")))]);
    let interfaces = [
        extract_interface(&a, SourceId(0), &a_program()).unwrap(),
        extract_interface(&b, SourceId(1), &b_program()).unwrap(),
    ];
    let index = build_export_index(&interfaces).unwrap();
    let graph = ModuleGraph::build(vec![(b.clone(), b_program()), (a.clone(), a_program())], &index).unwrap();
    assert_eq!(graph.declaration_groups, vec![vec![a.id, b.id]]);
}

#[test]
fn interfaces_list_exports_by_name_and_qualify_them() {
    let m = module("App\\Thing", "App", false);
    let p = program(
        Some(&["App"]),
        Vec::new(),
        vec![
            stmt(StmtKind::Class(class("Zed"))),
            function("alpha", Vec::new(), "void", Vec::new()),
            stmt(StmtKind::Echo(expr(ExprKind::Null))),
        ],
    );
    let iface = extract_interface(&m, SourceId(3), &p).unwrap();
    assert_eq!(iface.namespace, "App");
    let names: Vec<(&str, DeclarationKind)> = iface.exports.iter().map(|e| (e.name.as_str(), e.kind)).collect();
    assert_eq!(names, [("App\\Zed", DeclarationKind::Class), ("App\\alpha", DeclarationKind::Function)]);
    assert_eq!(iface.exports[0].span, sp(20, 26));
    assert_eq!(iface.exports[0].source, SourceId(3));
}

#[test]
fn interface_hash_follows_signatures() {
    let m = module("Vendor\\Client", "Vendor", false);
    let base = extract_interface(&m, SourceId(0), &vendor_program(1)).unwrap();
    let changed = program(
        Some(&["Vendor"]),
        Vec::new(),
        vec![
            function("make", vec![parameter("x", "int")], "int", Vec::new()),
            stmt(StmtKind::Class(class("Client"))),
        ],
    );
    let other = extract_interface(&m, SourceId(0), &changed).unwrap();
    assert_ne!(base.interface_hash, other.interface_hash);
    let mut with_default = class("Client");
    with_default.properties.push(PropertyDecl {
        name: "limit".to_owned(),
        name_span: sp(0, 1),
        visibility: Visibility::Private,
        ty: named("int"),
        initializer: Some(expr(ExprKind::Unary { op: UnaryOp::Negate, operand: Box::new(expr(ExprKind::Integer(3))) })),
        span: sp(0, 1),
    });
    let with_property = program(
        Some(&["Vendor"]),
        Vec::new(),
        vec![function("make", Vec::new(), "int", Vec::new()), stmt(StmtKind::Class(with_default))],
    );
    let third = extract_interface(&m, SourceId(0), &with_property).unwrap();
    assert_ne!(base.interface_hash, third.interface_hash);
}

#[test]
fn mapped_modules_must_declare_their_namespace() {
    let m = module("Vendor\\Client", "Vendor", false);
    let wrong = program(Some(&["Other"]), Vec::new(), Vec::new());
    let error = extract_interface(&m, SourceId(0), &wrong).unwrap_err();
    assert_eq!(error.code, "M0001");
    assert_eq!(error.stage, "modules");
    assert_eq!(error.span, sp(6, 20));
    assert_eq!(error.message, "module `Vendor\\Client` must declare namespace `Vendor`");
    let global = module("Tool", "", false);
    let error = extract_interface(&global, SourceId(0), &wrong).unwrap_err();
    assert_eq!(error.message, "module `Tool` must declare namespace `<global>`");
    let mut entry = module("Main", "", true);
    entry.id = ModuleId::synthetic_entry("main.thp");
    assert_eq!(entry.id.as_str(), "@entry/main.thp");
    assert!(extract_interface(&entry, SourceId(0), &wrong).is_ok());
}

#[test]
fn unknown_imports_fail_the_graph() {
    let a = module("App\\A", "App", true);
    let p = || program(Some(&["App"]), vec![import(UseKind::Type, &["App", "Missing"], "Missing")], Vec::new());
    let index = build_export_index(&[extract_interface(&a, SourceId(0), &p()).unwrap()]).unwrap();
    let unknown = ModuleGraph::build(vec![(a.clone(), p())], &index).unwrap_err();
    assert_eq!(unknown.len(), 1);
    assert_eq!(unknown[0].0, a.id);
    assert_eq!(unknown[0].1, "App\\Missing");
}

#[test]
fn signature_and_body_dependencies_make_edges() {
    let lib = module("Lib\\Util", "Lib", false);
    let app = module("App\\Main", "App", true);
    let lib_program = || {
        program(
            Some(&["Lib"]),
            Vec::new(),
            vec![stmt(StmtKind::Class(class("Box"))), function("helper", Vec::new(), "int", Vec::new())],
        )
    };
    let app_program = || {
        program(
            Some(&["App"]),
            Vec::new(),
            vec![function(
                "run",
                vec![parameter("b", "\\Lib\\Box")],
                "int",
                vec![stmt(StmtKind::Return(Some(call("\\Lib\\helper"))))],
            )],
        )
    };
    let interfaces = [
        extract_interface(&lib, SourceId(0), &lib_program()).unwrap(),
        extract_interface(&app, SourceId(1), &app_program()).unwrap(),
    ];
    let index = build_export_index(&interfaces).unwrap();
    let graph = ModuleGraph::build(vec![(app.clone(), app_program()), (lib.clone(), lib_program())], &index).unwrap();
    let edges: Vec<(&str, &str, DependencyKind, &str)> =
        graph.edges.iter().map(|e| (e.from.as_str(), e.to.as_str(), e.kind, e.symbol.as_str())).collect();
    assert_eq!(
        edges,
        [
            ("App\\Main", "Lib\\Util", DependencyKind::Signature, "Lib\\Box"),
            ("App\\Main", "Lib\\Util", DependencyKind::Body, "Lib\\helper"),
        ]
    );
    assert_eq!(graph.declaration_groups.len(), 2);
}

#[test]
fn body_dependencies_follow_calls_construction_and_catches() {
    let body = stmt(StmtKind::Try {
        body: vec![stmt(StmtKind::Expression(expr(ExprKind::New {
            class_name: "Widget".to_owned(),
            class_span: sp(0, 1),
            arguments: vec![Argument { name: None, name_span: None, value: call("build"), span: sp(0, 1) }],
        })))],
        catches: vec![CatchClause {
            class_name: "Oops".to_owned(),
            class_span: sp(0, 1),
            variable: "e".to_owned(),
            variable_span: sp(0, 1),
            body: vec![stmt(StmtKind::Echo(expr(ExprKind::StaticCall {
                target: ScopeTarget::Named("Log".to_owned()),
                class_span: sp(0, 1),
                name: "write".to_owned(),
                name_span: sp(0, 1),
                arguments: Vec::new(),
            })))],
            span: sp(0, 1),
        }],
        finally: None,
    });
    let mut output = Vec::new();
    collect_body_statement(&body, &mut output);
    assert_eq!(
        output,
        vec![
            (false, "Widget".to_owned()),
            (true, "build".to_owned()),
            (false, "Oops".to_owned()),
            (false, "Log".to_owned()),
        ]
    );
}

#[test]
fn signature_dependencies_skip_builtin_types() {
    let mut declared = class("Child");
    declared.parent = Some(NameRef { name: "Base".to_owned(), span: sp(0, 1) });
    declared.interfaces.push(NameRef { name: "Shape".to_owned(), span: sp(0, 1) });
    let p = program(
        None,
        Vec::new(),
        vec![
            function("f", vec![parameter("a", "int"), parameter("b", "Point")], "string", Vec::new()),
            stmt(StmtKind::Class(declared)),
        ],
    );
    let mut output = Vec::new();
    collect_signature_dependencies(&p, &mut output);
    assert_eq!(
        output,
        vec![(false, "Point".to_owned()), (false, "Base".to_owned()), (false, "Shape".to_owned())]
    );
}

#[test]
fn a_module_never_depends_on_itself() {
    let a = module("App\\A", "App", true);
    let p = || {
        program(
            Some(&["App"]),
            vec![import(UseKind::Type, &["App", "A"], "Alias")],
            vec![
                stmt(StmtKind::Class(class("A"))),
                function("f", vec![parameter("x", "A")], "A", vec![stmt(StmtKind::Expression(call("f")))]),
            ],
        )
    };
    let index = build_export_index(&[extract_interface(&a, SourceId(0), &p()).unwrap()]).unwrap();
    let graph = ModuleGraph::build(vec![(a.clone(), p())], &index).unwrap();
    assert!(graph.edges.is_empty());
    assert_eq!(graph.declaration_groups, vec![vec![a.id]]);
}
