use archidoc::cargo_metadata::{
    drift_report, validate_ir_relationships, workspace_import_graph, CargoDependency, CargoMetadata,
    CargoPackage,
};
use archidoc::cargo_modules::{ImportGraph, RelationshipWarning, WarningKind};
use archidoc::ir::{ArchitectureIR, C4Level, DirNode, Relationship};

fn component(name: &str, uses: &[&str]) -> DirNode {
    let mut d = DirNode::empty(name, name);
    d.c4_level = Some(C4Level::Component);
    d.relationships = uses
        .iter()
        .map(|t| Relationship {
            target: t.to_string(),
            label: String::new(),
            protocol: "Rust".to_string(),
        })
        .collect();
    d
}

fn ir_with(components: Vec<DirNode>) -> ArchitectureIR {
    let mut ir = ArchitectureIR::new("crates".to_string());
    ir.root.dirs = components;
    ir
}

fn graph(nodes: &[&str], edges: &[(&str, &str)]) -> ImportGraph {
    let mut g = ImportGraph::default();
    for n in nodes {
        g.add_node(n.to_string());
    }
    g.edges = edges
        .iter()
        .map(|(f, t)| (f.to_string(), t.to_string()))
        .collect();
    g
}

#[test]
fn clean_when_declared_matches_real() {
    let ir = ir_with(vec![component("core", &["api"]), component("api", &[])]);
    let g = graph(&["core", "api"], &[("core", "api")]);
    let w = validate_ir_relationships(&ir, &g, &Vec::new());
    assert!(w.is_empty(), "expected no drift, got {w:?}");
}

#[test]
fn flags_missing_and_stale() {
    let ir = ir_with(vec![
        component("core", &["turso"]),
        component("api", &[]),
        component("turso", &[]),
    ]);
    let g = graph(&["core", "api", "turso"], &[("core", "api")]);
    let w = validate_ir_relationships(&ir, &g, &Vec::new());

    let missing: Vec<_> = w
        .iter()
        .filter(|x| matches!(x.kind, WarningKind::Undeclared))
        .map(|x| (x.module.as_str(), x.target.as_str()))
        .collect();
    let stale: Vec<_> = w
        .iter()
        .filter(|x| matches!(x.kind, WarningKind::NoImport))
        .map(|x| (x.module.as_str(), x.target.as_str()))
        .collect();

    assert_eq!(missing, vec![("core", "api")]);
    assert_eq!(stale, vec![("core", "turso")]);
}

#[test]
fn ignore_list_suppresses_both_directions() {
    let ir = ir_with(vec![component("core", &["workspace-hack"])]);
    let g = graph(&["core"], &[("core", "workspace-hack")]);
    let ignore: Vec<String> = ["workspace-hack".to_string()].into_iter().collect();
    let w = validate_ir_relationships(&ir, &g, &ignore);
    assert!(w.is_empty(), "ignored dep must not drift, got {w:?}");
}

#[test]
fn ir_check_output_is_sorted() {
    let ir = ir_with(vec![
        component("zeta", &["b", "a"]),
        component("alpha", &["x"]),
    ]);
    let g = graph(&["zeta", "alpha", "a", "b", "x"], &[("zeta", "a"), ("alpha", "y")]);
    let w = validate_ir_relationships(&ir, &g, &Vec::new());
    let seen: Vec<(&str, &str, WarningKind)> =
        w.iter().map(|x| (x.module.as_str(), x.target.as_str(), x.kind)).collect();
    assert_eq!(
        seen,
        vec![
            ("alpha", "x", WarningKind::NoImport),
            ("alpha", "y", WarningKind::Undeclared),
            ("zeta", "b", WarningKind::NoImport),
        ]
    );
}

#[test]
fn ir_check_skips_crates_outside_the_graph_and_unannotated_dirs() {
    let mut plain = DirNode::empty("core", "core");
    plain.relationships = component("core", &["x"]).relationships;
    let ir = ir_with(vec![plain, component("tools", &["y"])]);
    let g = graph(&["core"], &[("core", "z")]);
    assert!(validate_ir_relationships(&ir, &g, &Vec::new()).is_empty());
}

fn pkg(name: &str, deps: &[(&str, Option<&str>)]) -> CargoPackage {
    CargoPackage {
        name: Some(name.to_string()),
        dependencies: Some(
            deps.iter()
                .map(|(n, k)| CargoDependency { name: Some(n.to_string()), kind: k.map(|s| s.to_string()) })
                .collect(),
        ),
    }
}

#[test]
fn workspace_graph_keeps_normal_member_edges_once() {
    let meta = CargoMetadata {
        packages: Some(vec![
            pkg("core", &[("api", None), ("api", None), ("serde", None), ("core", None), ("db", Some("dev"))]),
            pkg("api", &[("core", None), ("workspace-hack", None)]),
            pkg("db", &[]),
            pkg("workspace-hack", &[]),
            CargoPackage { name: None, dependencies: None },
        ]),
    };
    let ignore = vec!["workspace-hack".to_string()];
    let g = workspace_import_graph(&meta, &ignore).unwrap();
    assert_eq!(g.nodes, vec!["core", "api", "db"]);
    assert_eq!(
        g.edges,
        vec![("core".to_string(), "api".to_string()), ("api".to_string(), "core".to_string())]
    );
}

#[test]
fn workspace_graph_needs_packages() {
    let meta = CargoMetadata { packages: None };
    assert_eq!(
        workspace_import_graph(&meta, &Vec::new()).unwrap_err(),
        "`cargo metadata` JSON has no `packages` array"
    );
}

fn warning(m: &str, t: &str, kind: WarningKind) -> RelationshipWarning {
    RelationshipWarning { module: m.to_string(), target: t.to_string(), kind }
}

#[test]
fn drift_report_texts() {
    assert_eq!(
        drift_report(&Vec::new()),
        "Relationship check passed — every `@c4 uses` matches a real crate dependency.\n"
    );
    let ws = vec![
        warning("core", "api", WarningKind::Undeclared),
        warning("core", "turso", WarningKind::NoImport),
    ];
    let expected = "Missing `@c4 uses` (1 — real dependency, no declared arrow):\n  core → api\n      add to core: //! @c4 uses api \"<purpose>\" \"Rust\"\n\nStale `@c4 uses` (1 — declared arrow, no real dependency):\n  core → turso  (remove or fix the `@c4 uses` line)\n";
    assert_eq!(drift_report(&ws), expected);
    let only_stale = vec![warning("a", "b", WarningKind::NoImport), warning("a", "c", WarningKind::NoImport)];
    assert_eq!(
        drift_report(&only_stale),
        "\nStale `@c4 uses` (2 — declared arrow, no real dependency):\n  a → b  (remove or fix the `@c4 uses` line)\n  a → c  (remove or fix the `@c4 uses` line)\n"
    );
}
