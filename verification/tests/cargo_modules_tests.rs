use archidoc::annotation::PatternStatus;
use archidoc::cargo_modules::{
    crate_path_to_module, detect_orphans, extract_quoted, parse_dot_output, parse_orphans,
    validate_relationships, ImportGraph, WarningKind,
};
use archidoc::ir::C4Level;
use archidoc::module_doc::{ModuleDoc, Relationship};

fn doc(path: &str, targets: &[&str]) -> ModuleDoc {
    ModuleDoc {
        mod_path: path.to_string(),
        content: "test".to_string(),
        source_file: "test.rs".to_string(),
        c4_level: C4Level::Component,
        pattern: "--".to_string(),
        pattern_status: PatternStatus::Planned,
        description: "test".to_string(),
        parent_container: None,
        relationships: targets
            .iter()
            .map(|t| Relationship {
                target: t.to_string(),
                label: "test".to_string(),
                protocol: "Rust".to_string(),
            })
            .collect(),
        files: vec![],
        code_elements: vec![],
        layer: None,
    }
}

#[test]
fn test_crate_path_to_module() {
    assert_eq!(crate_path_to_module("my_crate"), "my_crate");
    assert_eq!(crate_path_to_module("my_crate::core"), "core");
    assert_eq!(crate_path_to_module("my_crate::core::types"), "core.types");
}

#[test]
fn test_extract_quoted() {
    assert_eq!(extract_quoted(r#""my_crate::core""#).unwrap(), "my_crate::core");
    assert_eq!(extract_quoted(r#"  "module"  "#).unwrap(), "module");
}

#[test]
fn test_parse_dot_output() {
    let dot = r#"
digraph {
  "my_crate" -> "my_crate::core"
  "my_crate::core" -> "my_crate::utils"
}
"#;

    let graph = parse_dot_output(dot).unwrap();
    assert!(graph.has_node("core"));
    assert!(graph.has_node("utils"));
    assert!(graph.has_dependency("core", "utils"));
}

#[test]
fn test_import_graph_operations() {
    let mut graph = ImportGraph::default();
    graph.add_node("core".to_string());
    graph.add_node("utils".to_string());
    graph.edges.push(("core".to_string(), "utils".to_string()));

    assert!(graph.has_dependency("core", "utils"));
    assert!(!graph.has_dependency("utils", "core"));

    let deps = graph.get_dependencies("core");
    assert_eq!(deps, vec!["utils"]);
}

#[test]
fn test_validate_relationships_no_import() {
    let docs = vec![ModuleDoc {
        mod_path: "core".to_string(),
        content: "test".to_string(),
        source_file: "test.rs".to_string(),
        c4_level: C4Level::Component,
        pattern: "--".to_string(),
        pattern_status: PatternStatus::Planned,
        description: "test".to_string(),
        parent_container: None,
        relationships: vec![Relationship {
            target: "utils".to_string(),
            label: "test".to_string(),
            protocol: "Rust".to_string(),
        }],
        files: vec![],
        code_elements: vec![],
        layer: None,
    }];

    let graph = ImportGraph::default();

    let warnings = validate_relationships(&docs, &graph);
    assert_eq!(warnings.len(), 1);
    assert_eq!(warnings[0].module, "core");
    assert_eq!(warnings[0].target, "utils");
    assert!(matches!(warnings[0].kind, WarningKind::NoImport));
}

#[test]
fn test_detect_orphans() {
    let docs = vec![ModuleDoc {
        mod_path: "core".to_string(),
        content: "test".to_string(),
        source_file: "test.rs".to_string(),
        c4_level: C4Level::Component,
        pattern: "--".to_string(),
        pattern_status: PatternStatus::Planned,
        description: "test".to_string(),
        parent_container: None,
        relationships: vec![],
        files: vec![],
        code_elements: vec![],
        layer: None,
    }];

    let mut graph = ImportGraph::default();
    graph.add_node("core".to_string());
    graph.add_node("utils".to_string());
    graph.add_node("database".to_string());

    let orphans = detect_orphans(&docs, &graph);
    assert_eq!(orphans.len(), 2);
    assert!(orphans.contains(&"utils".to_string()));
    assert!(orphans.contains(&"database".to_string()));
}

#[test]
fn extract_quoted_reports_missing_quotes() {
    assert_eq!(
        extract_quoted("no quotes").unwrap_err(),
        "Failed to extract quoted string from: no quotes"
    );
    assert_eq!(
        extract_quoted("\"open").unwrap_err(),
        "Failed to extract quoted string from: \"open"
    );
    assert_eq!(extract_quoted("\"\"").unwrap(), "");
}

#[test]
fn parse_dot_output_fails_on_first_bad_edge() {
    let dot = "digraph {\n  \"a\" -> b\n  c -> \"d\"\n}\n";
    assert_eq!(
        parse_dot_output(dot).unwrap_err(),
        "Failed to extract quoted string from: b"
    );
}

#[test]
fn parse_dot_output_graph_is_closed_and_nodes_distinct() {
    let dot = "\"k::a\" -> \"k::b\"\r\n\"k::b\" -> \"k::a\"\n\"k::a\" -> \"k::b::c\"";
    let g = parse_dot_output(dot).unwrap();
    assert_eq!(g.nodes, vec!["a", "b", "b.c"]);
    assert_eq!(g.edges.len(), 3);
    for (f, t) in &g.edges {
        assert!(g.has_node(f) && g.has_node(t));
    }
    assert_eq!(g.get_dependencies("a"), vec!["b", "b.c"]);
}

#[test]
fn add_node_keeps_nodes_distinct() {
    let mut g = ImportGraph::default();
    g.add_node("x".to_string());
    g.add_node("x".to_string());
    assert_eq!(g.nodes, vec!["x"]);
    assert!(!g.has_node("y"));
}

#[test]
fn validate_is_clean_when_declarations_match_imports() {
    let docs = vec![doc("core", &["utils", "utils"]), doc("utils", &[])];
    let mut graph = ImportGraph::default();
    graph.edges.push(("core".to_string(), "utils".to_string()));
    assert!(validate_relationships(&docs, &graph).is_empty());
}

#[test]
fn validate_reports_undeclared_imports_after_missing_ones() {
    let docs = vec![doc("core", &["db"])];
    let mut graph = ImportGraph::default();
    graph.edges.push(("core".to_string(), "net".to_string()));
    graph.edges.push(("core".to_string(), "net".to_string()));
    let w = validate_relationships(&docs, &graph);
    assert_eq!(w.len(), 2);
    assert_eq!((w[0].target.as_str(), w[0].kind), ("db", WarningKind::NoImport));
    assert_eq!((w[1].target.as_str(), w[1].kind), ("net", WarningKind::Undeclared));
}

#[test]
fn validate_uses_the_last_document_of_a_module() {
    let docs = vec![doc("core", &["old"]), doc("core", &["new"])];
    let mut graph = ImportGraph::default();
    graph.edges.push(("core".to_string(), "new".to_string()));
    assert!(validate_relationships(&docs, &graph).is_empty());
}

#[test]
fn orphans_output_is_read_as_module_names() {
    let out = "my_crate::a\n\n   my_crate::b::c  \nplain\n";
    assert_eq!(parse_orphans(out), vec!["a", "b.c", "plain"]);
}

#[test]
fn orphans_are_reported_once() {
    let docs = vec![doc("core", &[])];
    let mut graph = ImportGraph::default();
    graph.nodes = vec!["utils".to_string(), "core".to_string(), "utils".to_string()];
    assert_eq!(detect_orphans(&docs, &graph), vec!["utils"]);
}
