use archidoc::annotation::HealthStatus;
use archidoc::ir::{ArchitectureIR, C4Level, DirNode, FileNode};
use archidoc::merge::merge_ir;

fn make_ir_with_root(root: DirNode) -> ArchitectureIR {
    ArchitectureIR {
        version: "2.0".to_string(),
        scan_root: "/test".to_string(),
        root,
    }
}

fn bare_root() -> DirNode {
    DirNode::empty(".", ".")
}

fn annotated_dir(name: &str, path: &str, level: C4Level, desc: &str) -> DirNode {
    let mut d = DirNode::empty(name, path);
    d.c4_level = Some(level);
    d.description = Some(desc.to_string());
    d
}

#[test]
fn merge_combines_disjoint_dirs() {
    let mut base_root = bare_root();
    base_root.dirs.push(annotated_dir("api", "api", C4Level::Container, "API"));

    let mut inc_root = bare_root();
    inc_root.dirs.push(annotated_dir("db", "db", C4Level::Component, "Database"));

    let result = merge_ir(make_ir_with_root(base_root), make_ir_with_root(inc_root)).unwrap();

    assert_eq!(result.root.dirs.len(), 2);
    assert_eq!(result.root.dirs[0].name, "api");
    assert_eq!(result.root.dirs[1].name, "db");
}

#[test]
fn merge_incoming_strategy_wins() {
    let mut base_root = bare_root();
    base_root.dirs.push(annotated_dir("api", "api", C4Level::Container, "Old desc"));

    let mut inc_root = bare_root();
    inc_root.dirs.push(annotated_dir("api", "api", C4Level::Container, "New desc"));

    let result = merge_ir(make_ir_with_root(base_root), make_ir_with_root(inc_root)).unwrap();

    assert_eq!(result.root.dirs.len(), 1);
    assert_eq!(result.root.dirs[0].description.as_deref(), Some("New desc"));
}

#[test]
fn merge_rejects_c4_level_conflict() {
    let mut base_root = bare_root();
    base_root.dirs.push(annotated_dir("api", "api", C4Level::Container, "API"));

    let mut inc_root = bare_root();
    inc_root.dirs.push(annotated_dir("api", "api", C4Level::Component, "API"));

    let result = merge_ir(make_ir_with_root(base_root), make_ir_with_root(inc_root));

    assert!(result.is_err());
    let err = result.unwrap_err();
    assert_eq!(err.path, "api");
    assert!(err.message.contains("conflicting C4 levels"));
}

#[test]
fn merge_base_preserved_when_incoming_none() {
    let mut base_root = bare_root();
    let mut api = annotated_dir("api", "api", C4Level::Container, "API");
    api.pattern = Some("Mediator".to_string());
    base_root.dirs.push(api);

    let inc_root = bare_root();

    let result = merge_ir(make_ir_with_root(base_root), make_ir_with_root(inc_root)).unwrap();

    assert_eq!(result.root.dirs.len(), 1);
    assert_eq!(result.root.dirs[0].pattern.as_deref(), Some("Mediator"));
}

#[test]
fn merge_files_incoming_wins() {
    let mut base_root = bare_root();
    base_root.files.push(FileNode {
        name: "lib.rs".to_string(),
        purpose: Some("Old purpose".to_string()),
        health: Some(HealthStatus::Planned),
        ..FileNode::bare("lib.rs")
    });

    let mut inc_root = bare_root();
    inc_root.files.push(FileNode {
        name: "lib.rs".to_string(),
        purpose: Some("New purpose".to_string()),
        health: Some(HealthStatus::Stable),
        ..FileNode::bare("lib.rs")
    });

    let result = merge_ir(make_ir_with_root(base_root), make_ir_with_root(inc_root)).unwrap();

    assert_eq!(result.root.files.len(), 1);
    assert_eq!(result.root.files[0].purpose.as_deref(), Some("New purpose"));
    assert_eq!(result.root.files[0].health, Some(HealthStatus::Stable));
}

#[test]
fn merge_empty_inputs_returns_empty() {
    let result = merge_ir(make_ir_with_root(bare_root()), make_ir_with_root(bare_root())).unwrap();
    assert!(result.root.dirs.is_empty());
    assert!(result.root.files.is_empty());
}

#[test]
fn merge_scan_root_incoming_wins() {
    let base = ArchitectureIR {
        version: "2.0".to_string(),
        scan_root: "/base".to_string(),
        root: bare_root(),
    };
    let incoming = ArchitectureIR {
        version: "2.0".to_string(),
        scan_root: "/incoming".to_string(),
        root: bare_root(),
    };

    let result = merge_ir(base, incoming).unwrap();
    assert_eq!(result.scan_root, "/incoming");
}

#[test]
fn merge_children_come_out_sorted_and_united() {
    let mut base_root = bare_root();
    base_root.dirs.push(annotated_dir("zeta", "zeta", C4Level::Container, "Z"));
    base_root.dirs.push(annotated_dir("beta", "beta", C4Level::Container, "B"));
    base_root.files.push(FileNode::bare("z.rs"));
    base_root.files.push(FileNode::bare("a.rs"));

    let mut inc_root = bare_root();
    inc_root.dirs.push(annotated_dir("alpha", "alpha", C4Level::Component, "A"));
    inc_root.dirs.push(annotated_dir("beta", "beta", C4Level::Container, "B2"));
    inc_root.files.push(FileNode::bare("m.rs"));

    let result = merge_ir(make_ir_with_root(base_root), make_ir_with_root(inc_root)).unwrap();
    let names: Vec<&str> = result.root.dirs.iter().map(|d| d.name.as_str()).collect();
    assert_eq!(names, vec!["alpha", "beta", "zeta"]);
    let files: Vec<&str> = result.root.files.iter().map(|f| f.name.as_str()).collect();
    assert_eq!(files, vec!["a.rs", "m.rs", "z.rs"]);
    assert_eq!(result.root.dirs[1].description.as_deref(), Some("B2"));
    assert_eq!(result.version, "2.0");
}

#[test]
fn merge_recurses_into_shared_children() {
    let mut base_api = annotated_dir("api", "api", C4Level::Container, "API");
    base_api.dirs.push(annotated_dir("v1", "api/v1", C4Level::Component, "old"));
    let mut base_root = bare_root();
    base_root.dirs.push(base_api);

    let mut inc_api = DirNode::empty("api", "api");
    inc_api.dirs.push(annotated_dir("v1", "api/v1", C4Level::Container, "new"));
    let mut inc_root = bare_root();
    inc_root.dirs.push(inc_api);

    let err = merge_ir(make_ir_with_root(base_root), make_ir_with_root(inc_root)).unwrap_err();
    assert_eq!(err.path, "api/v1");
    assert_eq!(err.message, "conflicting C4 levels: existing 'component' vs new 'container'");
    assert_eq!(
        err.describe(),
        "merge conflict at 'api/v1': conflicting C4 levels: existing 'component' vs new 'container'"
    );
}

#[test]
fn merge_keeps_base_level_when_incoming_unannotated() {
    let mut base_root = bare_root();
    base_root.dirs.push(annotated_dir("api", "api", C4Level::Component, "API"));
    let mut inc_root = bare_root();
    inc_root.dirs.push(DirNode::empty("api", "api"));
    let result = merge_ir(make_ir_with_root(base_root), make_ir_with_root(inc_root)).unwrap();
    assert_eq!(result.root.dirs[0].c4_level, Some(C4Level::Component));
    assert_eq!(result.root.dirs[0].description.as_deref(), Some("API"));
}
