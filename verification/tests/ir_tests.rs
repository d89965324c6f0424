use std::collections::HashMap;

use archidoc::annotation::{HealthStatus, PatternStatus};
use archidoc::commands::{
    check_ir_version, compile_summary, ignore_list, ir_file_name_of, parse_key_value, stamp_design,
};
use archidoc::ir::{ArchitectureIR, C4Level, DirNode, FileNode};
use archidoc::ir_builder::{build_from_scan, build_ir};
use archidoc::module_doc::{FileEntry, ModuleDoc};
use archidoc::tree::{
    build_dir_tree, clean, compact_dirs_tree, compact_files_tree, format_file_suffix, matches_pattern,
    render_dirs_tree, render_files_tree, FsDir, TreeConfig, TreeOverrides,
};
use archidoc::walker::{choose_module_files, SourceFile};

fn fs(name: &str, files: &[&str], dirs: Vec<FsDir>) -> FsDir {
    FsDir { name: name.to_string(), files: files.iter().map(|s| s.to_string()).collect(), dirs }
}

fn module(path: &str, source: &str, level: C4Level) -> ModuleDoc {
    ModuleDoc {
        mod_path: path.to_string(),
        content: "body".to_string(),
        source_file: source.to_string(),
        c4_level: level,
        pattern: "--".to_string(),
        pattern_status: PatternStatus::Planned,
        description: format!("{path} module"),
        parent_container: None,
        relationships: vec![],
        files: vec![],
        code_elements: vec![],
        layer: None,
    }
}

fn entry(name: &str, purpose: &str, health: HealthStatus) -> FileEntry {
    FileEntry {
        name: name.to_string(),
        pattern: "--".to_string(),
        pattern_status: PatternStatus::Verified,
        purpose: purpose.to_string(),
        health,
        extra: HashMap::new(),
    }
}

fn project() -> FsDir {
    fs(
        "proj",
        &["README.md", "Cargo.lock"],
        vec![
            fs(
                "src",
                &["lib.rs", "notes.txt"],
                vec![fs("api", &["mod.rs"], vec![]), fs("target", &["x.rs"], vec![])],
            ),
            fs("docs", &["a.md"], vec![]),
        ],
    )
}

#[test]
fn c4_level_parse_ignores_case_and_space() {
    assert_eq!(C4Level::parse(" Container "), C4Level::Container);
    assert_eq!(C4Level::parse("COMPONENT"), C4Level::Component);
    assert_eq!(C4Level::parse("system"), C4Level::Unknown);
    assert_eq!(C4Level::Container.label(), "container");
}

#[test]
fn dir_node_queries() {
    let mut d = DirNode::empty("api", "api");
    assert!(d.is_empty_leaf());
    assert!(!d.is_populated());
    assert!(!d.is_scaffold());
    assert!(!d.is_described());
    d.files.push(FileNode::bare("a.rs"));
    d.files.push(FileNode::bare("b.rs"));
    d.files.push(FileNode::bare("Makefile"));
    assert!(d.is_scaffold());
    assert_eq!(d.file_count(), 3);
    let mut child = DirNode::empty("v1", "api/v1");
    child.files.push(FileNode::bare("c.md"));
    d.dirs.push(child);
    assert_eq!(d.total_file_count(), 4);
    assert_eq!(
        d.extension_counts(),
        vec![("Makefile".to_string(), 1), ("rs".to_string(), 2)]
    );
    d.description = Some("x".to_string());
    assert!(d.is_described());
    assert!(!d.is_annotated());
    d.c4_level = Some(C4Level::Component);
    assert!(d.is_annotated());
}

#[test]
fn ir_queries_walk_depth_first() {
    let mut ir = ArchitectureIR::new("/s".to_string());
    let mut a = DirNode::empty("a", "a");
    a.c4_level = Some(C4Level::Container);
    let mut b = DirNode::empty("b", "a/b");
    b.c4_level = Some(C4Level::Component);
    a.dirs.push(b);
    ir.root.dirs.push(a);
    ir.root.dirs.push(DirNode::empty("c", "c"));
    let all: Vec<&str> = ir.all_dirs().iter().map(|d| d.path.as_str()).collect();
    assert_eq!(all, vec![".", "a", "a/b", "c"]);
    let ann: Vec<&str> = ir.annotated_dirs().iter().map(|d| d.path.as_str()).collect();
    assert_eq!(ann, vec!["a", "a/b"]);
    assert_eq!(ir.find_dir("a/b").unwrap().name, "b");
    assert!(ir.find_dir("nope").is_none());
    let def = ArchitectureIR::default();
    assert_eq!(def.version, "2.0");
    assert_eq!(def.scan_root, "");
}

#[test]
fn build_ir_lands_modules_and_resolves_parents() {
    let config = TreeConfig::defaults();
    let mut api = module("api", "/proj/src/api/mod.rs", C4Level::Component);
    api.files = vec![
        entry("mod.rs", "routes", HealthStatus::Active),
        entry("missing.rs", "", HealthStatus::Planned),
    ];
    let modules = vec![
        module("proj", "/proj/src/lib.rs", C4Level::Container),
        api,
        module("ghost.sub", "/elsewhere/x.rs", C4Level::Component),
    ];
    let ir = build_from_scan("/proj", &project(), modules, &config);
    assert_eq!(ir.version, "2.0");
    assert_eq!(ir.scan_root, "/proj");

    let root = &ir.root;
    assert_eq!(root.c4_level, Some(C4Level::Container));
    assert_eq!(root.parent, None);
    assert_eq!(root.source_file.as_deref(), Some("src/lib.rs"));
    let names: Vec<&str> = root.dirs.iter().map(|d| d.name.as_str()).collect();
    assert_eq!(names, vec!["docs", "ghost", "src"]);

    let api = ir.find_dir("src/api").unwrap();
    assert_eq!(api.c4_level, Some(C4Level::Component));
    assert_eq!(api.parent.as_deref(), Some("."));
    assert_eq!(api.description.as_deref(), Some("api module"));
    assert_eq!(api.pattern, None);
    assert_eq!(api.source_file.as_deref(), Some("src/api/mod.rs"));
    assert_eq!(api.files.len(), 2);
    assert_eq!(api.files[0].name, "mod.rs");
    assert_eq!(api.files[0].purpose.as_deref(), Some("routes"));
    assert_eq!(api.files[0].health, Some(HealthStatus::Active));
    assert_eq!(api.files[0].pattern_status, Some(PatternStatus::Verified));
    assert_eq!(api.files[1].name, "missing.rs");
    assert_eq!(api.files[1].purpose, None);

    let sub = ir.find_dir("ghost/sub").unwrap();
    assert_eq!(sub.c4_level, Some(C4Level::Component));
    assert_eq!(sub.parent.as_deref(), Some("."));
    assert_eq!(sub.source_file.as_deref(), Some("x.rs"));
    assert!(ir.find_dir("ghost").unwrap().c4_level.is_none());

    let src = ir.find_dir("src").unwrap();
    assert!(src.c4_level.is_none());
    let src_files: Vec<&str> = src.files.iter().map(|f| f.name.as_str()).collect();
    assert_eq!(src_files, vec!["lib.rs"]);
    assert!(ir.find_dir("src/target").is_none());
}

#[test]
fn build_ir_nested_parent_is_nearest_annotated_ancestor() {
    let mut root = DirNode::empty(".", ".");
    let mut a = DirNode::empty("a", "a");
    let mut b = DirNode::empty("b", "a/b");
    b.dirs.push(DirNode::empty("c", "a/b/c"));
    a.dirs.push(b);
    root.dirs.push(a);
    let modules = vec![
        module("a", "/r/a/mod.rs", C4Level::Container),
        module("a.b.c", "/r/a/b/c/mod.rs", C4Level::Component),
    ];
    let ir = build_ir("/r", root, modules);
    assert_eq!(ir.root.parent, None);
    assert_eq!(ir.find_dir("a").unwrap().parent, None);
    assert_eq!(ir.find_dir("a/b/c").unwrap().parent.as_deref(), Some("a"));
    assert_eq!(ir.find_dir("a/b").unwrap().parent, None);
}

#[test]
fn build_ir_without_scan_root_uses_module_path() {
    let root = DirNode::empty(".", ".");
    let ir = build_ir("", root, vec![module("x.y", "/any/where/mod.rs", C4Level::Component)]);
    let y = ir.find_dir("x/y").unwrap();
    assert_eq!(y.source_file.as_deref(), Some("x/y/mod.rs"));
    assert_eq!(ir.root.dirs[0].path, "x");
}

#[test]
fn compact_trees_of_a_listing() {
    let config = TreeConfig::defaults();
    let p = project();
    assert_eq!(compact_dirs_tree(&p, None, &config), "./ {docs, src}\nsrc/ {api}\n");
    assert_eq!(
        compact_files_tree(&p, None, &config),
        "[root] README.md\ndocs/ {a.md}\nsrc/ {lib.rs}\nsrc/api/ {mod.rs}\n"
    );
    assert_eq!(compact_dirs_tree(&p, Some(0), &config), "./ {docs, src}\n");
}

#[test]
fn rendering_the_built_tree_matches_the_compact_trees() {
    let config = TreeConfig::defaults();
    let p = project();
    let tree = build_dir_tree(&p, &config);
    assert_eq!(render_dirs_tree(&tree, None), compact_dirs_tree(&p, None, &config));
    assert_eq!(
        render_files_tree(&tree, None, &config),
        compact_files_tree(&p, None, &config)
    );
    let cleaned = clean(&p, &config);
    assert_eq!(cleaned.files, vec!["README.md"]);
}

#[test]
fn sibling_dirs_with_the_same_files_collapse() {
    let config = TreeConfig::defaults();
    let p = fs(
        "r",
        &[],
        vec![
            fs("c", &["x.md", "y.md"], vec![]),
            fs("a", &["x.md", "y.md"], vec![]),
            fs("b", &["y.md", "x.md"], vec![]),
        ],
    );
    assert_eq!(compact_files_tree(&p, None, &config), "./{a, b, c}/  [each: x.md, y.md]\n");
}

#[test]
fn file_suffix_inline_and_counted() {
    let config = TreeConfig::defaults();
    let few = vec!["a.rs".to_string(), "b.md".to_string()];
    assert_eq!(format_file_suffix(&few, &config), " {a.rs, b.md}");
    let many: Vec<String> = ["a.rs", "b.rs", "c.rs", "d.md", "e.md", "f.rs", "Makefile"]
        .iter()
        .map(|s| s.to_string())
        .collect();
    assert_eq!(format_file_suffix(&many, &config), " [7 files: 4.rs 2.md 1.other]");
    assert_eq!(format_file_suffix(&Vec::new(), &config), "");
}

#[test]
fn glob_patterns() {
    assert!(matches_pattern("*.jsonl", "log.jsonl"));
    assert!(matches_pattern("__pycache__*", "__pycache__x"));
    assert!(matches_pattern("node_modules", "node_modules"));
    assert!(!matches_pattern("node_modules", "node"));
}

#[test]
fn overrides_extend_and_replace_defaults() {
    let o = TreeOverrides {
        exclude_dirs: vec!["build".to_string(), "target".to_string()],
        exclude_files: vec![],
        include_extensions: Some(vec![Some(".txt".to_string()), None]),
        inline_threshold: Some(2),
        icon_directory: None,
        icon_file: Some("F".to_string()),
        icon_by_ext: vec![(".txt".to_string(), "T".to_string())],
    };
    let c = TreeConfig::with_overrides(o);
    assert!(c.exclude_dirs.contains(&"build".to_string()));
    assert_eq!(c.exclude_dirs.iter().filter(|d| d.as_str() == "target").count(), 1);
    assert_eq!(c.include_extensions, vec![".txt"]);
    assert_eq!(c.inline_threshold, 2);
    assert_eq!(c.icons.file, "F");
}

#[test]
fn key_value_arguments() {
    assert_eq!(
        parse_key_value("name=Acme=Corp").unwrap(),
        ("name".to_string(), "Acme=Corp".to_string())
    );
    assert_eq!(parse_key_value("k=").unwrap(), ("k".to_string(), String::new()));
    assert_eq!(
        parse_key_value("novalue").unwrap_err(),
        "invalid KEY=value: no '=' found in 'novalue'"
    );
}

#[test]
fn ir_version_gate() {
    assert!(check_ir_version("2.0").is_ok());
    assert_eq!(
        check_ir_version("1.3").unwrap_err(),
        "IR version '1.3' is no longer supported. Re-run `archidoc compile ir` to regenerate."
    );
    assert!(check_ir_version("").is_err());
    assert!(check_ir_version("2.1").is_ok());
    assert_eq!(
        check_ir_version("3.0").unwrap_err(),
        "IR version '3.0' is no longer supported. Re-run `archidoc compile ir` to regenerate."
    );
    assert!(check_ir_version("10.0").is_err());
}

#[test]
fn design_stamp_marks_health_planned_once() {
    let mut ir = ArchitectureIR::new("/s".to_string());
    ir.root.files.push(FileNode { health: Some(HealthStatus::Stable), ..FileNode::bare("a.rs") });
    ir.root.files.push(FileNode::bare("b.rs"));
    let mut child = DirNode::empty("c", "c");
    child.files.push(FileNode { health: Some(HealthStatus::Active), ..FileNode::bare("c.rs") });
    ir.root.dirs.push(child);
    let once = stamp_design(ir);
    assert_eq!(once.root.files[0].health, Some(HealthStatus::Planned));
    assert_eq!(once.root.files[1].health, None);
    assert_eq!(once.root.dirs[0].files[0].health, Some(HealthStatus::Planned));
    let twice = stamp_design(once);
    assert_eq!(twice.root.files[0].health, Some(HealthStatus::Planned));
    assert_eq!(twice.root.files[1].health, None);
}

#[test]
fn compile_summary_lines() {
    assert_eq!(
        compile_summary(1, "_context/current.json", false),
        "1 module, tree captured → _context/current.json (current)\n"
    );
    assert_eq!(
        compile_summary(12, "out/architecture.json", true),
        "12 modules, tree captured → out/architecture.json (architecture)\n"
    );
    assert_eq!(ir_file_name_of(true), "architecture.json");
    assert_eq!(ir_file_name_of(false), "current.json");
    assert_eq!(ignore_list(vec!["x".to_string()]), vec!["workspace-hack", "x"]);
}

fn src(path: &str, file: &str, content: &str) -> SourceFile {
    SourceFile {
        mod_path: path.to_string(),
        file_name: file.to_string(),
        source_file: format!("/r/{file}"),
        content: content.to_string(),
    }
}

#[test]
fn module_files_prefer_entry_files_and_come_sorted() {
    let found = vec![
        src("zeta", "zeta.rs", "@c4 component\n"),
        src("alpha", "alpha.rs", "no marker"),
        src("zeta", "mod.rs", "@c4 container"),
        src("beta", "lib.rs", "   "),
        src("gamma", "gamma.rs", "@c4 container"),
        src("gamma", "gamma2.rs", "@c4 component"),
        src("delta", "notes.md", "@c4 container"),
        src("eta", "mod.rs", "plain entry"),
    ];
    let chosen = choose_module_files(found);
    let seen: Vec<(&str, &str)> =
        chosen.iter().map(|f| (f.mod_path.as_str(), f.file_name.as_str())).collect();
    assert_eq!(seen, vec![("eta", "mod.rs"), ("gamma", "gamma.rs"), ("zeta", "mod.rs")]);
}
