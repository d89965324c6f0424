use archidoc::ir::{ArchitectureIR, C4Level, DirNode, Relationship};
use archidoc::plantuml::{
    code_diagram, component_diagram, container_diagram, context_diagram, escape_label, to_puml_id,
    to_title_case,
};

fn container(name: &str, layer: Option<&str>) -> DirNode {
    let mut d = DirNode::empty(name, name);
    d.c4_level = Some(C4Level::Container);
    d.layer = layer.map(|s| s.to_string());
    d
}

fn ir_with(containers: Vec<DirNode>) -> ArchitectureIR {
    let mut ir = ArchitectureIR::new("/scan".to_string());
    ir.root.dirs = containers;
    ir
}

#[test]
fn escape_label_neutralizes_quotes_and_newlines() {
    assert_eq!(escape_label(r#"e.g. "block", "doc""#), "e.g. 'block', 'doc'");
    assert_eq!(escape_label("line1\nline2"), "line1 line2");
    assert_eq!(escape_label("plain"), "plain");
}

#[test]
fn component_description_with_quotes_does_not_break_the_string() {
    let mut node = DirNode::empty("api", "api");
    node.c4_level = Some(C4Level::Component);
    node.description = Some(r#"Typed name (e.g. "block")"#.to_string());
    let mut ir = ArchitectureIR::new("/scan".to_string());
    ir.root.dirs = vec![node];

    let out = component_diagram(&ir);

    assert!(out.contains(r#"Component(api, "api", "--", "Typed name (e.g. 'block')")"#));
    assert!(!out.contains(r#"(e.g. "block")"#));
}

#[test]
fn container_diagram_groups_by_layer() {
    let ir = ir_with(vec![
        container("gpui", Some("UI")),
        container("tui", Some("UI")),
        container("mcp", Some("Services")),
    ]);
    let out = container_diagram(&ir);

    assert!(out.contains("System_Boundary(sys, \"System\")"));
    assert!(out.contains("Container_Boundary(UI_layer, \"UI\") {"));
    assert!(out.contains("Container_Boundary(Services_layer, \"Services\") {"));
    assert!(out.contains("Container(gpui, \"Gpui\""));
    assert!(out.contains("Container(tui, \"Tui\""));
    assert!(out.contains("Container(mcp, \"Mcp\""));
}

#[test]
fn container_diagram_stays_flat_without_layers() {
    let ir = ir_with(vec![container("gpui", None), container("tui", None)]);
    let out = container_diagram(&ir);

    assert!(!out.contains("Container_Boundary"));
    assert!(out.contains("System_Boundary(sys, \"System\") {"));
    assert!(out.contains("    Container(gpui, \"Gpui\""));
}

#[test]
fn container_diagram_exact_text_for_one_container() {
    let ir = ir_with(vec![container("gpui", None)]);
    let out = container_diagram(&ir);
    let expected = [
        "@startuml c4-container\n",
        "!include https://raw.githubusercontent.com/plantuml-stdlib/C4-PlantUML/master/C4_Container.puml\n",
        "\n",
        "title Container Diagram\n",
        "\n",
        "System_Boundary(sys, \"System\") {\n",
        "    Container(gpui, \"Gpui\", \"--\", \"\")\n",
        "}\n",
        "\n",
        "\n",
        "\n",
        "@enduml\n",
    ]
    .concat();
    assert_eq!(out, expected);
}

#[test]
fn container_diagram_lists_relationships_and_systems() {
    let mut core = container("core", None);
    core.relationships.push(Relationship {
        target: "db-layer".to_string(),
        label: "reads \"rows\"".to_string(),
        protocol: "SQL".to_string(),
    });
    let mut ext = DirNode::empty("payments", "ext/payments");
    ext.c4_level = Some(C4Level::System);
    ext.description = Some("Card processor".to_string());
    let ir = ir_with(vec![core, ext]);
    let out = container_diagram(&ir);
    assert!(out.contains("System_Ext(ext_payments, \"Payments\", \"Card processor\")\n"));
    assert!(out.contains("Rel(core, db_layer, \"reads 'rows'\", \"SQL\")\n"));
}

#[test]
fn context_and_code_diagrams_absent_without_their_nodes() {
    let ir = ir_with(vec![container("gpui", None)]);
    assert!(context_diagram(&ir).is_none());
    assert!(code_diagram(&ir).is_none());
}

#[test]
fn context_diagram_present_with_a_system() {
    let mut sys = DirNode::empty("shop", "shop");
    sys.c4_level = Some(C4Level::System);
    let ir = ir_with(vec![sys]);
    let out = context_diagram(&ir).unwrap();
    assert!(out.contains("System(shop, \"Shop\""));
}

#[test]
fn puml_ids_are_plain() {
    assert_eq!(to_puml_id("my-app.core/x"), "my_app_core_x");
    assert_eq!(to_puml_id("plain"), "plain");
}

#[test]
fn title_case_capitalizes_each_word() {
    assert_eq!(to_title_case("hello_world"), "Hello World");
    assert_eq!(to_title_case("api"), "Api");
    assert_eq!(to_title_case("a__b"), "A  B");
}
