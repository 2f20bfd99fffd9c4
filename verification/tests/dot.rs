use pi_world::dot::{push_decimal, push_escaped, Config, Dot};
use pi_world::exec_graph::{ExecGraph, NodeType};

fn small_graph() -> ExecGraph {
    let mut g = ExecGraph::new("g".to_string());
    let a = g.add_system(0, "a".to_string());
    let s = g.add_set("s".to_string());
    g.add_edge(a, s);
    g
}

#[test]
fn node_type_texts() {
    assert_eq!(NodeType::Empty.to_string(), "None");
    assert_eq!(NodeType::System(3, "sys".to_string()).to_string(), "System(\"sys\")");
    assert_eq!(NodeType::ArchetypeComponent(42, "x".to_string()).to_string(), "ArchetypeComponent(42,\"x\")");
    assert_eq!(NodeType::Res("r".to_string()).to_string(), "Res(\"r\")");
    assert_eq!(NodeType::SystemSet("s".to_string()).to_string(), "Set(\"s\")");
}

#[test]
fn decimal_and_escape_helpers() {
    let mut s = String::new();
    push_decimal(&mut s, 0);
    s.push(' ');
    push_decimal(&mut s, 1907);
    s.push(' ');
    push_decimal(&mut s, u128::MAX);
    assert_eq!(s, format!("0 1907 {}", u128::MAX));
    let mut e = String::from(">");
    push_escaped(&mut e, "a\"b\\c\nd");
    assert_eq!(e, ">a\\\"b\\\\c\\ld");
}

#[test]
fn dot_text_lists_nodes_then_edges() {
    let g = small_graph();
    assert_eq!(
        Dot::new(&g).to_string(),
        "digraph {\n\t0 [label=\"System(\\\"a\\\")\"];\n\t1 [label=\"Set(\\\"s\\\")\"];\n\t0 -> 1;\n}\n"
    );
}

#[test]
fn dot_text_options() {
    let g = small_graph();
    let cfg = Config::from_bits(Config::GRAPH_CONTENT_ONLY | Config::NODE_NO_LABEL);
    assert_eq!(Dot::with_config(&g, cfg).to_string(), "\t0\t1\t0 -> 1;\n");
    let with_attrs = Dot::with_attr_getters(
        &g,
        Config::from_bits(Config::EDGE_NO_LABEL),
        vec!["color=red".to_string()],
        vec!["shape=box".to_string()],
    );
    assert_eq!(
        with_attrs.to_string(),
        "digraph {\n\t0 [label=\"System(\\\"a\\\")\", shape=box];\n\t1 [label=\"Set(\\\"s\\\")\"];\n\t0 -> 1[color=red];\n}\n"
    );
    // edge attributes are written only with that option
    let plain = Dot::with_attr_getters(&g, Config::empty(), vec!["color=red".to_string()], Vec::new());
    assert!(plain.to_string().contains("\t0 -> 1;\n"));
    assert!(Config::from_bits(3).contains(Config::NODE_NO_LABEL));
    assert!(!Config::empty().contains(Config::EDGE_NO_LABEL));
}
