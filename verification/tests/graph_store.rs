use rust_grapher::deps::{DepKind, NodeInfo};
use rust_grapher::graph::Graph;

fn info(name: &str) -> NodeInfo {
    NodeInfo {
        name: String::from(name),
        version: String::from("1.0.0"),
        kind: DepKind::Normal,
        is_workspace_member: false,
    }
}

#[test]
fn node_insertion_is_idempotent() {
    let mut g: Graph<NodeInfo, DepKind> = Graph::new();
    let a = g.get_or_insert(String::from("id-a"), info("a"));
    let b = g.get_or_insert(String::from("id-b"), info("b"));
    assert_eq!(g.node_count(), 2);
    let a2 = g.get_or_insert(String::from("id-a"), info("a-again"));
    assert_eq!(a, a2);
    assert_eq!(g.node_count(), 2);
    assert_ne!(a, b);
    // the payload of the first insertion stays
    assert_eq!(g.nodes[a].data.name, "a");
}

#[test]
fn edge_insertion_is_idempotent() {
    let mut g: Graph<NodeInfo, DepKind> = Graph::new();
    let a = g.get_or_insert(String::from("id-a"), info("a"));
    let b = g.get_or_insert(String::from("id-b"), info("b"));
    g.add_edge(a, b, DepKind::Normal);
    assert_eq!(g.edge_count(), 1);
    g.add_edge(a, b, DepKind::Dev);
    assert_eq!(g.edge_count(), 1);
    // the first writer's kind stays
    assert_eq!(g.edges[0].kind, DepKind::Normal);
    // the reverse direction is a different pair
    g.add_edge(b, a, DepKind::Normal);
    assert_eq!(g.edge_count(), 2);
}

#[test]
fn built_graphs_are_well_formed() {
    let mut g: Graph<NodeInfo, DepKind> = Graph::new();
    assert!(g.check_wf());
    let a = g.get_or_insert(String::from("id-a"), info("a"));
    let b = g.get_or_insert(String::from("id-b"), info("b"));
    g.add_edge(a, b, DepKind::Normal);
    assert!(g.check_wf());
}

#[test]
fn push_node_shadows_earlier_key() {
    let mut g: Graph<NodeInfo, DepKind> = Graph::new();
    let first = g.push_node(String::from("k"), info("first"));
    let second = g.push_node(String::from("k"), info("second"));
    assert_eq!(g.node_count(), 2);
    assert_eq!(g.lookup("k"), Some(second));
    assert_ne!(first, second);
    assert_eq!(g.lookup("absent"), None);
}
