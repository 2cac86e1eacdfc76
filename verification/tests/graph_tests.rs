use cproj::Graph;

fn v(s: &str) -> Vec<u8> {
    s.as_bytes().to_vec()
}

#[test]
fn graph_new_is_empty() {
    let g = Graph::new();
    assert!(!g._has_node(&v("src/a.c")));
    assert!(g.get_connected(&v("src/a.c")).is_none());
}

#[test]
fn graph_create_node_is_idempotent() {
    let mut g = Graph::new();
    g.create_node(v("src/a.c"));
    g.create_node(v("src/a.c"));
    assert!(g._has_node(&v("src/a.c")));
    let succ = g.get_connected(&v("src/a.c")).unwrap();
    assert_eq!(succ.len(), 0);
}

#[test]
fn graph_edge_with_absent_endpoint_changes_nothing() {
    let mut g = Graph::new();
    g.create_node(v("src/a.c"));
    // the target is not a node
    g.create_edge(&v("src/a.c"), &v("src/b.c"));
    assert_eq!(g.get_connected(&v("src/a.c")).unwrap().len(), 0);
    assert!(g.get_connected(&v("src/b.c")).is_none());
    // the source is not a node
    g.create_edge(&v("src/b.c"), &v("src/a.c"));
    assert!(g.get_connected(&v("src/b.c")).is_none());
    assert_eq!(g.get_connected(&v("src/a.c")).unwrap().len(), 0);
}

#[test]
fn graph_duplicate_edges_collapse() {
    let mut g = Graph::new();
    g.create_node(v("src/a.c"));
    g.create_node(v("src/b.c"));
    g.create_edge(&v("src/a.c"), &v("src/b.c"));
    g.create_edge(&v("src/a.c"), &v("src/b.c"));
    let succ = g.get_connected(&v("src/a.c")).unwrap();
    assert_eq!(succ.len(), 1);
    assert_eq!(succ[0], v("src/b.c"));
}

#[test]
fn graph_clear_removes_everything() {
    let mut g = Graph::new();
    g.create_node(v("src/a.c"));
    g.create_node(v("src/b.c"));
    g.create_edge(&v("src/a.c"), &v("src/b.c"));
    g.clear();
    assert!(!g._has_node(&v("src/a.c")));
    assert!(g.get_connected(&v("src/b.c")).is_none());
}

#[test]
fn graph_clone_carries_nodes_and_edges() {
    let mut g = Graph::new();
    g.create_node(v("src/a.c"));
    g.create_node(v("src/b.c"));
    g.create_edge(&v("src/a.c"), &v("src/b.c"));
    let h = g.clone();
    assert!(h._has_node(&v("src/a.c")));
    let succ = h.get_connected(&v("src/a.c")).unwrap();
    assert_eq!(succ.len(), 1);
    assert_eq!(succ[0], v("src/b.c"));
    // self loops are allowed
    g.create_edge(&v("src/a.c"), &v("src/a.c"));
    assert_eq!(g.get_connected(&v("src/a.c")).unwrap().len(), 2);
    // the clone is unaffected
    assert_eq!(h.get_connected(&v("src/a.c")).unwrap().len(), 1);
}
