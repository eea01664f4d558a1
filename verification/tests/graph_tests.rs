use mygraphlib::graph::{Edge, Graph, GraphError, Node};

#[test]
fn it_works() {
    let result = 2 + 2;
    assert_eq!(result, 4);
}

#[test]
fn ser() {
    let mut g = Graph::<u32>::new();
    g.add_node(1, 1).unwrap();
    g.add_node(2, 2).unwrap();
    g.add_node(3, 3).unwrap();
    g.add_node(4, 4).unwrap();
    g.add_node(5, 5).unwrap();
    g.add_edge(1, 2).unwrap();
    g.add_edge(1, 4).unwrap();
    g.add_edge(2, 3).unwrap();
    g.add_edge(5, 3).unwrap();
    let s = g.ser();
    assert_eq!(s, "1 1\n2 2\n3 3\n4 4\n5 5\n#\n1 2\n1 4\n2 3\n5 3\n");
    g.remove_node_by_id(5);
    let s = g.ser();
    assert_eq!(s, "1 1\n2 2\n3 3\n4 4\n#\n1 2\n1 4\n2 3\n");
}

#[test]
fn deser() {
    let s = "1 123\n2 321\n#\n1 2";
    let g = Graph::<u32>::deser(s).unwrap();
    assert!(g.get_all_nodes()[0].id == 1);
    assert!(g.get_all_nodes()[0].value == 123);
    assert!(g.get_all_nodes()[1].id == 2);
    assert!(g.get_all_nodes()[1].value == 321);
    assert!(g.get_connected(g.get_all_nodes()[0])[0].id == 2);
    assert!(g.get_connected(g.get_all_nodes()[0])[0].value == 321);
    assert!(g.get_connected(g.get_all_nodes()[1]).is_empty());
}

#[test]
fn traverse() {
    let mut g = Graph::<u32>::new();
    g.add_node(1, 1).unwrap();
    g.add_node(2, 2).unwrap();
    g.add_node(3, 3).unwrap();
    g.add_node(4, 4).unwrap();
    g.add_node(5, 5).unwrap();
    g.add_edge(1, 2).unwrap();
    g.add_edge(2, 1).unwrap();
    g.add_edge(1, 3).unwrap();
    g.add_edge(3, 4).unwrap();
    g.add_edge(4, 3).unwrap();
    g.add_edge(4, 5).unwrap();
    let q = g.traverse_from(g.get_all_nodes()[0]);
    for n_id in q {
        if g.get_all_nodes().iter().find(|n| n.id == n_id).is_none() {
            panic!();
        }
    }
}

#[test]
fn traverse_cycle_safety() {
    let mut g = Graph::<u32>::new();
    g.add_node(1, 1).unwrap();
    g.add_node(2, 2).unwrap();
    g.add_edge(1, 2).unwrap();
    g.add_edge(2, 1).unwrap();
    g.traverse_from(g.get_all_nodes()[0]);
}

#[test]
#[should_panic]
fn panic_on_dupl_node() {
    let mut g = Graph::<u32>::new();
    g.add_node(1, 1).unwrap();
    g.add_node(1, 2).unwrap();
}

#[test]
#[should_panic]
fn panic_on_invalid_edge() {
    let mut g = Graph::<u32>::new();
    g.add_node(1, 1).unwrap();
    g.add_node(2, 2).unwrap();
    g.add_edge(1, 2).unwrap();
    g.add_edge(1, 3).unwrap();
}

#[test]
fn duplicate_node_error_leaves_graph_unchanged() {
    let mut g = Graph::<u32>::new();
    g.add_node(1, 10).unwrap();
    let before = g.ser();
    let r = g.add_node(1, 20);
    assert!(matches!(r, Err(GraphError::DuplicateNode(1))));
    assert_eq!(g.ser(), before);
}

#[test]
fn invalid_edge_error_leaves_graph_unchanged() {
    let mut g = Graph::<u32>::new();
    g.add_node(1, 1).unwrap();
    let before = g.ser();
    let r = g.add_edge(1, 7);
    assert!(matches!(r, Err(GraphError::InvalidEdge(1, 7))));
    let r = g.add_edge(7, 1);
    assert!(matches!(r, Err(GraphError::InvalidEdge(7, 1))));
    assert_eq!(g.ser(), before);
}

#[test]
fn parse_error_carries_line() {
    let r = Graph::<u32>::deser("not a node line at all");
    match r {
        Err(GraphError::Parse(l)) => assert_eq!(l, "not a node line at all"),
        _ => panic!(),
    }
    assert!(matches!(Graph::<u32>::deser("1 2 3"), Err(GraphError::Parse(_))));
    assert!(matches!(Graph::<u32>::deser("x 2"), Err(GraphError::Parse(_))));
    assert!(matches!(Graph::<u32>::deser("1 y"), Err(GraphError::Parse(_))));
    assert!(matches!(
        Graph::<u32>::deser("1 1\n1 2"),
        Err(GraphError::DuplicateNode(1))
    ));
    assert!(matches!(
        Graph::<u32>::deser("1 1\n#\n1 2"),
        Err(GraphError::InvalidEdge(1, 2))
    ));
}

#[test]
fn edge_insert_is_idempotent() {
    let mut g = Graph::<u32>::new();
    g.add_node(1, 1).unwrap();
    g.add_node(2, 2).unwrap();
    g.add_edge(1, 2).unwrap();
    g.add_edge(1, 2).unwrap();
    assert_eq!(g.ser(), "1 1\n2 2\n#\n1 2\n");
}

#[test]
fn remove_edge_matches_both_endpoints() {
    let mut g = Graph::<u32>::new();
    g.add_node(1, 1).unwrap();
    g.add_node(2, 2).unwrap();
    g.add_node(3, 3).unwrap();
    g.add_edge(1, 2).unwrap();
    g.add_edge(1, 3).unwrap();
    g.add_edge(3, 2).unwrap();
    g.remove_edge(&Edge::new(1, 2));
    assert_eq!(g.ser(), "1 1\n2 2\n3 3\n#\n1 3\n3 2\n");
}

#[test]
fn cascade_delete_removes_incident_edges() {
    let mut g = Graph::<u32>::new();
    g.add_node(1, 1).unwrap();
    g.add_node(2, 2).unwrap();
    g.add_node(3, 3).unwrap();
    g.add_edge(1, 2).unwrap();
    g.add_edge(2, 3).unwrap();
    g.add_edge(3, 1).unwrap();
    g.remove_node_by_id(2);
    assert_eq!(g.ser(), "1 1\n3 3\n#\n3 1\n");
}

#[test]
fn round_trip_preserves_everything() {
    let mut g = Graph::<u32>::new();
    g.add_node(1, 1).unwrap();
    g.add_node(2, 2).unwrap();
    g.add_node(3, 3).unwrap();
    g.add_node(4, 4).unwrap();
    g.add_edge(1, 2).unwrap();
    g.add_edge(1, 4).unwrap();
    g.add_edge(2, 3).unwrap();
    let s = g.ser();
    assert_eq!(s, "1 1\n2 2\n3 3\n4 4\n#\n1 2\n1 4\n2 3\n");
    let g2 = Graph::<u32>::deser(&s).unwrap();
    assert_eq!(g2.ser(), s);
    let all = g2.get_all_nodes();
    assert_eq!(all.len(), 4);
    for (i, n) in all.iter().enumerate() {
        assert_eq!(n.id, (i + 1) as u32);
        assert_eq!(n.value, (i + 1) as u32);
    }
}

#[test]
fn traverse_visits_each_reachable_once_in_order() {
    let mut g = Graph::<u32>::new();
    g.add_node(1, 1).unwrap();
    g.add_node(2, 2).unwrap();
    g.add_edge(1, 2).unwrap();
    g.add_edge(2, 1).unwrap();
    let q = g.traverse_from(g.get_all_nodes()[0]);
    assert_eq!(q, vec![1, 2]);
}

#[test]
fn traverse_depth_first_order() {
    let mut g = Graph::<u32>::new();
    g.add_node(1, 1).unwrap();
    g.add_node(2, 2).unwrap();
    g.add_node(3, 3).unwrap();
    g.add_node(4, 4).unwrap();
    g.add_edge(1, 2).unwrap();
    g.add_edge(1, 4).unwrap();
    g.add_edge(2, 3).unwrap();
    let q = g.traverse_from(g.get_all_nodes()[0]);
    assert_eq!(q, vec![1, 2, 3, 4]);
}

#[test]
fn node_and_edge_lines() {
    let n = Node::<u32>::new(1, 123);
    assert_eq!(n.ser(), "1 123");
    let n2 = Node::<u32>::deser("7 42").unwrap();
    assert_eq!(n2.id, 7);
    assert_eq!(n2.value, 42);
    assert!(matches!(Node::<u32>::deser("7  42"), Err(GraphError::Parse(_))));
    assert!(matches!(Node::<u32>::deser("742"), Err(GraphError::Parse(_))));
    let e = Edge::new(3, 9);
    assert_eq!(e.ser(), "3 9");
    let e2 = Edge::deser("3 9").unwrap();
    assert_eq!(e2.begin, 3);
    assert_eq!(e2.end, 9);
    assert!(matches!(Edge::deser("3 x"), Err(GraphError::Parse(_))));
    assert!(matches!(Edge::deser("4294967296 1"), Err(GraphError::Parse(_))));
    let e3 = Edge::deser("4294967295 0").unwrap();
    assert_eq!(e3.begin, u32::MAX);
}

#[test]
fn deser_tolerates_trailing_newline_and_missing_separator() {
    let g = Graph::<u32>::deser("1 1\n2 2\n#\n1 2\n").unwrap();
    assert_eq!(g.ser(), "1 1\n2 2\n#\n1 2\n");
    let g2 = Graph::<u32>::deser("1 1\n2 2").unwrap();
    assert_eq!(g2.ser(), "1 1\n2 2\n#\n");
    let g3 = Graph::<u32>::deser("").unwrap();
    assert_eq!(g3.ser(), "#\n");
}
