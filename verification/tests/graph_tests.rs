use digraph::DataTypes;
use digraph::Edge;
use digraph::Graph;
use digraph::Node;

/// The six-node graph the scenarios use:
/// 0 -> 1, 0 -> 2, 0 -> 3, 0 -> 4, 3 -> 5, 4 -> 5.
fn generate_base_graph() -> Graph {
    let mut g = Graph::new();

    let idx0 = g.add_node(Node::from("hello"));
    let idx1 = g.add_node(Node::from("world"));
    let idx2 = g.add_node(Node::from("foo"));
    let idx3 = g.add_node(Node::from("bar"));
    let idx4 = g.add_node(Node::from("baz"));
    let idx5 = g.add_node(Node::from("asd"));

    println!("Reachable {:?}", g.reachable_nodes_from(idx2));

    g.add_edge(Edge {
        from: idx0,
        to: idx1,
    });
    g.add_edge(Edge {
        from: idx0,
        to: idx2,
    });
    g.add_edge(Edge {
        from: idx0,
        to: idx3,
    });
    g.add_edge(Edge {
        from: idx0,
        to: idx4,
    });

    g.add_edge(Edge {
        from: idx3,
        to: idx5,
    });
    g.add_edge(Edge {
        from: idx4,
        to: idx5,
    });

    g
}

#[test]
fn single_node_is_boundary() {
    let mut g2 = Graph::new();

    let idx = g2.add_node(Node::from(1));
    assert_eq!(vec![idx], g2.boundary().unwrap());
}

#[test]
fn test_boundary() {
    let g = generate_base_graph();
    assert_eq!(vec![1, 2, 5], g.boundary().unwrap());
}

#[test]
fn test_bfs_distance() {
    let g = generate_base_graph();
    assert_eq!(0, g.bfs_distance(0, 0));
    assert_eq!(0, g.bfs_distance(2, 2));
    assert_eq!(4, g.bfs_distance(0, 5));
}

#[test]
fn shortest_path() {
    let g = generate_base_graph();
    let path = g.shortest_path(0, 5).unwrap();

    assert!(path == vec![0, 3, 5] || path == vec![0, 4, 5]);
    assert_eq!(vec![3, 5], g.shortest_path(3, 5).unwrap());

    assert_eq!(None, g.shortest_path(2, 5));
    assert_eq!(None, g.shortest_path(1, 5));
}

#[test]
fn add_node_is_idempotent() {
    let mut g = Graph::new();
    let i1 = g.add_node(Node::from("hello"));
    let i2 = g.add_node(Node::from("world"));
    assert_eq!(2, g.nodes.len());
    let i1_again = g.add_node(Node::from("hello"));
    let i2_again = g.add_node(Node::from(String::from("world")));
    assert_eq!(i1, i1_again);
    assert_eq!(i2, i2_again);
    assert_eq!(2, g.nodes.len());
}

#[test]
fn add_node_distinguishes_tags() {
    let mut g = Graph::new();
    let i_int = g.add_node(Node::from(7));
    let i_blob = g.add_node(Node::from(vec![7u8]));
    let i_text = g.add_node(Node::from("7"));
    assert_ne!(i_int, i_blob);
    assert_ne!(i_blob, i_text);
    assert_eq!(3, g.nodes.len());
    assert_eq!(i_blob, g.add_node(Node::from(vec![7u8])));
    assert_eq!(3, g.nodes.len());
}

#[test]
fn add_edge_is_idempotent() {
    let mut g = Graph::new();
    g.add_node(Node::from(0));
    g.add_node(Node::from(1));
    let e1 = g.add_edge(Edge { from: 0, to: 1 });
    let e1_again = g.add_edge(Edge { from: 0, to: 1 });
    assert_eq!(e1, e1_again);
    assert_eq!(1, g.edges.len());
    let e2 = g.add_edge(Edge { from: 1, to: 0 });
    assert_ne!(e1, e2);
    assert_eq!(2, g.edges.len());
}

#[test]
fn find_node_idx_reports_presence() {
    let mut g = Graph::new();
    g.add_node(Node::from("hello"));
    g.add_node(Node::from("world"));
    assert_eq!(Some(1), g.find_node_idx(Node::from("world")));
    assert_eq!(None, g.find_node_idx(Node::from("missing")));
}

#[test]
fn remove_node_out_of_range_is_none() {
    let mut g = Graph::new();
    g.add_node(Node::from(1));
    assert_eq!(None, g.remove_node(5));
    assert_eq!(1, g.nodes.len());
}

#[test]
fn remove_node_repairs_edges() {
    let mut g = generate_base_graph();

    let rm = g.remove_node(3).unwrap();
    assert_eq!(DataTypes::Text(String::from("bar")), rm.data);

    // The last node ("asd", old index 5) moved into slot 3; both edges
    // touching the removed node are gone and the surviving edge 4 -> 5 now
    // reads 4 -> 3.
    assert_eq!(5, g.nodes.len());
    assert_eq!(Some(3), g.find_node_idx(Node::from("asd")));
    assert_eq!(
        vec![
            Edge { from: 0, to: 1 },
            Edge { from: 0, to: 2 },
            Edge { from: 0, to: 4 },
            Edge { from: 4, to: 3 },
        ],
        g.edges
    );
    for e in g.edges.iter() {
        assert!(e.from < g.nodes.len() && e.to < g.nodes.len());
    }
}

#[test]
fn remove_last_node_needs_no_repair() {
    let mut g = Graph::new();
    g.add_node(Node::from(0));
    g.add_node(Node::from(1));
    g.add_edge(Edge { from: 0, to: 1 });
    let rm = g.remove_node(1).unwrap();
    assert_eq!(DataTypes::Integer(1), rm.data);
    assert_eq!(1, g.nodes.len());
    assert!(g.edges.is_empty());
}

#[test]
fn reachability_queries_follow_insertion_order() {
    let g = generate_base_graph();
    assert_eq!(vec![1, 2, 3, 4], g.reachable_nodes_from(0));
    assert_eq!(Vec::<usize>::new(), g.reachable_nodes_from(1));
    assert_eq!(vec![3, 4], g.nodes_that_can_reach(5));
    assert_eq!(Vec::<usize>::new(), g.nodes_that_can_reach(0));
}

#[test]
fn boundary_is_none_when_every_node_has_an_edge_out() {
    let mut g = Graph::new();
    g.add_node(Node::from(0));
    g.add_node(Node::from(1));
    g.add_edge(Edge { from: 0, to: 1 });
    g.add_edge(Edge { from: 1, to: 0 });
    assert_eq!(None, g.boundary());

    let empty = Graph::new();
    assert_eq!(None, empty.boundary());
}

#[test]
fn leaves_is_an_alias_for_boundary() {
    let g = generate_base_graph();
    assert_eq!(g.boundary(), g.leaves());
    assert_eq!(vec![1, 2, 5], g.leaves().unwrap());
}

#[test]
fn bfs_distance_zero_only_on_equal_indices() {
    let g = generate_base_graph();
    assert_eq!(0, g.bfs_distance(5, 5));
    assert!(g.bfs_distance(0, 1) > 0);
    assert_eq!(1, g.bfs_distance(0, 1));
}

#[test]
fn bfs_distance_on_unreachable_target_drains_the_queue() {
    let g = generate_base_graph();
    // Node 1 has no outgoing edge: its lone queue entry is popped once and
    // the drained counter, 1, comes back although no path exists.
    assert_eq!(1, g.bfs_distance(1, 5));
    assert_eq!(1, g.bfs_distance(2, 5));
}

#[test]
fn shortest_path_to_self_is_the_single_node() {
    let g = generate_base_graph();
    assert_eq!(Some(vec![3]), g.shortest_path(3, 3));
    assert_eq!(Some(vec![0]), g.shortest_path(0, 0));
}

#[test]
fn shortest_path_follows_real_edges() {
    let g = generate_base_graph();
    let path = g.shortest_path(0, 5).unwrap();
    assert_eq!(0, path[0]);
    assert_eq!(5, *path.last().unwrap());
    for pair in path.windows(2) {
        assert!(g
            .edges
            .iter()
            .any(|e| e.from == pair[0] && e.to == pair[1]));
    }
}

#[test]
fn extract_int_returns_the_integer_payload() {
    let node = Node::from(-42);
    assert_eq!(-42, node.extract_int());
}
