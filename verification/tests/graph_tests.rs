use regalloc_ga::graph::VarLifetimeGraph;
use regalloc_ga::lifetime::VarLifetime;

fn path_lifetimes() -> Vec<VarLifetime> {
    // A path-shaped conflict graph: A-B, B-C, C-D overlap; A-C, A-D and
    // B-D do not.
    vec![
        VarLifetime::new(0, 0, 2).unwrap(), // A
        VarLifetime::new(1, 1, 3).unwrap(), // B
        VarLifetime::new(2, 3, 5).unwrap(), // C
        VarLifetime::new(3, 4, 4).unwrap(), // D
    ]
}

#[test]
fn graph_edges_follow_overlap() {
    let vars_lt = path_lifetimes();
    let graph = VarLifetimeGraph::new(&vars_lt);

    let expected_edges = [(0u16, 1u16), (1, 2), (2, 3)];
    let expected_non_edges = [(0u16, 2u16), (0, 3), (1, 3)];

    for &(u, v) in expected_edges.iter() {
        assert!(graph.adjacent_ids(u, v));
        assert!(graph.adjacent_ids(v, u));
    }
    for &(u, v) in expected_non_edges.iter() {
        assert!(!graph.adjacent_ids(u, v));
        assert!(!graph.adjacent_ids(v, u));
    }
    // No self-loops.
    for id in 0u16..4 {
        assert!(!graph.adjacent_ids(id, id));
    }
}

#[test]
fn graph_adjacency_is_symmetric_and_degrees_count_neighbours() {
    let vars_lt = path_lifetimes();
    let graph = VarLifetimeGraph::new(&vars_lt);

    assert_eq!(graph.nodes.len(), 4);
    for (id, node) in graph.nodes.iter() {
        // The degree counts the adjacency list.
        assert_eq!(node.deg as usize, node.adj_set.len());
        assert_eq!(graph.degree_of(*id), node.deg);
        // Symmetry: every listed neighbour lists us back.
        for &other in node.adj_set.iter() {
            assert!(graph.adjacent_ids(other, *id));
        }
    }
    // Path degrees: ends 1, middle 2.
    assert_eq!(graph.degree_of(0), 1);
    assert_eq!(graph.degree_of(1), 2);
    assert_eq!(graph.degree_of(2), 2);
    assert_eq!(graph.degree_of(3), 1);
}

#[test]
fn graph_adjacency_matches_pairwise_overlap() {
    // Denser instance: every pair is checked against the overlap test.
    let vars_lt = vec![
        VarLifetime::new(10, 0, 4).unwrap(),
        VarLifetime::new(11, 2, 2).unwrap(),
        VarLifetime::new(12, 4, 8).unwrap(),
        VarLifetime::new(13, 9, 9).unwrap(),
        VarLifetime::new(14, 1, 9).unwrap(),
    ];
    let graph = VarLifetimeGraph::new(&vars_lt);

    for a in vars_lt.iter() {
        for b in vars_lt.iter() {
            if a.id != b.id {
                assert_eq!(graph.adjacent_ids(a.id, b.id), a.overlap(b));
            }
        }
    }
}
