use ihara_zeta::families::{
    complete_graph, cycle_graph, hypercube_graph, irregular_test_graph, petersen_graph,
};
use ihara_zeta::graph::Graph;

#[test]
fn new_keeps_vertices_and_edges() {
    let g = Graph::new(4, vec![(0, 1), (2, 3), (1, 3)]);
    assert_eq!(g.n(), 4);
    assert_eq!(g.edges(), &vec![(0, 1), (2, 3), (1, 3)]);
}

#[test]
fn degrees_count_edge_ends() {
    let g = irregular_test_graph();
    assert_eq!(g.degrees(), vec![2, 3, 3, 3, 3, 2]);
    let path = Graph::new(4, vec![(0, 1), (1, 2), (2, 3)]);
    assert_eq!(path.degrees(), vec![1, 2, 2, 1]);
}

#[test]
fn degrees_count_repeated_edges_twice() {
    let g = cycle_graph(2);
    assert_eq!(g.edges(), &vec![(0, 1), (0, 1)]);
    assert_eq!(g.degrees(), vec![2, 2]);
}

#[test]
fn degrees_of_isolated_vertices_are_zero() {
    let g = Graph::new(3, vec![]);
    assert_eq!(g.degrees(), vec![0, 0, 0]);
    assert_eq!(g.is_regular(), Some(0));
}

#[test]
fn handshake_on_named_graphs() {
    for g in [cycle_graph(7), complete_graph(6), petersen_graph(), hypercube_graph(4), irregular_test_graph()] {
        let total: usize = g.degrees().iter().sum();
        assert_eq!(total, 2 * g.edges().len());
    }
}

#[test]
fn regular_graphs_report_their_degree() {
    assert_eq!(cycle_graph(5).is_regular(), Some(2));
    assert_eq!(cycle_graph(12).is_regular(), Some(2));
    assert_eq!(complete_graph(5).is_regular(), Some(4));
    assert_eq!(complete_graph(10).is_regular(), Some(9));
    assert_eq!(petersen_graph().is_regular(), Some(3));
    assert_eq!(hypercube_graph(3).is_regular(), Some(3));
    assert_eq!(hypercube_graph(0).is_regular(), Some(0));
}

#[test]
fn irregular_graph_is_not_regular() {
    assert_eq!(irregular_test_graph().is_regular(), None);
    let star = Graph::new(4, vec![(0, 1), (0, 2), (0, 3)]);
    assert_eq!(star.is_regular(), None);
}

#[test]
fn regular_edge_count_matches_degree() {
    for g in [cycle_graph(9), complete_graph(7), petersen_graph(), hypercube_graph(5)] {
        let d = g.is_regular().unwrap();
        assert_eq!(g.n() * d, 2 * g.edges().len());
    }
}

#[test]
fn betti_numbers() {
    assert_eq!(cycle_graph(5).betti_number(), 1);
    assert_eq!(complete_graph(5).betti_number(), 6);
    assert_eq!(petersen_graph().betti_number(), 6);
    assert_eq!(hypercube_graph(3).betti_number(), 5);
    assert_eq!(irregular_test_graph().betti_number(), 3);
    assert_eq!(Graph::new(3, vec![]).betti_number(), -2);
    assert_eq!(Graph::new(0, vec![]).betti_number(), 1);
}

#[test]
fn bipartite_graphs() {
    assert!(cycle_graph(12).is_bipartite());
    assert!(cycle_graph(4).is_bipartite());
    assert!(hypercube_graph(3).is_bipartite());
    assert!(hypercube_graph(0).is_bipartite());
    assert!(complete_graph(2).is_bipartite());
    assert!(complete_graph(1).is_bipartite());
    assert!(Graph::new(5, vec![]).is_bipartite());
    let forest = Graph::new(6, vec![(0, 1), (1, 2), (3, 4), (4, 5), (2, 3)]);
    assert!(forest.is_bipartite());
}

#[test]
fn non_bipartite_graphs() {
    assert!(!cycle_graph(5).is_bipartite());
    assert!(!cycle_graph(3).is_bipartite());
    assert!(!complete_graph(5).is_bipartite());
    assert!(!complete_graph(3).is_bipartite());
    assert!(!petersen_graph().is_bipartite());
    assert!(!irregular_test_graph().is_bipartite());
}

#[test]
fn odd_cycle_in_second_component_is_found() {
    let g = Graph::new(7, vec![(0, 1), (1, 2), (3, 4), (4, 5), (5, 3)]);
    assert!(!g.is_bipartite());
    let h = Graph::new(7, vec![(0, 1), (1, 2), (3, 4), (4, 5), (5, 6), (6, 3)]);
    assert!(h.is_bipartite());
}

#[test]
fn cycle_graph_edges() {
    assert_eq!(cycle_graph(5).edges(), &vec![(0, 1), (1, 2), (2, 3), (3, 4), (0, 4)]);
    assert_eq!(cycle_graph(3).edges(), &vec![(0, 1), (1, 2), (0, 2)]);
    assert_eq!(cycle_graph(0).edges(), &Vec::<(usize, usize)>::new());
    assert_eq!(cycle_graph(5).n(), 5);
}

#[test]
fn complete_graph_edges() {
    assert_eq!(complete_graph(4).edges(), &vec![(0, 1), (0, 2), (0, 3), (1, 2), (1, 3), (2, 3)]);
    assert_eq!(complete_graph(10).edges().len(), 45);
    assert_eq!(complete_graph(1).edges().len(), 0);
}

#[test]
fn petersen_graph_edges() {
    let g = petersen_graph();
    assert_eq!(g.n(), 10);
    assert_eq!(
        g.edges(),
        &vec![
            (0, 1),
            (0, 4),
            (0, 5),
            (1, 2),
            (1, 6),
            (2, 3),
            (2, 7),
            (3, 4),
            (3, 8),
            (4, 9),
            (5, 7),
            (5, 8),
            (6, 8),
            (6, 9),
            (7, 9),
        ]
    );
    for &(u, v) in g.edges() {
        assert!(u < v);
    }
}

#[test]
fn hypercube_graph_edges() {
    let g = hypercube_graph(3);
    assert_eq!(g.n(), 8);
    assert_eq!(
        g.edges(),
        &vec![
            (0, 1),
            (0, 2),
            (0, 4),
            (1, 3),
            (1, 5),
            (2, 3),
            (2, 6),
            (3, 7),
            (4, 5),
            (4, 6),
            (5, 7),
            (6, 7),
        ]
    );
    assert_eq!(hypercube_graph(0).n(), 1);
    assert_eq!(hypercube_graph(0).edges().len(), 0);
    assert_eq!(hypercube_graph(6).edges().len(), 6 * 32);
}

#[test]
fn irregular_graph_edges() {
    let g = irregular_test_graph();
    assert_eq!(g.n(), 6);
    assert_eq!(g.edges(), &vec![(0, 1), (0, 2), (1, 2), (1, 3), (2, 4), (3, 4), (3, 5), (4, 5)]);
}

#[test]
fn adjacency_matrix_of_path() {
    let g = Graph::new(3, vec![(1, 0), (1, 2)]);
    assert_eq!(g.adjacency(), vec![vec![0, 1, 0], vec![1, 0, 1], vec![0, 1, 0]]);
}

#[test]
fn adjacency_is_symmetric_with_zero_diagonal() {
    let g = petersen_graph();
    let a = g.adjacency();
    for i in 0..10 {
        assert_eq!(a[i][i], 0);
        for j in 0..10 {
            assert_eq!(a[i][j], a[j][i]);
        }
    }
}

#[test]
fn adjacency_rows_sum_to_degrees() {
    for g in [cycle_graph(6), complete_graph(5), petersen_graph(), hypercube_graph(3), irregular_test_graph()] {
        let a = g.adjacency();
        let d = g.degrees();
        for i in 0..g.n() {
            let row: usize = a[i].iter().map(|&x| x as usize).sum();
            assert_eq!(row, d[i]);
        }
    }
}

#[test]
fn arcs_come_in_both_directions() {
    let g = irregular_test_graph();
    let arcs = g.arcs();
    assert_eq!(arcs.len(), 16);
    assert_eq!(&arcs[0..4], &[(0, 1), (1, 0), (0, 2), (2, 0)]);
    assert_eq!(arcs[15], (5, 4));
}

#[test]
fn hashimoto_matrix_of_triangle() {
    let g = cycle_graph(3);
    assert_eq!(g.arcs(), vec![(0, 1), (1, 0), (1, 2), (2, 1), (0, 2), (2, 0)]);
    let b = g.hashimoto_matrix();
    assert_eq!(
        b,
        vec![
            vec![0, 0, 1, 0, 0, 0],
            vec![0, 0, 0, 0, 1, 0],
            vec![0, 0, 0, 0, 0, 1],
            vec![0, 1, 0, 0, 0, 0],
            vec![0, 0, 0, 1, 0, 0],
            vec![1, 0, 0, 0, 0, 0],
        ]
    );
}

#[test]
fn hashimoto_rows_have_degree_minus_one_successors() {
    for g in [complete_graph(4), petersen_graph(), irregular_test_graph()] {
        let arcs = g.arcs();
        let b = g.hashimoto_matrix();
        let d = g.degrees();
        for (i, &(_, y)) in arcs.iter().enumerate() {
            let row: usize = b[i].iter().map(|&x| x as usize).sum();
            assert_eq!(row, d[y] - 1);
            assert_eq!(b[i][i], 0);
        }
    }
}

#[test]
fn hashimoto_never_reverses_an_arc() {
    let g = petersen_graph();
    let b = g.hashimoto_matrix();
    for k in 0..g.edges().len() {
        assert_eq!(b[2 * k][2 * k + 1], 0);
        assert_eq!(b[2 * k + 1][2 * k], 0);
    }
}

#[test]
fn hashimoto_of_tree_has_no_closed_walk_of_length_two() {
    let g = Graph::new(4, vec![(0, 1), (0, 2), (0, 3)]);
    let b = g.hashimoto_matrix();
    assert_eq!(b.len(), 6);
    for i in 0..6 {
        for j in 0..6 {
            assert!(!(b[i][j] == 1 && b[j][i] == 1));
        }
    }
}

#[test]
fn cycles_are_two_regular_and_bipartite_when_even() {
    for n in 2..=13 {
        let g = cycle_graph(n);
        assert_eq!(g.is_regular(), Some(2));
        assert_eq!(g.is_bipartite(), n % 2 == 0);
        assert_eq!(g.betti_number(), 1);
    }
}

#[test]
fn complete_graphs_are_regular_and_bipartite_only_when_small() {
    for n in 1..=9 {
        let g = complete_graph(n);
        assert_eq!(g.is_regular(), Some(n - 1));
        assert_eq!(g.is_bipartite(), n <= 2);
        assert_eq!(g.edges().len(), n * (n - 1) / 2);
    }
    assert!(complete_graph(0).is_bipartite());
}

#[test]
fn hypercubes_are_regular_and_bipartite() {
    for d in 0..=6 {
        let g = hypercube_graph(d);
        assert_eq!(g.n(), 1 << d);
        assert_eq!(g.is_regular(), Some(d));
        assert!(g.is_bipartite());
    }
}
