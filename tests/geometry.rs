use spatial_hypergraph::Graph;

fn path() -> Graph {
    Graph::new(vec![vec![0, 1], vec![1, 2], vec![2, 3]])
}

#[test]
fn ball_of_radius_zero_is_empty() {
    let g = path();
    for x in 0..5 {
        assert_eq!(g.v_r(x, 0), 0);
    }
}

#[test]
fn ball_volume_along_path() {
    let g = path();
    assert_eq!(g.v_r(0, 1), 1);
    assert_eq!(g.v_r(0, 2), 2);
    assert_eq!(g.v_r(0, 3), 3);
    assert_eq!(g.v_r(0, 4), 3);
    assert_eq!(g.v_r(1, 1), 2);
    assert_eq!(g.v_r(0, usize::MAX), 3);
}

#[test]
fn ball_volume_counts_hyperedge_neighbours_once() {
    let g = Graph::new(vec![vec![0, 1, 2], vec![2, 0, 3], vec![3, 4]]);
    assert_eq!(g.v_r(0, 1), 3);
    assert_eq!(g.v_r(0, 2), 4);
    assert_eq!(g.v_r(4, 1), 1);
    assert_eq!(g.v_r(4, 2), 3);
}

#[test]
fn ball_volume_on_cycle_and_isolated_vertex() {
    let g = Graph::new(vec![vec![0, 1], vec![1, 2], vec![2, 0]]);
    assert_eq!(g.v_r(0, 1), 2);
    assert_eq!(g.v_r(0, 10), 2);
    assert_eq!(g.v_r(9, 3), 0);
}
