use quest_solvers::utils::bfs::{bfs, AdjacencyGraph};

fn path_graph() -> AdjacencyGraph {
    AdjacencyGraph {
        adj: vec![vec![1], vec![2], vec![3], vec![4], vec![]],
    }
}

#[test]
fn bfs_follows_a_path_graph() {
    let g = path_graph();
    assert_eq!(bfs(&g, 0, 4), Some(vec![0, 1, 2, 3, 4]));
}

#[test]
fn bfs_respects_edge_direction() {
    let g = path_graph();
    assert_eq!(bfs(&g, 2, 0), None);
}

#[test]
fn bfs_to_self_is_single_node() {
    let g = path_graph();
    assert_eq!(bfs(&g, 3, 3), Some(vec![3]));
}

#[test]
fn bfs_prefers_successor_order_on_ties() {
    let g = AdjacencyGraph {
        adj: vec![vec![1, 2], vec![3], vec![3], vec![]],
    };
    assert_eq!(bfs(&g, 0, 3), Some(vec![0, 1, 3]));
}

#[test]
fn bfs_finds_fewest_hops() {
    let g = AdjacencyGraph {
        adj: vec![vec![1, 4], vec![2], vec![3], vec![], vec![3]],
    };
    assert_eq!(bfs(&g, 0, 3), Some(vec![0, 4, 3]));
}
