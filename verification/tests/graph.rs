use spline_spectral::SmoothingToolkit;
use spline_spectral::graph_nodes::{contains_index, partition_nodes};
use spline_spectral::path_graph::{path_adjacency, path_laplacian};

#[test]
fn partition_two_endpoints() {
    let part = partition_nodes(5, &vec![0, 4]);
    assert_eq!(part.free, vec![1, 2, 3]);
    assert_eq!(part.constrained, vec![0, 4]);
    assert_eq!(part.source, vec![0, 1]);
}

#[test]
fn partition_last_constraint_wins_and_out_of_range_ignored() {
    let part = partition_nodes(5, &vec![2, 7, 2, 0]);
    assert_eq!(part.free, vec![1, 3, 4]);
    assert_eq!(part.constrained, vec![0, 2]);
    assert_eq!(part.source, vec![3, 2]);
}

#[test]
fn partition_all_constrained_and_none() {
    let all = partition_nodes(3, &vec![1, 0, 2]);
    assert!(all.free.is_empty());
    assert_eq!(all.constrained, vec![0, 1, 2]);
    assert_eq!(all.source, vec![1, 0, 2]);
    let none = partition_nodes(3, &vec![]);
    assert_eq!(none.free, vec![0, 1, 2]);
    assert!(none.constrained.is_empty());
    let empty = partition_nodes(0, &vec![0]);
    assert!(empty.free.is_empty() && empty.constrained.is_empty());
}

#[test]
fn last_constraint_wins_matches_writes_in_order() {
    let nodes = vec![2usize, 1, 2, 2, 0];
    let vals = vec![10, 20, 30, 40, 50];
    let mut written = vec![-1; 3];
    for (k, &node) in nodes.iter().enumerate() {
        written[node] = vals[k];
    }
    let part = partition_nodes(3, &nodes);
    for (c, &node) in part.constrained.iter().enumerate() {
        assert_eq!(written[node], vals[part.source[c]]);
    }
    assert_eq!(part.source, vec![4, 1, 3]);
}

#[test]
fn contains_index_finds_members() {
    assert!(contains_index(&vec![3, 1, 4], 4));
    assert!(!contains_index(&vec![3, 1, 4], 2));
    assert!(!contains_index(&vec![], 0));
}

#[test]
fn path_adjacency_five() {
    let adj = path_adjacency(5);
    assert_eq!(
        adj,
        vec![
            vec![0, 1, 0, 0, 0],
            vec![1, 0, 1, 0, 0],
            vec![0, 1, 0, 1, 0],
            vec![0, 0, 1, 0, 1],
            vec![0, 0, 0, 1, 0],
        ]
    );
    assert!(path_adjacency(0).is_empty());
    assert_eq!(path_adjacency(1), vec![vec![0]]);
}

#[test]
fn path_laplacian_five() {
    let lap = path_laplacian(5);
    assert_eq!(
        lap,
        vec![
            vec![1, -1, 0, 0, 0],
            vec![-1, 2, -1, 0, 0],
            vec![0, -1, 2, -1, 0],
            vec![0, 0, -1, 2, -1],
            vec![0, 0, 0, -1, 1],
        ]
    );
    assert_eq!(path_laplacian(1), vec![vec![0]]);
    assert!(path_laplacian(0).is_empty());
}

#[test]
fn path_laplacian_is_degree_minus_adjacency() {
    for n in 0..9usize {
        let adj = path_adjacency(n);
        let lap = path_laplacian(n);
        for i in 0..n {
            let deg: u64 = adj[i].iter().sum();
            let row: i64 = lap[i].iter().sum();
            assert_eq!(row, 0);
            for j in 0..n {
                let d = if i == j { deg as i64 } else { 0 };
                assert_eq!(lap[i][j], d - adj[i][j] as i64);
                assert_eq!(lap[i][j], lap[j][i]);
            }
        }
    }
}

#[test]
fn path_laplacian_energy_is_sum_of_squared_differences() {
    let signals: Vec<Vec<i64>> = vec![
        vec![],
        vec![7],
        vec![3, -2],
        vec![0, 5, -2, 3],
        vec![4, 4, 4, 4, 4],
        vec![1, -3, 8, 0, 2, 2, -7],
    ];
    for f in signals {
        let n = f.len();
        let lap = path_laplacian(n);
        let mut quad: i64 = 0;
        for i in 0..n {
            let row: i64 = (0..n).map(|j| lap[i][j] * f[j]).sum();
            quad += f[i] * row;
        }
        let energy: i64 = (1..n.max(1)).map(|e| (f[e - 1] - f[e]) * (f[e - 1] - f[e])).sum();
        assert_eq!(quad, energy);
        assert!(quad >= 0);
    }
}

#[test]
fn missing_nodes_become_the_free_nodes() {
    let observed = SmoothingToolkit::observed_indices(6, &vec![2]);
    let part = partition_nodes(6, &observed);
    assert_eq!(part.free, vec![2]);
    assert_eq!(part.constrained, vec![0, 1, 3, 4, 5]);
    assert_eq!(part.source, vec![0, 1, 2, 3, 4]);
    let observed = SmoothingToolkit::observed_indices(6, &vec![2, 5]);
    assert_eq!(partition_nodes(6, &observed).free, vec![2, 5]);
}
