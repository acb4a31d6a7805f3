use graph_algorithms::prim::{shortest_path, try_shortest_path, Edge, TreeError};
use graph_algorithms::union_find_tree::UnionFindTree;

#[test]
fn calc_shortest_path_introduction_to_algorithms() {
    let inputs = vec![
        // (from, to, cost)
        (0, 1, 4),
        (0, 7, 8),
        (1, 2, 8),
        (1, 7, 11),
        (2, 3, 7),
        (2, 5, 4),
        (2, 8, 2),
        (3, 4, 9),
        (3, 5, 14),
        (4, 5, 10),
        (5, 6, 2),
        (6, 7, 1),
        (6, 8, 6),
        (7, 8, 7),
    ];

    let mut graph = vec![vec![]; 9];

    for (from, to, cost) in inputs {
        graph[from].push(Edge { to: to, cost: cost });
        graph[to].push(Edge { to: from, cost: cost });
    }

    let min_cost = shortest_path(&graph, 0);
    assert_eq!(min_cost, 37);
}

#[test]
fn calc_shortest_path_arihon() {
    let inputs = vec![
        // (from, to, cost)
        (0, 2, 1),
        (1, 2, 2),
        (1, 4, 10),
        (2, 3, 3),
        (2, 5, 7),
        (3, 5, 1),
        (3, 6, 5),
        (4, 5, 5),
        (5, 6, 8),
    ];

    let mut graph = vec![vec![]; 7];

    for (from, to, cost) in inputs {
        graph[from].push(Edge { to: to, cost: cost });
        graph[to].push(Edge { to: from, cost: cost });
    }

    let min_cost = shortest_path(&graph, 0);
    assert_eq!(min_cost, 17);
}

#[test]
fn spanning_tree_cost_does_not_depend_on_start() {
    let inputs = vec![(0, 1, 4), (0, 2, 1), (1, 2, 2), (1, 3, 5), (2, 3, 8)];
    let mut graph = vec![vec![]; 4];
    for (from, to, cost) in inputs {
        graph[from].push(Edge { to, cost });
        graph[to].push(Edge { to: from, cost });
    }
    for start in 0..4 {
        assert_eq!(shortest_path(&graph, start), 8);
    }
}

#[test]
fn spanning_tree_of_start_component_only() {
    // vertices 2 and 3 form a component of their own
    let graph = vec![
        vec![Edge { to: 1, cost: 3 }],
        vec![Edge { to: 0, cost: 3 }],
        vec![Edge { to: 3, cost: 7 }],
        vec![Edge { to: 2, cost: 7 }],
    ];
    assert_eq!(shortest_path(&graph, 0), 3);
    assert_eq!(shortest_path(&graph, 3), 7);
}

#[test]
fn spanning_tree_single_vertex() {
    let graph: Vec<Vec<Edge>> = vec![vec![Edge { to: 0, cost: 9 }]];
    assert_eq!(shortest_path(&graph, 0), 0);
}

fn kruskal_cost(n: usize, inputs: &[(usize, usize, i64)]) -> i64 {
    let mut sorted = inputs.to_vec();
    sorted.sort_by_key(|&(_, _, cost)| cost);
    let mut uft = UnionFindTree::new(n);
    let mut total = 0;
    for (from, to, cost) in sorted {
        if !uft.same_group(from, to) {
            uft.unite_group(from, to);
            total += cost;
        }
    }
    total
}

fn adjacency(n: usize, inputs: &[(usize, usize, i64)]) -> Vec<Vec<Edge>> {
    let mut graph = vec![vec![]; n];
    for &(from, to, cost) in inputs {
        graph[from].push(Edge { to, cost });
        graph[to].push(Edge { to: from, cost });
    }
    graph
}

#[test]
fn prim_agrees_with_kruskal() {
    let textbook = vec![
        (0, 1, 4),
        (0, 7, 8),
        (1, 2, 8),
        (1, 7, 11),
        (2, 3, 7),
        (2, 5, 4),
        (2, 8, 2),
        (3, 4, 9),
        (3, 5, 14),
        (4, 5, 10),
        (5, 6, 2),
        (6, 7, 1),
        (6, 8, 6),
        (7, 8, 7),
    ];
    assert_eq!(kruskal_cost(9, &textbook), 37);
    for start in 0..9 {
        assert_eq!(shortest_path(&adjacency(9, &textbook), start), 37);
    }

    let other = vec![(0, 2, 1), (1, 2, 2), (1, 4, 10), (2, 3, 3), (2, 5, 7), (3, 5, 1), (3, 6, 5), (4, 5, 5), (5, 6, 8)];
    assert_eq!(kruskal_cost(7, &other), shortest_path(&adjacency(7, &other), 4));

    let with_ties = vec![(0, 1, 3), (1, 2, 3), (2, 3, 3), (3, 0, 3), (0, 2, 3), (1, 3, 1)];
    assert_eq!(kruskal_cost(4, &with_ties), shortest_path(&adjacency(4, &with_ties), 2));
    assert_eq!(kruskal_cost(4, &with_ties), 7);
}

#[test]
fn spanning_tree_with_large_costs() {
    let big = i64::MAX / 2 - 1;
    let graph = adjacency(3, &[(0, 1, big)]);
    assert_eq!(try_shortest_path(&graph, 0), Ok(big));
    assert_eq!(try_shortest_path(&graph, 2), Ok(0));
}

#[test]
fn checked_prim_rejects_bad_arguments() {
    let graph = adjacency(3, &[(0, 1, 2), (1, 2, 3)]);
    assert_eq!(try_shortest_path(&graph, 3), Err(TreeError::InvalidArgument));
    assert_eq!(try_shortest_path(&graph, 1), Ok(5));
    let negative = adjacency(2, &[(0, 1, -1)]);
    assert_eq!(try_shortest_path(&negative, 0), Err(TreeError::InvalidArgument));
    let leaving = vec![vec![Edge { to: 4, cost: 1 }]];
    assert_eq!(try_shortest_path(&leaving, 0), Err(TreeError::InvalidArgument));
    let huge = adjacency(2, &[(0, 1, i64::MAX / 2 + 1)]);
    assert_eq!(try_shortest_path(&huge, 0), Err(TreeError::InvalidArgument));
}
