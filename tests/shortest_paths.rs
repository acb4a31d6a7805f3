use graph_algorithms::bellman_ford;
use graph_algorithms::dijkstra;
use graph_algorithms::warshall_floyd::warshall_floyd;
use graph_algorithms::INF;

fn sample_edges() -> Vec<(usize, usize, i64)> {
    vec![
        // (from, to, cost)
        (0, 1, 2),
        (0, 2, 5),
        (1, 2, 4),
        (1, 3, 6),
        (1, 4, 10),
        (2, 3, 2),
        (3, 5, 1),
        (4, 5, 3),
        (4, 6, 5),
        (5, 6, 9),
    ]
}

fn undirected_edge_list(inputs: &[(usize, usize, i64)]) -> Vec<bellman_ford::Edge> {
    let mut edges = Vec::new();
    for &(from, to, cost) in inputs {
        edges.push(bellman_ford::Edge { from, to, cost });
        edges.push(bellman_ford::Edge { from: to, to: from, cost });
    }
    edges
}

fn undirected_adjacency(n: usize, inputs: &[(usize, usize, i64)]) -> Vec<Vec<dijkstra::Edge>> {
    let mut graph = vec![vec![]; n];
    for &(from, to, cost) in inputs {
        graph[from].push(dijkstra::Edge { to, cost: cost as usize });
        graph[to].push(dijkstra::Edge { to: from, cost: cost as usize });
    }
    graph
}

fn matrix(n: usize, inputs: &[(usize, usize, i64)]) -> Vec<Vec<i64>> {
    let mut dists = vec![vec![INF; n]; n];
    for i in 0..n {
        dists[i][i] = 0;
    }
    for &(from, to, cost) in inputs {
        dists[from][to] = cost;
        dists[to][from] = cost;
    }
    dists
}

#[test]
fn bellman_ford_calc_shortest_path() {
    let inputs = vec![
        // (from, to, cost)
        (0, 1, 2),
        (0, 2, 5),
        (1, 2, 4),
        (1, 3, 6),
        (1, 4, 10),
        (2, 3, 2),
        (3, 5, 1),
        (4, 5, 3),
        (4, 6, 5),
        (5, 6, 9),
    ];

    let mut edges = Vec::new();

    for (from, to, cost) in inputs {
        edges.push(bellman_ford::Edge { from: from, to: to, cost: cost });
        // undirected graph
        edges.push(bellman_ford::Edge { from: to, to: from, cost: cost });
    }

    let dists = bellman_ford::shortest_path(0, 7, &edges);

    assert_eq!(dists[0], 0);
    assert_eq!(dists[3], 7);
    assert_eq!(dists[6], 16);
}

#[test]
fn dijkstra_calc_shortest_path() {
    let inputs = vec![
        // (from, to, cost)
        (0, 1, 2),
        (0, 2, 5),
        (1, 2, 4),
        (1, 3, 6),
        (1, 4, 10),
        (2, 3, 2),
        (3, 5, 1),
        (4, 5, 3),
        (4, 6, 5),
        (5, 6, 9),
    ];

    let mut graph = vec![vec![]; 7];

    for (from, to, cost) in inputs {
        graph[from].push(dijkstra::Edge { to: to, cost: cost });

        graph[to].push(dijkstra::Edge { to: from, cost: cost });
    }

    let dists = dijkstra::shortest_path(&graph, 0);

    assert_eq!(dists[0], 0);
    assert_eq!(dists[3], 7);
    assert_eq!(dists[6], 16);
}

#[test]
fn warshall_floyd_calc_shortest_path() {
    let num_of_vertexes = 7;
    let inputs = vec![
        // (from, to, cost)
        (0, 1, 2),
        (0, 2, 5),
        (1, 2, 4),
        (1, 3, 6),
        (1, 4, 10),
        (2, 3, 2),
        (3, 5, 1),
        (4, 5, 3),
        (4, 6, 5),
        (5, 6, 9),
    ];

    let mut dists = vec![vec![INF; num_of_vertexes]; num_of_vertexes];
    for i in 0..num_of_vertexes {
        dists[i][i] = 0;
    }

    for (from, to, cost) in inputs {
        dists[from][to] = cost;
        dists[to][from] = cost;
    }

    warshall_floyd(num_of_vertexes, &mut dists);

    assert_eq!(dists[0][0], 0);
    assert_eq!(dists[1][5], 7);
    assert_eq!(dists[0][6], 16);
}

#[test]
fn three_algorithms_agree_on_sample_graph() {
    let inputs = sample_edges();
    let expected: Vec<i64> = vec![0, 2, 5, 7, 11, 8, 16];
    let bf = bellman_ford::shortest_path(0, 7, &undirected_edge_list(&inputs));
    let dj = dijkstra::shortest_path(&undirected_adjacency(7, &inputs), 0);
    let mut m = matrix(7, &inputs);
    warshall_floyd(7, &mut m);
    assert_eq!(bf, expected);
    assert_eq!(dj.iter().map(|&d| d as i64).collect::<Vec<i64>>(), expected);
    assert_eq!(m[0], expected);
}

#[test]
fn every_start_agrees_between_dijkstra_and_floyd() {
    let inputs = sample_edges();
    let graph = undirected_adjacency(7, &inputs);
    let mut m = matrix(7, &inputs);
    warshall_floyd(7, &mut m);
    for start in 0..7 {
        let dj = dijkstra::shortest_path(&graph, start);
        let bf = bellman_ford::shortest_path(start, 7, &undirected_edge_list(&inputs));
        for v in 0..7 {
            assert_eq!(dj[v] as i64, m[start][v]);
            assert_eq!(bf[v], m[start][v]);
        }
    }
}

#[test]
fn floyd_full_matrix_row_values() {
    let inputs = sample_edges();
    let mut m = matrix(7, &inputs);
    warshall_floyd(7, &mut m);
    assert_eq!(m[6], vec![16, 15, 11, 9, 5, 8, 0]);
    assert_eq!(m[4][2], 6);
}

#[test]
fn unreachable_vertices_keep_their_sentinels() {
    // vertex 2 has no edge towards it
    let edges = vec![bellman_ford::Edge { from: 0, to: 1, cost: 4 }];
    assert_eq!(bellman_ford::shortest_path(0, 3, &edges), vec![0, 4, INF]);

    let graph = vec![vec![dijkstra::Edge { to: 1, cost: 4 }], vec![], vec![]];
    assert_eq!(dijkstra::shortest_path(&graph, 0), vec![0, 4, usize::MAX]);

    let mut m = vec![vec![0, 4, INF], vec![INF, 0, INF], vec![INF, INF, 0]];
    warshall_floyd(3, &mut m);
    assert_eq!(m[0], vec![0, 4, INF]);
    assert_eq!(m[1], vec![INF, 0, INF]);
}

#[test]
fn bellman_ford_uses_negative_edges() {
    let edges = vec![
        bellman_ford::Edge { from: 0, to: 1, cost: 5 },
        bellman_ford::Edge { from: 0, to: 2, cost: 2 },
        bellman_ford::Edge { from: 1, to: 3, cost: -4 },
        bellman_ford::Edge { from: 2, to: 3, cost: 1 },
        bellman_ford::Edge { from: 3, to: 2, cost: 1 },
    ];
    assert_eq!(bellman_ford::shortest_path(0, 4, &edges), vec![0, 5, 2, 1]);
}

#[test]
fn bellman_ford_single_vertex() {
    assert_eq!(bellman_ford::shortest_path(0, 1, &vec![]), vec![0]);
}

#[test]
fn dijkstra_takes_cheaper_longer_route() {
    let graph = vec![
        vec![dijkstra::Edge { to: 1, cost: 10 }, dijkstra::Edge { to: 2, cost: 1 }],
        vec![],
        vec![dijkstra::Edge { to: 1, cost: 2 }],
    ];
    assert_eq!(dijkstra::shortest_path(&graph, 0), vec![0, 3, 1]);
    assert_eq!(dijkstra::shortest_path(&graph, 2), vec![usize::MAX, 2, 0]);
}

#[test]
fn checked_bellman_ford_rejects_bad_arguments() {
    let edges = vec![bellman_ford::Edge { from: 0, to: 1, cost: 4 }];
    assert_eq!(
        bellman_ford::try_shortest_path(2, 2, &edges),
        Err(bellman_ford::PathError::InvalidArgument)
    );
    let leaving = vec![bellman_ford::Edge { from: 0, to: 5, cost: 4 }];
    assert_eq!(
        bellman_ford::try_shortest_path(0, 2, &leaving),
        Err(bellman_ford::PathError::InvalidArgument)
    );
    let costly = vec![bellman_ford::Edge { from: 0, to: 1, cost: INF + 1 }];
    assert_eq!(
        bellman_ford::try_shortest_path(0, 2, &costly),
        Err(bellman_ford::PathError::InvalidArgument)
    );
    let very_negative = vec![bellman_ford::Edge { from: 0, to: 1, cost: i64::MIN }];
    assert_eq!(
        bellman_ford::try_shortest_path(0, 2, &very_negative),
        Err(bellman_ford::PathError::InvalidArgument)
    );
}

#[test]
fn checked_bellman_ford_computes_distances() {
    let inputs = sample_edges();
    let edges = undirected_edge_list(&inputs);
    assert_eq!(
        bellman_ford::try_shortest_path(0, 7, &edges),
        Ok(vec![0, 2, 5, 7, 11, 8, 16])
    );
    let half = INF / 2 + 1;
    let edges = vec![bellman_ford::Edge { from: 0, to: 1, cost: half }];
    assert_eq!(bellman_ford::try_shortest_path(0, 3, &edges), Ok(vec![0, half, INF]));
    let edges = vec![bellman_ford::Edge { from: 0, to: 1, cost: -INF }];
    assert_eq!(bellman_ford::try_shortest_path(0, 2, &edges), Ok(vec![0, -INF]));
}

#[test]
fn floyd_handles_negative_edges() {
    let mut m = vec![vec![0, 4, 5], vec![INF, 0, -2], vec![INF, INF, 0]];
    warshall_floyd(3, &mut m);
    assert_eq!(m[0], vec![0, 4, 2]);
    // no path from 1 to 0: nothing is ever added to the sentinel
    assert_eq!(m[1], vec![INF, 0, -2]);
    assert_eq!(m[2], vec![INF, INF, 0]);
}

#[test]
fn checked_dijkstra_rejects_bad_arguments() {
    let graph = vec![vec![dijkstra::Edge { to: 1, cost: 4 }], vec![]];
    assert_eq!(dijkstra::try_shortest_path(&graph, 2), Err(dijkstra::PathError::InvalidArgument));
    let leaving = vec![vec![dijkstra::Edge { to: 3, cost: 4 }], vec![]];
    assert_eq!(dijkstra::try_shortest_path(&leaving, 0), Err(dijkstra::PathError::InvalidArgument));
    assert_eq!(dijkstra::try_shortest_path(&graph, 0), Ok(vec![0, 4]));
}

#[test]
fn floyd_keeps_sentinel_for_unreached_pairs() {
    let mut m = vec![vec![0, INF, INF], vec![INF, 0, -2], vec![INF, INF, 0]];
    warshall_floyd(3, &mut m);
    assert_eq!(m, vec![vec![0, INF, INF], vec![INF, 0, -2], vec![INF, INF, 0]]);
}

#[test]
fn bellman_ford_leaves_out_sums_below_minus_inf() {
    // the second edge would take vertex 2 below -INF, so it is not relaxed
    let edges = vec![
        bellman_ford::Edge { from: 0, to: 1, cost: -INF },
        bellman_ford::Edge { from: 1, to: 2, cost: -1 },
    ];
    assert_eq!(bellman_ford::shortest_path(0, 3, &edges), vec![0, -INF, INF]);
}
