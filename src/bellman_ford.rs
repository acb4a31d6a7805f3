//! Single-source shortest paths over a list of directed edges whose costs
//! may be negative, by repeated passes of relaxation.
use crate::dijkstra;
use crate::INF;
use vstd::prelude::*;

verus! {

/// Why a search refused its arguments.
#[derive(Clone, Copy, Debug, PartialEq, Eq, Structural)]
pub enum PathError {
    /// The start is not a vertex, an edge leaves the graph, or a cost is too
    /// large for sums of walks to stay within `-INF..INF`.
    InvalidArgument,
}

/// A directed edge with its cost.
#[derive(Clone, Copy, Debug, PartialEq, Eq)]
pub struct Edge {
    pub from: usize,
    pub to: usize,
    pub cost: i64,
}

/// Where a walk, given as the indices of the edges it takes, ends.
pub open spec fn walk_end(edges: Seq<Edge>, start: int, w: Seq<int>) -> int {
    if w.len() == 0 {
        start
    } else {
        edges[w.last()].to as int
    }
}

/// Each edge of `w` leaves the vertex that the walk from `start` has reached.
pub open spec fn is_walk(edges: Seq<Edge>, start: int, w: Seq<int>) -> bool
    decreases w.len(),
{
    if w.len() == 0 {
        true
    } else {
        &&& is_walk(edges, start, w.drop_last())
        &&& 0 <= w.last() < edges.len()
        &&& edges[w.last()].from == walk_end(edges, start, w.drop_last())
    }
}

/// The sum of the costs of the edges that `w` takes.
pub open spec fn walk_cost(edges: Seq<Edge>, w: Seq<int>) -> int
    decreases w.len(),
{
    if w.len() == 0 {
        0
    } else {
        walk_cost(edges, w.drop_last()) + edges[w.last()].cost
    }
}

/// Every proper prefix of `w` costs less than `INF`, so that no step of the
/// walk leaves a vertex that counts as unreached.
pub open spec fn prefixes_below_inf(edges: Seq<Edge>, w: Seq<int>) -> bool
    decreases w.len(),
{
    if w.len() == 0 {
        true
    } else {
        prefixes_below_inf(edges, w.drop_last()) && walk_cost(edges, w.drop_last()) < INF
    }
}

/// `w` leads from `start` to `v` at cost `c`.
pub open spec fn reaches(edges: Seq<Edge>, start: int, w: Seq<int>, v: int, c: int) -> bool {
    &&& is_walk(edges, start, w)
    &&& walk_end(edges, start, w) == v
    &&& walk_cost(edges, w) == c
}

/// Edge `i` offers no cheaper way to its end than `dist` says.
pub open spec fn edge_relaxed(edges: Seq<Edge>, dist: Seq<i64>, i: int) -> bool {
    let e = edges[i];
    dist[e.from as int] == INF || dist[e.to as int] <= dist[e.from as int] + e.cost
}

/// Every edge is in range and costs between `-INF` and `INF`.
pub open spec fn edges_ok(edges: Seq<Edge>, n: nat) -> bool {
    forall|i: int|
        0 <= i < edges.len() ==> {
            &&& (#[trigger] edges[i]).from < n
            &&& edges[i].to < n
            &&& -INF <= edges[i].cost <= INF
        }
}

/// No walk from `start` costs less than `-INF`: in particular no negative
/// cycle can be reached from `start`.
pub open spec fn bounded_below(edges: Seq<Edge>, start: int) -> bool {
    forall|w: Seq<int>| is_walk(edges, start, w) ==> -INF <= #[trigger] walk_cost(edges, w)
}

proof fn lemma_walk_steps(edges: Seq<Edge>, start: int, w: Seq<int>)
    requires
        is_walk(edges, start, w),
    ensures
        forall|k: int| 0 <= k < w.len() ==> 0 <= #[trigger] w[k] < edges.len(),
    decreases w.len(),
{
    if w.len() > 0 {
        lemma_walk_steps(edges, start, w.drop_last());
        assert forall|k: int| 0 <= k < w.len() implies 0 <= #[trigger] w[k] < edges.len() by {
            if k < w.len() - 1 {
                assert(w.drop_last()[k] == w[k]);
            }
        }
    }
}

/// Once every edge is relaxed and `start` is at most 0, no walk from `start`
/// whose prefixes stay below `INF` costs less than `dist` at its end.
pub proof fn lemma_relaxed_bound(edges: Seq<Edge>, start: int, dist: Seq<i64>, w: Seq<int>)
    requires
        edges_ok(edges, dist.len()),
        0 <= start < dist.len(),
        dist[start] <= 0,
        forall|i: int| 0 <= i < edges.len() ==> #[trigger] edge_relaxed(edges, dist, i),
        is_walk(edges, start, w),
        prefixes_below_inf(edges, w),
    ensures
        dist[walk_end(edges, start, w)] <= walk_cost(edges, w),
    decreases w.len(),
{
    if w.len() > 0 {
        lemma_relaxed_bound(edges, start, dist, w.drop_last());
        assert(edge_relaxed(edges, dist, w.last()));
    }
}

/// Each entry is at most `INF`, each entry below `INF` is what a walk from
/// `start` costs, and, where no walk from `start` costs less than `-INF`, no
/// walk of fewer than `n` edges whose prefixes stay below `INF` costs less
/// than the entry at its end.
pub open spec fn shortest_dists(edges: Seq<Edge>, start: int, n: nat, dist: Seq<i64>) -> bool {
    &&& forall|v: int| 0 <= v < n ==> #[trigger] dist[v] <= INF
    &&& forall|v: int|
        0 <= v < n && dist[v] < INF ==> exists|w: Seq<int>| reaches(edges, start, w, v, #[trigger] dist[v] as int)
    &&& bounded_below(edges, start) ==> forall|w: Seq<int>|
        is_walk(edges, start, w) && w.len() < n && prefixes_below_inf(edges, w) ==> dist[walk_end(
            edges,
            start,
            w,
        )] <= #[trigger] walk_cost(edges, w)
}

/// Relaxes every edge in passes until a pass changes nothing, or `n` passes
/// have run. Without a negative cycle reachable from `start` the passes stop
/// on their own, and each entry is the cost of a cheapest walk. A relaxation
/// that would fall below `-INF` is left out; without a walk that costs less
/// than `-INF` there is none.
pub fn shortest_path(start: usize, num_of_vertexes: usize, edges: &Vec<Edge>) -> (dists: Vec<i64>)
    requires
        start < num_of_vertexes,
        edges_ok(edges@, num_of_vertexes as nat),
    ensures
        dists@.len() == num_of_vertexes,
        dists@[start as int] <= 0,
        shortest_dists(edges@, start as int, num_of_vertexes as nat, dists@),
{
    let n = num_of_vertexes;
    let m = edges.len();
    let ghost es = edges@;
    let mut dists: Vec<i64> = Vec::new();
    let mut v: usize = 0;
    while v < n
        invariant
            v <= n,
            dists@.len() == v,
            forall|x: int| 0 <= x < v ==> dists@[x] == INF,
        decreases n - v,
    {
        dists.push(INF);
        v = v + 1;
    }
    dists.set(start, 0);
    let ghost mut walks: Seq<Seq<int>> = Seq::new(n as nat, |x: int| Seq::<int>::empty());
    let mut passes: usize = 0;
    let mut update = true;
    while update && passes < n
        invariant
            es == edges@,
            m == es.len(),
            start < n,
            edges_ok(es, n as nat),
            passes <= n,
            dists@.len() == n,
            dists@[start as int] <= 0,
            walks.len() == n,
            forall|x: int| 0 <= x < n ==> -INF <= #[trigger] dists@[x] <= INF,
            forall|x: int|
                0 <= x < n && dists@[x] < INF ==> reaches(es, start as int, #[trigger] walks[x], x, dists@[x] as int),
            bounded_below(es, start as int) ==> forall|w: Seq<int>|
                is_walk(es, start as int, w) && w.len() <= passes && prefixes_below_inf(es, w)
                    ==> dists@[walk_end(es, start as int, w)] <= #[trigger] walk_cost(es, w),
            bounded_below(es, start as int) && !update ==> forall|i: int| 0 <= i < m ==> #[trigger] edge_relaxed(es, dists@, i),
        decreases n - passes,
    {
        update = false;
        let ghost at_start = dists@;
        let mut i: usize = 0;
        while i < m
            invariant
                es == edges@,
                m == es.len(),
                start < n,
                passes < n,
                edges_ok(es, n as nat),
                i <= m,
                dists@.len() == n,
                dists@[start as int] <= 0,
                walks.len() == n,
                forall|x: int| 0 <= x < n ==> -INF <= #[trigger] dists@[x] <= INF,
                forall|x: int|
                    0 <= x < n && dists@[x] < INF ==> reaches(es, start as int, #[trigger] walks[x], x, dists@[x] as int),
                bounded_below(es, start as int) ==> forall|w: Seq<int>|
                    is_walk(es, start as int, w) && w.len() <= passes && prefixes_below_inf(es, w)
                        ==> dists@[walk_end(es, start as int, w)] <= #[trigger] walk_cost(es, w),
                bounded_below(es, start as int) ==> forall|w: Seq<int>|
                    is_walk(es, start as int, w) && w.len() == passes + 1 && prefixes_below_inf(es, w)
                        && w.last() < i ==> dists@[walk_end(es, start as int, w)] <= #[trigger] walk_cost(es, w),
                !update ==> dists@ == at_start,
                bounded_below(es, start as int) && !update ==> forall|j: int| 0 <= j < i ==> #[trigger] edge_relaxed(es, dists@, j),
            decreases m - i,
        {
            let edge = edges[i];
            proof {
                assert(es[i as int] == edge);
            }
            let from_dist = dists[edge.from];
            if from_dist != INF {
                proof {
                    assert(-INF <= edge.cost <= INF);
                    let wf = walks[edge.from as int];
                    let w = wf.push(i as int);
                    assert(w.drop_last() =~= wf);
                    if bounded_below(es, start as int) {
                        assert(-INF <= walk_cost(es, w));
                    }
                }
                let candidate = from_dist + edge.cost;
                if candidate >= -INF && dists[edge.to] > candidate {
                    let ghost before = dists@;
                    dists.set(edge.to, candidate);
                    update = true;
                    proof {
                        let w = walks[edge.from as int].push(i as int);
                        assert(w.drop_last() =~= walks[edge.from as int]);
                        walks = walks.update(edge.to as int, w);
                        if bounded_below(es, start as int) {
                            assert forall|w: Seq<int>|
                                is_walk(es, start as int, w) && w.len() <= passes && prefixes_below_inf(es, w)
                                    implies dists@[walk_end(es, start as int, w)] <= #[trigger] walk_cost(es, w) by {
                                assert(before[walk_end(es, start as int, w)] <= walk_cost(es, w));
                            }
                        }
                    }
                }
            }
            proof {
                if bounded_below(es, start as int) {
                    assert forall|w: Seq<int>|
                        is_walk(es, start as int, w) && w.len() == passes + 1 && prefixes_below_inf(es, w)
                            && w.last() < i + 1 implies dists@[walk_end(es, start as int, w)] <= #[trigger] walk_cost(es, w) by {
                        if w.last() == i {
                            let pre = w.drop_last();
                            assert(dists@[walk_end(es, start as int, pre)] <= walk_cost(es, pre));
                        }
                    }
                }
            }
            i = i + 1;
        }
        passes = passes + 1;
        proof {
            if bounded_below(es, start as int) {
            assert forall|w: Seq<int>|
                is_walk(es, start as int, w) && w.len() <= passes && prefixes_below_inf(es, w)
                    implies dists@[walk_end(es, start as int, w)] <= #[trigger] walk_cost(es, w) by {
                if w.len() == passes {
                    lemma_walk_steps(es, start as int, w);
                    assert(w[w.len() - 1] < m);
                }
            }
            }
        }
    }
    proof {
        if bounded_below(es, start as int) {
            assert forall|w: Seq<int>|
                is_walk(es, start as int, w) && w.len() < n && prefixes_below_inf(es, w)
                    implies dists@[walk_end(es, start as int, w)] <= #[trigger] walk_cost(es, w) by {
                if !update {
                    lemma_relaxed_bound(es, start as int, dists@, w);
                }
            }
        }
        assert forall|x: int| 0 <= x < n && dists@[x] < INF implies exists|w: Seq<int>|
            reaches(es, start as int, w, x, #[trigger] dists@[x] as int) by {
            assert(reaches(es, start as int, walks[x], x, dists@[x] as int));
        }
    }
    dists
}

/// Whether every edge is in range and costs between `-INF` and `INF`.
fn edges_within_limits(num_of_vertexes: usize, edges: &Vec<Edge>) -> (ok: bool)
    ensures
        ok == edges_ok(edges@, num_of_vertexes as nat),
{
    let n = num_of_vertexes;
    let m = edges.len();
    let mut i: usize = 0;
    while i < m
        invariant
            n == num_of_vertexes,
            i <= m,
            m == edges@.len(),
            forall|k: int| 0 <= k < i ==> {
                &&& (#[trigger] edges@[k]).from < n
                &&& edges@[k].to < n
                &&& -INF <= edges@[k].cost <= INF
            },
        decreases m - i,
    {
        let e = edges[i];
        proof {
            assert(edges@[i as int] == e);
        }
        if e.from >= n || e.to >= n || e.cost < -INF || e.cost > INF {
            return false;
        }
        i = i + 1;
    }
    true
}

/// Like `shortest_path`, but refuses a start that is not a vertex, and an
/// edge list that `edges_ok` does not accept.
pub fn try_shortest_path(start: usize, num_of_vertexes: usize, edges: &Vec<Edge>) -> (res: Result<Vec<i64>, PathError>)
    ensures
        res is Err <==> start >= num_of_vertexes || !edges_ok(edges@, num_of_vertexes as nat),
        res is Err ==> res == Err::<Vec<i64>, PathError>(PathError::InvalidArgument),
        res is Ok ==> {
            let dists = res->Ok_0;
            &&& dists@.len() == num_of_vertexes
            &&& dists@[start as int] <= 0
            &&& shortest_dists(edges@, start as int, num_of_vertexes as nat, dists@)
        },
{
    if start >= num_of_vertexes || !edges_within_limits(num_of_vertexes, edges) {
        return Err(PathError::InvalidArgument);
    }
    Ok(shortest_path(start, num_of_vertexes, edges))
}

/// The edge list and the adjacency list hold the same edges: each edge of
/// one stands in the other with the same ends and cost.
pub open spec fn same_graph(adj: Seq<Vec<dijkstra::Edge>>, edges: Seq<Edge>) -> bool {
    &&& forall|i: int| 0 <= i < edges.len() ==> #[trigger] listed_in_adj(adj, edges, i)
    &&& forall|u: int, j: int| 0 <= u < adj.len() && 0 <= j < adj[u]@.len() ==> #[trigger] listed_in_edges(adj, edges, u, j)
}

/// Edge `i` of the list stands in the adjacency list.
pub open spec fn listed_in_adj(adj: Seq<Vec<dijkstra::Edge>>, edges: Seq<Edge>, i: int) -> bool {
    exists|j: int| 0 <= j < adj[edges[i].from as int]@.len() && #[trigger] same_edge(adj, edges, i, edges[i].from as int, j)
}

/// Edge `j` of vertex `u` stands in the edge list.
pub open spec fn listed_in_edges(adj: Seq<Vec<dijkstra::Edge>>, edges: Seq<Edge>, u: int, j: int) -> bool {
    exists|i: int| 0 <= i < edges.len() && #[trigger] same_edge(adj, edges, i, u, j)
}

/// Edge `i` of the list is edge `j` of vertex `u`.
pub open spec fn same_edge(adj: Seq<Vec<dijkstra::Edge>>, edges: Seq<Edge>, i: int, u: int, j: int) -> bool {
    &&& edges[i].from == u
    &&& edges[i].to == adj[u]@[j].to
    &&& edges[i].cost == adj[u]@[j].cost as int
}

spec fn to_edge_walk(adj: Seq<Vec<dijkstra::Edge>>, edges: Seq<Edge>, w: Seq<dijkstra::Step>) -> Seq<int>
    decreases w.len(),
{
    if w.len() == 0 {
        Seq::empty()
    } else {
        let (u, j) = w.last();
        to_edge_walk(adj, edges, w.drop_last()).push(
            choose|i: int| 0 <= i < edges.len() && #[trigger] same_edge(adj, edges, i, u, j),
        )
    }
}

spec fn to_adj_walk(adj: Seq<Vec<dijkstra::Edge>>, edges: Seq<Edge>, w: Seq<int>) -> Seq<dijkstra::Step>
    decreases w.len(),
{
    if w.len() == 0 {
        Seq::empty()
    } else {
        let i = w.last();
        let u = edges[i].from as int;
        to_adj_walk(adj, edges, w.drop_last()).push(
            (u, choose|j: int| 0 <= j < adj[u]@.len() && #[trigger] same_edge(adj, edges, i, u, j)),
        )
    }
}

proof fn lemma_to_edge_walk(adj: Seq<Vec<dijkstra::Edge>>, edges: Seq<Edge>, start: int, w: Seq<dijkstra::Step>)
    requires
        same_graph(adj, edges),
        dijkstra::is_walk(adj, start, w),
    ensures
        is_walk(edges, start, to_edge_walk(adj, edges, w)),
        to_edge_walk(adj, edges, w).len() == w.len(),
        walk_end(edges, start, to_edge_walk(adj, edges, w)) == dijkstra::walk_end(adj, start, w),
        walk_cost(edges, to_edge_walk(adj, edges, w)) == dijkstra::walk_cost(adj, w),
    decreases w.len(),
{
    if w.len() > 0 {
        let pre = w.drop_last();
        lemma_to_edge_walk(adj, edges, start, pre);
        let (u, j) = w.last();
        assert(listed_in_edges(adj, edges, u, j));
        let we = to_edge_walk(adj, edges, w);
        assert(we.drop_last() =~= to_edge_walk(adj, edges, pre));
    }
}

proof fn lemma_to_adj_walk(adj: Seq<Vec<dijkstra::Edge>>, edges: Seq<Edge>, start: int, w: Seq<int>)
    requires
        same_graph(adj, edges),
        edges_ok(edges, adj.len()),
        is_walk(edges, start, w),
    ensures
        dijkstra::is_walk(adj, start, to_adj_walk(adj, edges, w)),
        walk_end(edges, start, w) == dijkstra::walk_end(adj, start, to_adj_walk(adj, edges, w)),
        walk_cost(edges, w) == dijkstra::walk_cost(adj, to_adj_walk(adj, edges, w)),
    decreases w.len(),
{
    if w.len() > 0 {
        let pre = w.drop_last();
        lemma_to_adj_walk(adj, edges, start, pre);
        let i = w.last();
        let u = edges[i].from as int;
        assert(u < adj.len());
        assert(listed_in_adj(adj, edges, i));
        let wa = to_adj_walk(adj, edges, w);
        assert(wa.drop_last() =~= to_adj_walk(adj, edges, pre));
    }
}

/// A walk over edges of non-negative cost costs at least 0, and where it
/// costs less than `INF` so does every prefix.
proof fn lemma_cheap_walk(edges: Seq<Edge>, start: int, w: Seq<int>)
    requires
        forall|i: int| 0 <= i < edges.len() ==> 0 <= #[trigger] edges[i].cost,
        is_walk(edges, start, w),
    ensures
        0 <= walk_cost(edges, w),
        walk_cost(edges, w) < INF ==> prefixes_below_inf(edges, w),
    decreases w.len(),
{
    if w.len() > 0 {
        lemma_cheap_walk(edges, start, w.drop_last());
        assert(0 <= edges[w.last()].cost);
    }
}

/// On a graph with non-negative costs, given both as an adjacency list and
/// as an edge list, Dijkstra's and Bellman-Ford's distances from the same
/// start agree, where every simple path from `start` costs less than `INF`:
/// a vertex that Dijkstra reaches has the same distance in both,
/// and where `usize` holds `INF` a vertex is unreached for both or for neither.
pub proof fn law_agrees_with_dijkstra(
    adj: Seq<Vec<dijkstra::Edge>>,
    edges: Seq<Edge>,
    start: int,
    dd: Seq<usize>,
    bd: Seq<i64>,
)
    requires
        0 <= start < adj.len(),
        dijkstra::edges_in_range(adj),
        edges_ok(edges, adj.len()),
        same_graph(adj, edges),
        forall|w: Seq<dijkstra::Step>|
            dijkstra::is_walk(adj, start, w) && dijkstra::is_simple(adj, start, w) ==> #[trigger] dijkstra::walk_cost(
                adj,
                w,
            ) < INF,
        dd.len() == adj.len(),
        dijkstra::shortest_dists(adj, start, dd),
        bd.len() == adj.len(),
        shortest_dists(edges, start, adj.len(), bd),
    ensures
        forall|v: int| 0 <= v < adj.len() && #[trigger] dd[v] < usize::MAX ==> dd[v] == bd[v],
        usize::MAX > INF ==> forall|v: int| 0 <= v < adj.len() ==> (#[trigger] dd[v] == usize::MAX <==> bd[v] == INF),
{
    let n = adj.len();
    assert forall|i: int| 0 <= i < edges.len() implies 0 <= #[trigger] edges[i].cost by {
        assert(listed_in_adj(adj, edges, i));
    }
    assert forall|w: Seq<int>| is_walk(edges, start, w) implies -INF <= #[trigger] walk_cost(edges, w) by {
        lemma_cheap_walk(edges, start, w);
    }
    assert(bounded_below(edges, start));
    assert forall|v: int| 0 <= v < n implies (usize::MAX > INF ==> (#[trigger] dd[v] == usize::MAX <==> bd[v] == INF))
        && (dd[v] < usize::MAX ==> dd[v] == bd[v]) by {
        if bd[v] < INF {
            let wb = choose|w: Seq<int>| reaches(edges, start, w, v, #[trigger] bd[v] as int);
            lemma_to_adj_walk(adj, edges, start, wb);
            let wa = to_adj_walk(adj, edges, wb);
            assert(dd[v] <= dijkstra::walk_cost(adj, wa));
            assert(dd[v] <= bd[v]);
        }
        if dd[v] < usize::MAX {
            let wd = choose|w: Seq<dijkstra::Step>|
                dijkstra::reaches(adj, start, w, v, #[trigger] dd[v] as int) && dijkstra::is_simple(adj, start, w)
                    && w.len() < adj.len();
            lemma_to_edge_walk(adj, edges, start, wd);
            let we = to_edge_walk(adj, edges, wd);
            assert(dijkstra::walk_cost(adj, wd) < INF);
            lemma_cheap_walk(edges, start, we);
            assert(bd[v] <= walk_cost(edges, we));
            assert(bd[v] <= dd[v]);
            assert(dd[v] < INF);
        }
        assert(bd[v] <= INF);
    }
}

} // verus!
