//! All-pairs shortest paths on a dense distance matrix, updated in place.
use crate::dijkstra;
use crate::dijkstra::Step;
use crate::INF;
use vstd::prelude::*;

verus! {


/// The matrix as rows of values.
pub open spec fn matrix_view(m: Seq<Vec<i64>>) -> Seq<Seq<i64>> {
    m.map_values(|row: Vec<i64>| row@)
}

/// An `n` by `n` matrix whose entries lie between `-INF` and `INF`.
pub open spec fn valid_matrix(d: Seq<Seq<i64>>, n: nat) -> bool {
    &&& d.len() == n
    &&& forall|i: int| 0 <= i < n ==> (#[trigger] d[i]).len() == n
    &&& forall|i: int, j: int| 0 <= i < n && 0 <= j < n ==> -INF <= #[trigger] d[i][j] <= INF
}

/// The cheapest cost from `i` to `j` whose intermediate vertices all lie
/// below `k`, starting from the direct costs in `d`. A leg that costs `INF`
/// is no way at all: nothing is ever added to it.
pub open spec fn through(d: Seq<Seq<i64>>, k: nat, i: int, j: int) -> int
    decreases k,
{
    if k == 0 {
        d[i][j] as int
    } else {
        let direct = through(d, (k - 1) as nat, i, j);
        let a = through(d, (k - 1) as nat, i, k - 1);
        let b = through(d, (k - 1) as nat, k - 1, j);
        if a < INF && b < INF && a + b < direct {
            a + b
        } else {
            direct
        }
    }
}

/// Step `t` of `p` follows an entry below `INF`.
pub open spec fn step_ok(d: Seq<Seq<i64>>, p: Seq<int>, t: int) -> bool {
    d[p[t]][p[t + 1]] < INF
}

/// `p` runs from `p[0]` to its last vertex along entries below `INF`.
pub open spec fn is_path(d: Seq<Seq<i64>>, n: nat, p: Seq<int>) -> bool {
    &&& p.len() >= 1
    &&& forall|t: int| 0 <= t < p.len() ==> 0 <= #[trigger] p[t] < n
    &&& forall|t: int| 0 <= t < p.len() - 1 ==> #[trigger] step_ok(d, p, t)
}

/// Some path leads from `i` to `j`.
pub open spec fn connected(d: Seq<Seq<i64>>, n: nat, i: int, j: int) -> bool {
    exists|p: Seq<int>| is_path(d, n, p) && p[0] == i && p.last() == j
}

proof fn lemma_path_join(d: Seq<Seq<i64>>, n: nat, p1: Seq<int>, p2: Seq<int>)
    requires
        is_path(d, n, p1),
        is_path(d, n, p2),
        p1.last() == p2[0],
    ensures
        is_path(d, n, p1 + p2.subrange(1, p2.len() as int)),
        (p1 + p2.subrange(1, p2.len() as int))[0] == p1[0],
        (p1 + p2.subrange(1, p2.len() as int)).last() == p2.last(),
{
    let q = p1 + p2.subrange(1, p2.len() as int);
    assert forall|t: int| 0 <= t < q.len() implies 0 <= #[trigger] q[t] < n by {
        if t >= p1.len() {
            assert(q[t] == p2[t - p1.len() + 1]);
        }
    }
    assert forall|t: int| 0 <= t < q.len() - 1 implies #[trigger] step_ok(d, q, t) by {
        if t < p1.len() - 1 {
            assert(step_ok(d, p1, t));
        } else {
            let u = t - p1.len() + 1;
            assert(step_ok(d, p2, u));
            assert(q[t + 1] == p2[u + 1]);
            if t == p1.len() - 1 {
                assert(q[t] == p2[0]);
            } else {
                assert(q[t] == p2[u]);
            }
        }
    }
}

/// Every value of `through` below `INF` has a path behind it.
proof fn lemma_through_path(d: Seq<Seq<i64>>, n: nat, k: nat, i: int, j: int)
    requires
        valid_matrix(d, n),
        k <= n,
        0 <= i < n,
        0 <= j < n,
        through(d, k, i, j) < INF,
    ensures
        connected(d, n, i, j),
    decreases k,
{
    if k == 0 {
        if i == j {
            let p = seq![i];
            assert(is_path(d, n, p) && p[0] == i && p.last() == j);
        } else {
            let p = seq![i, j];
            assert(step_ok(d, p, 0));
            assert(is_path(d, n, p) && p[0] == i && p.last() == j);
        }
    } else {
        let m = k - 1;
        let a = through(d, (k - 1) as nat, i, m);
        let b = through(d, (k - 1) as nat, m, j);
        if a < INF && b < INF && a + b < through(d, (k - 1) as nat, i, j) {
            lemma_through_path(d, n, (k - 1) as nat, i, m);
            lemma_through_path(d, n, (k - 1) as nat, m, j);
            let p1 = choose|p: Seq<int>| is_path(d, n, p) && p[0] == i && p.last() == m;
            let p2 = choose|p: Seq<int>| is_path(d, n, p) && p[0] == m && p.last() == j;
            lemma_path_join(d, n, p1, p2);
            let p = p1 + p2.subrange(1, p2.len() as int);
            assert(is_path(d, n, p) && p[0] == i && p.last() == j);
        } else {
            lemma_through_path(d, n, (k - 1) as nat, i, j);
        }
    }
}

/// No closed walk at `k` through vertices below `k` costs less than 0:
/// the matrix has no negative cycle.
pub open spec fn no_negative_cycle(d: Seq<Seq<i64>>, n: nat) -> bool {
    forall|k: nat| k < n ==> #[trigger] through(d, k, k as int, k as int) >= 0
}

/// No cheapest cost over any set of intermediate vertices falls below
/// `-INF`, so that no sum of two of them leaves an `i64`.
pub open spec fn stays_bounded(d: Seq<Seq<i64>>, n: nat) -> bool {
    forall|k: nat, i: int, j: int| k <= n && 0 <= i < n && 0 <= j < n ==> -INF <= #[trigger] through(d, k, i, j)
}

/// Every value of `through` lies between `-INF` and `INF`, and going
/// through `k` never improves a cost that starts or ends at `k`.
pub proof fn lemma_through_bounds(d: Seq<Seq<i64>>, n: nat, k: nat)
    requires
        valid_matrix(d, n),
        no_negative_cycle(d, n),
        stays_bounded(d, n),
        k <= n,
    ensures
        forall|i: int, j: int| 0 <= i < n && 0 <= j < n ==> -INF <= #[trigger] through(d, k, i, j) <= INF,
        k < n ==> forall|x: int| 0 <= x < n ==> #[trigger] through(d, k + 1, x, k as int) == through(d, k, x, k as int),
        k < n ==> forall|x: int| 0 <= x < n ==> #[trigger] through(d, k + 1, k as int, x) == through(d, k, k as int, x),
    decreases k,
{
    if k > 0 {
        lemma_through_bounds(d, n, (k - 1) as nat);
    }
    assert forall|i: int, j: int| 0 <= i < n && 0 <= j < n implies -INF <= #[trigger] through(d, k, i, j) <= INF by {
        if k > 0 {
            assert(through(d, (k - 1) as nat, i, j) <= INF);
        }
    }
    if k < n {
        assert(0 <= through(d, k, k as int, k as int));
    }
}

/// With no negative entry, every value of `through` lies between 0 and `INF`.
pub proof fn lemma_through_nonneg(d: Seq<Seq<i64>>, n: nat, k: nat)
    requires
        valid_matrix(d, n),
        forall|i: int, j: int| 0 <= i < n && 0 <= j < n ==> 0 <= #[trigger] d[i][j],
        k <= n,
    ensures
        forall|i: int, j: int| 0 <= i < n && 0 <= j < n ==> 0 <= #[trigger] through(d, k, i, j) <= INF,
    decreases k,
{
    if k > 0 {
        lemma_through_nonneg(d, n, (k - 1) as nat);
    }
    assert forall|i: int, j: int| 0 <= i < n && 0 <= j < n implies 0 <= #[trigger] through(d, k, i, j) <= INF by {
        if k > 0 {
            assert(0 <= through(d, (k - 1) as nat, i, j) <= INF);
            assert(0 <= through(d, (k - 1) as nat, i, k - 1) <= INF);
            assert(0 <= through(d, (k - 1) as nat, k - 1, j) <= INF);
        }
    }
}

/// Allowing more intermediate vertices never raises a cost above the direct
/// entry, and a symmetric matrix gives symmetric costs.
pub proof fn lemma_through_shape(d: Seq<Seq<i64>>, n: nat, k: nat)
    requires
        valid_matrix(d, n),
        k <= n,
    ensures
        forall|i: int, j: int| 0 <= i < n && 0 <= j < n ==> #[trigger] through(d, k, i, j) <= d[i][j],
        (forall|i: int, j: int| 0 <= i < n && 0 <= j < n ==> #[trigger] d[i][j] == d[j][i]) ==> forall|i: int, j: int|
            0 <= i < n && 0 <= j < n ==> #[trigger] through(d, k, i, j) == through(d, k, j, i),
    decreases k,
{
    if k > 0 {
        lemma_through_shape(d, n, (k - 1) as nat);
        assert forall|i: int, j: int| 0 <= i < n && 0 <= j < n implies #[trigger] through(d, k, i, j) <= d[i][j] by {
            assert(through(d, (k - 1) as nat, i, j) <= d[i][j]);
        }
        if forall|i: int, j: int| 0 <= i < n && 0 <= j < n ==> #[trigger] d[i][j] == d[j][i] {
            assert forall|i: int, j: int| 0 <= i < n && 0 <= j < n implies #[trigger] through(d, k, i, j) == through(d, k, j, i) by {
                assert(through(d, (k - 1) as nat, i, j) == through(d, (k - 1) as nat, j, i));
                assert(through(d, (k - 1) as nat, i, k - 1) == through(d, (k - 1) as nat, k - 1, i));
                assert(through(d, (k - 1) as nat, k - 1, j) == through(d, (k - 1) as nat, j, k - 1));
            }
        }
    }
}

/// Relaxes every pair through each intermediate vertex in increasing order,
/// so that `dists[i][j]` ends as the cheapest cost from `i` to `j` over all
/// intermediate vertices.
pub fn warshall_floyd(num_of_vertexes: usize, dists: &mut Vec<Vec<i64>>)
    requires
        valid_matrix(matrix_view(old(dists)@), num_of_vertexes as nat),
        no_negative_cycle(matrix_view(old(dists)@), num_of_vertexes as nat),
        stays_bounded(matrix_view(old(dists)@), num_of_vertexes as nat),
    ensures
        valid_matrix(matrix_view(final(dists)@), num_of_vertexes as nat),
        forall|i: int, j: int|
            0 <= i < num_of_vertexes && 0 <= j < num_of_vertexes ==> #[trigger] final(dists)@[i]@[j]
                == through(matrix_view(old(dists)@), num_of_vertexes as nat, i, j),
        forall|i: int, j: int|
            0 <= i < num_of_vertexes && 0 <= j < num_of_vertexes ==> #[trigger] final(dists)@[i]@[j] <= old(dists)@[i]@[j],
        forall|i: int, j: int|
            0 <= i < num_of_vertexes && 0 <= j < num_of_vertexes && !connected(matrix_view(old(dists)@), num_of_vertexes as nat, i, j)
                ==> #[trigger] final(dists)@[i]@[j] == INF,
        (forall|i: int, j: int|
            0 <= i < num_of_vertexes && 0 <= j < num_of_vertexes ==> #[trigger] old(dists)@[i]@[j] == old(dists)@[j]@[i])
            ==> forall|i: int, j: int|
            0 <= i < num_of_vertexes && 0 <= j < num_of_vertexes ==> #[trigger] final(dists)@[i]@[j] == final(dists)@[j]@[i],
{
    let n = num_of_vertexes;
    let ghost d0 = matrix_view(dists@);
    proof {
        assert forall|x: int| 0 <= x < n implies (#[trigger] dists@[x])@.len() == n by {
            assert(d0[x] == dists@[x]@);
        }
    }
    let mut k: usize = 0;
    while k < n
        invariant
            k <= n,
            valid_matrix(d0, n as nat),
            no_negative_cycle(d0, n as nat),
            stays_bounded(d0, n as nat),
            dists@.len() == n,
            forall|x: int| 0 <= x < n ==> (#[trigger] dists@[x])@.len() == n,
            forall|i: int, j: int| 0 <= i < n && 0 <= j < n ==> #[trigger] dists@[i]@[j] == through(d0, k as nat, i, j),
        decreases n - k,
    {
        proof {
            lemma_through_bounds(d0, n as nat, k as nat);
            lemma_through_bounds(d0, n as nat, (k + 1) as nat);
        }
        let mut i: usize = 0;
        while i < n
            invariant
                k < n,
                i <= n,
                valid_matrix(d0, n as nat),
                no_negative_cycle(d0, n as nat),
                stays_bounded(d0, n as nat),
                dists@.len() == n,
                forall|x: int| 0 <= x < n ==> (#[trigger] dists@[x])@.len() == n,
                forall|x: int, y: int| 0 <= x < n && 0 <= y < n ==> -INF <= #[trigger] through(d0, (k + 1) as nat, x, y) <= INF,
                forall|x: int, y: int| 0 <= x < n && 0 <= y < n ==> -INF <= #[trigger] through(d0, k as nat, x, y) <= INF,
                forall|x: int| 0 <= x < n ==> #[trigger] through(d0, (k + 1) as nat, x, k as int) == through(d0, k as nat, x, k as int),
                forall|x: int| 0 <= x < n ==> #[trigger] through(d0, (k + 1) as nat, k as int, x) == through(d0, k as nat, k as int, x),
                forall|x: int, y: int| 0 <= x < i && 0 <= y < n ==> #[trigger] dists@[x]@[y] == through(d0, (k + 1) as nat, x, y),
                forall|x: int, y: int| i <= x < n && 0 <= y < n ==> #[trigger] dists@[x]@[y] == through(d0, k as nat, x, y),
            decreases n - i,
        {
            let mut j: usize = 0;
            while j < n
                invariant
                    k < n,
                    i < n,
                    j <= n,
                    valid_matrix(d0, n as nat),
                    no_negative_cycle(d0, n as nat),
                    stays_bounded(d0, n as nat),
                    dists@.len() == n,
                    forall|x: int| 0 <= x < n ==> (#[trigger] dists@[x])@.len() == n,
                    forall|x: int, y: int| 0 <= x < n && 0 <= y < n ==> -INF <= #[trigger] through(d0, (k + 1) as nat, x, y) <= INF,
                    forall|x: int, y: int| 0 <= x < n && 0 <= y < n ==> -INF <= #[trigger] through(d0, k as nat, x, y) <= INF,
                    forall|x: int| 0 <= x < n ==> #[trigger] through(d0, (k + 1) as nat, x, k as int) == through(d0, k as nat, x, k as int),
                    forall|x: int| 0 <= x < n ==> #[trigger] through(d0, (k + 1) as nat, k as int, x) == through(d0, k as nat, k as int, x),
                    forall|x: int, y: int| 0 <= x < i && 0 <= y < n ==> #[trigger] dists@[x]@[y] == through(d0, (k + 1) as nat, x, y),
                    forall|y: int| 0 <= y < j ==> #[trigger] dists@[i as int]@[y] == through(d0, (k + 1) as nat, i as int, y),
                    forall|y: int| j <= y < n ==> #[trigger] dists@[i as int]@[y] == through(d0, k as nat, i as int, y),
                    forall|x: int, y: int| i < x < n && 0 <= y < n ==> #[trigger] dists@[x]@[y] == through(d0, k as nat, x, y),
                decreases n - j,
            {
                let direct = dists[i][j];
                let to_k = dists[i][k];
                let from_k = dists[k][j];
                let best = if to_k < INF && from_k < INF && to_k + from_k < direct {
                    to_k + from_k
                } else {
                    direct
                };
                let ghost before = dists@;
                dists[i].set(j, best);
                proof {
                    assert forall|x: int| 0 <= x < n && x != i implies dists@[x] == before[x] by {}
                }
                j = j + 1;
            }
            i = i + 1;
        }
        k = k + 1;
    }
    proof {
        lemma_through_bounds(d0, n as nat, n as nat);
        lemma_through_shape(d0, n as nat, n as nat);
        assert forall|x: int, y: int| 0 <= x < n && 0 <= y < n && !connected(d0, n as nat, x, y) implies #[trigger] dists@[x]@[y] == INF by {
            if through(d0, n as nat, x, y) < INF {
                lemma_through_path(d0, n as nat, n as nat, x, y);
            }
        }
        assert forall|x: int, y: int| 0 <= x < n && 0 <= y < n implies d0[x][y] == old(dists)@[x]@[y] by {
            assert(d0[x] == old(dists)@[x]@);
        }
        assert forall|x: int| 0 <= x < n implies (#[trigger] matrix_view(dists@)[x]).len() == n by {
            assert(matrix_view(dists@)[x] == dists@[x]@);
        }
        assert forall|x: int, y: int| 0 <= x < n && 0 <= y < n implies -INF <= #[trigger] matrix_view(
            dists@,
        )[x][y] <= INF by {
            assert(matrix_view(dists@)[x] == dists@[x]@);
        }
    }
}

/// The matrix holds the graph of `adj`: 0 on the diagonal, and elsewhere the
/// cost of a cheapest edge, or `INF` where there is none.
pub open spec fn matrix_of(adj: Seq<Vec<dijkstra::Edge>>, d: Seq<Seq<i64>>) -> bool {
    &&& forall|u: int| 0 <= u < adj.len() ==> #[trigger] d[u][u] == 0
    &&& forall|u: int, j: int|
        0 <= u < adj.len() && 0 <= j < adj[u]@.len() ==> d[u][#[trigger] adj[u]@[j].to as int] <= adj[u]@[j].cost
    &&& forall|u: int, v: int|
        0 <= u < adj.len() && 0 <= v < adj.len() && u != v && #[trigger] d[u][v] < INF ==> exists|j: int|
            0 <= j < adj[u]@.len() && adj[u]@[j].to == v && #[trigger] adj[u]@[j].cost == d[u][v]
}

/// The vertices that a walk from `start` passes through, in order.
spec fn path_of(adj: Seq<Vec<dijkstra::Edge>>, start: int, w: Seq<Step>) -> Seq<int>
    decreases w.len(),
{
    if w.len() == 0 {
        seq![start]
    } else {
        path_of(adj, start, w.drop_last()).push(dijkstra::walk_end(adj, start, w))
    }
}

/// What the matrix charges for going along the vertices of `p`.
spec fn path_cost(d: Seq<Seq<i64>>, p: Seq<int>) -> int
    decreases p.len(),
{
    if p.len() <= 1 {
        0
    } else {
        path_cost(d, p.drop_last()) + d[p[p.len() - 2]][p.last()]
    }
}

#[verifier::spinoff_prover]
proof fn lemma_path_of(adj: Seq<Vec<dijkstra::Edge>>, d: Seq<Seq<i64>>, start: int, w: Seq<Step>)
    requires
        0 <= start < adj.len(),
        dijkstra::edges_in_range(adj),
        matrix_of(adj, d),
        dijkstra::is_walk(adj, start, w),
        dijkstra::is_simple(adj, start, w),
    ensures
        path_of(adj, start, w).len() == w.len() + 1,
        path_of(adj, start, w)[0] == start,
        path_of(adj, start, w).last() == dijkstra::walk_end(adj, start, w),
        path_of(adj, start, w).no_duplicates(),
        forall|t: int| 0 <= t < path_of(adj, start, w).len() ==> 0 <= #[trigger] path_of(adj, start, w)[t] < adj.len(),
        forall|x: int| path_of(adj, start, w).contains(x) <==> dijkstra::visited(adj, start, w).contains(x),
        path_cost(d, path_of(adj, start, w)) <= dijkstra::walk_cost(adj, w),
    decreases w.len(),
{
    if w.len() > 0 {
        let pre = w.drop_last();
        lemma_path_of(adj, d, start, pre);
        let p = path_of(adj, start, w);
        let pp = path_of(adj, start, pre);
        assert(p.drop_last() =~= pp);
        let (u, j) = w.last();
        assert(adj[u]@[j].to < adj.len());
        assert(pp.last() == u);
        assert(p[p.len() - 1] == dijkstra::walk_end(adj, start, w));
        assert forall|x: int| p.contains(x) <==> dijkstra::visited(adj, start, w).contains(x) by {
            if p.contains(x) && x != p.last() {
                let t = choose|t: int| 0 <= t < p.len() && p[t] == x;
                assert(pp[t] == x);
                assert(pp.contains(x));
            }
            if dijkstra::visited(adj, start, pre).contains(x) {
                assert(pp.contains(x));
                let t = choose|t: int| 0 <= t < pp.len() && pp[t] == x;
                assert(p[t] == x);
            }
        }
        assert forall|a: int, b: int| 0 <= a < p.len() && 0 <= b < p.len() && a != b implies p[a] != p[b] by {
            if a < p.len() - 1 && b < p.len() - 1 {
                assert(pp[a] == p[a] && pp[b] == p[b]);
            } else if a < p.len() - 1 {
                assert(pp.contains(p[a]));
            } else {
                assert(pp.contains(p[b]));
            }
        }
    }
}

proof fn lemma_path_split(d: Seq<Seq<i64>>, p: Seq<int>, t: int)
    requires
        0 <= t < p.len(),
    ensures
        path_cost(d, p) == path_cost(d, p.subrange(0, t + 1)) + path_cost(d, p.subrange(t, p.len() as int)),
    decreases p.len(),
{
    if t == p.len() - 1 {
        assert(p.subrange(0, t + 1) =~= p);
    } else {
        let q = p.drop_last();
        lemma_path_split(d, q, t);
        assert(q.subrange(0, t + 1) =~= p.subrange(0, t + 1));
        let r = p.subrange(t, p.len() as int);
        assert(r.drop_last() =~= q.subrange(t, q.len() as int));
        if r.len() > 1 {
            assert(r[r.len() - 2] == p[p.len() - 2]);
        }
    }
}

/// No path without repeated vertices, whose inner vertices all lie below
/// `k`, costs less than `through` says.
proof fn lemma_path_cost_nonneg(d: Seq<Seq<i64>>, n: nat, p: Seq<int>)
    requires
        forall|i: int, j: int| 0 <= i < n && 0 <= j < n ==> 0 <= #[trigger] d[i][j],
        forall|t: int| 0 <= t < p.len() ==> 0 <= #[trigger] p[t] < n,
    ensures
        path_cost(d, p) >= 0,
    decreases p.len(),
{
    if p.len() > 1 {
        let q = p.drop_last();
        assert forall|t: int| 0 <= t < q.len() implies 0 <= #[trigger] q[t] < n by {
            assert(q[t] == p[t]);
        }
        lemma_path_cost_nonneg(d, n, q);
        assert(0 <= d[p[p.len() - 2]][p.last()]);
    }
}

proof fn lemma_through_below_path(d: Seq<Seq<i64>>, n: nat, k: nat, p: Seq<int>)
    requires
        valid_matrix(d, n),
        forall|i: int, j: int| 0 <= i < n && 0 <= j < n ==> 0 <= #[trigger] d[i][j],
        forall|u: int| 0 <= u < n ==> #[trigger] d[u][u] == 0,
        k <= n,
        p.len() >= 1,
        p.no_duplicates(),
        forall|t: int| 0 <= t < p.len() ==> 0 <= #[trigger] p[t] < n,
        forall|t: int| 0 < t < p.len() - 1 ==> #[trigger] p[t] < k,
    ensures
        through(d, k, p[0], p.last()) <= path_cost(d, p),
    decreases k,
{
    let last = p.len() - 1;
    if k == 0 {
        if p.len() == 1 {
            assert(through(d, k, p[0], p.last()) == d[p[0]][p[0]]);
        }
        if p.len() == 2 {
            assert(p.drop_last().len() == 1);
            assert(path_cost(d, p.drop_last()) == 0);
            assert(path_cost(d, p) == d[p[0]][p[1]]);
        }
        if p.len() > 2 {
            assert(p[1] < 0);
        }
    } else {
        let m = k - 1;
        if exists|t: int| 0 < t < last && p[t] == m {
            let t = choose|t: int| 0 < t < last && p[t] == m;
            let p1 = p.subrange(0, t + 1);
            let p2 = p.subrange(t, p.len() as int);
            lemma_path_split(d, p, t);
            assert(p1[0] == p[0] && p1.last() == m && p2[0] == m && p2.last() == p.last());
            assert forall|a: int, b: int| 0 <= a < p1.len() && 0 <= b < p1.len() && a != b implies p1[a] != p1[b] by {
                assert(p1[a] == p[a] && p1[b] == p[b]);
            }
            assert forall|a: int, b: int| 0 <= a < p2.len() && 0 <= b < p2.len() && a != b implies p2[a] != p2[b] by {
                assert(p2[a] == p[t + a] && p2[b] == p[t + b]);
            }
            assert forall|x: int| 0 <= x < p1.len() implies 0 <= #[trigger] p1[x] < n by {
                assert(p1[x] == p[x]);
            }
            assert forall|x: int| 0 <= x < p2.len() implies 0 <= #[trigger] p2[x] < n by {
                assert(p2[x] == p[t + x]);
            }
            assert forall|x: int| 0 < x < p1.len() - 1 implies #[trigger] p1[x] < m by {
                assert(p1[x] == p[x]);
                assert(p[x] != p[t]);
            }
            assert forall|x: int| 0 < x < p2.len() - 1 implies #[trigger] p2[x] < m by {
                assert(p2[x] == p[t + x]);
                assert(p[t + x] != p[t]);
            }
            lemma_through_below_path(d, n, (k - 1) as nat, p1);
            lemma_through_below_path(d, n, (k - 1) as nat, p2);
            lemma_path_cost_nonneg(d, n, p1);
            lemma_path_cost_nonneg(d, n, p2);
            lemma_through_nonneg(d, n, k);
            lemma_through_nonneg(d, n, (k - 1) as nat);
        } else {
            assert forall|x: int| 0 < x < p.len() - 1 implies #[trigger] p[x] < m by {
                assert(p[x] != m);
            }
            lemma_through_below_path(d, n, (k - 1) as nat, p);
        }
    }
}

/// Two walks, the second leaving where the first ends, make one walk.
proof fn lemma_join(adj: Seq<Vec<dijkstra::Edge>>, i: int, m: int, j: int, w1: Seq<Step>, w2: Seq<Step>, c1: int, c2: int)
    requires
        dijkstra::reaches(adj, i, w1, m, c1),
        dijkstra::reaches(adj, m, w2, j, c2),
    ensures
        dijkstra::reaches(adj, i, w1 + w2, j, c1 + c2),
    decreases w2.len(),
{
    if w2.len() == 0 {
        assert(w1 + w2 =~= w1);
    } else {
        let pre = w2.drop_last();
        lemma_join(adj, i, m, dijkstra::walk_end(adj, m, pre), w1, pre, c1, dijkstra::walk_cost(adj, pre));
        assert((w1 + w2).drop_last() =~= w1 + pre);
    }
}

/// Every value of `through` below `INF` is what some walk costs.
proof fn lemma_through_walk(adj: Seq<Vec<dijkstra::Edge>>, d: Seq<Seq<i64>>, k: nat, i: int, j: int)
    requires
        valid_matrix(d, adj.len()),
        forall|x: int, y: int| 0 <= x < adj.len() && 0 <= y < adj.len() ==> 0 <= #[trigger] d[x][y],
        matrix_of(adj, d),
        k <= adj.len(),
        0 <= i < adj.len(),
        0 <= j < adj.len(),
        through(d, k, i, j) < INF,
    ensures
        exists|w: Seq<Step>| dijkstra::reaches(adj, i, w, j, through(d, k, i, j)),
    decreases k,
{
    if k == 0 {
        if i == j {
            assert(dijkstra::reaches(adj, i, Seq::<Step>::empty(), j, 0));
        } else {
            let jj = choose|jj: int| 0 <= jj < adj[i]@.len() && adj[i]@[jj].to == j && #[trigger] adj[i]@[jj].cost == d[i][j];
            let w = seq![(i, jj)];
            assert(w.drop_last() =~= Seq::<Step>::empty());
            assert(w.len() == 1 && w.last() == (i, jj));
            assert(dijkstra::is_walk(adj, i, Seq::<Step>::empty()));
            assert(dijkstra::walk_cost(adj, Seq::<Step>::empty()) == 0);
            assert(dijkstra::walk_end(adj, i, Seq::<Step>::empty()) == i);
            assert(dijkstra::walk_cost(adj, w) == adj[i]@[jj].cost);
            assert(dijkstra::is_walk(adj, i, w));
            assert(dijkstra::reaches(adj, i, w, j, through(d, k, i, j)));
        }
    } else {
        let m = k - 1;
        lemma_through_nonneg(d, adj.len(), (k - 1) as nat);
        let direct = through(d, (k - 1) as nat, i, j);
        let a = through(d, (k - 1) as nat, i, m);
        let b = through(d, (k - 1) as nat, m, j);
        if a + b < direct {
            lemma_through_walk(adj, d, (k - 1) as nat, i, m);
            lemma_through_walk(adj, d, (k - 1) as nat, m, j);
            let w1 = choose|w: Seq<Step>| dijkstra::reaches(adj, i, w, m, a);
            let w2 = choose|w: Seq<Step>| dijkstra::reaches(adj, m, w, j, b);
            lemma_join(adj, i, m, j, w1, w2, a, b);
        } else {
            lemma_through_walk(adj, d, (k - 1) as nat, i, j);
        }
    }
}

/// On a graph with non-negative costs, given both as an adjacency list and
/// as a distance matrix, the row of `start` that Floyd-Warshall leaves is
/// Dijkstra's result from `start` wherever Dijkstra reaches a vertex, when
/// every simple path from `start` costs less than `INF`; and
/// where `usize` holds `INF` the two agree on which vertices are unreached.
pub proof fn law_row_matches_dijkstra(
    adj: Seq<Vec<dijkstra::Edge>>,
    d0: Seq<Seq<i64>>,
    start: int,
    dd: Seq<usize>,
    d: Seq<Seq<i64>>,
)
    requires
        0 <= start < adj.len(),
        dijkstra::edges_in_range(adj),
        forall|w: Seq<Step>|
            dijkstra::is_walk(adj, start, w) && dijkstra::is_simple(adj, start, w) ==> #[trigger] dijkstra::walk_cost(
                adj,
                w,
            ) < INF,
        valid_matrix(d0, adj.len()),
        forall|x: int, y: int| 0 <= x < adj.len() && 0 <= y < adj.len() ==> 0 <= #[trigger] d0[x][y],
        matrix_of(adj, d0),
        dd.len() == adj.len(),
        dijkstra::shortest_dists(adj, start, dd),
        forall|i: int, j: int|
            0 <= i < adj.len() && 0 <= j < adj.len() ==> #[trigger] d[i][j] == through(d0, adj.len(), i, j),
    ensures
        forall|v: int| 0 <= v < adj.len() && #[trigger] dd[v] < usize::MAX ==> d[start][v] == dd[v],
        usize::MAX > INF ==> forall|v: int| 0 <= v < adj.len() ==> (#[trigger] dd[v] == usize::MAX <==> d[start][v] == INF),
{
    let n = adj.len();
    lemma_through_nonneg(d0, n, n);
    assert forall|v: int| 0 <= v < n implies (usize::MAX > INF ==> (#[trigger] dd[v] == usize::MAX <==> d[start][v] == INF))
        && (dd[v] < usize::MAX ==> d[start][v] == dd[v]) by {
        let f = through(d0, n, start, v);
        assert(d[start][v] == f);
        if f < INF {
            lemma_through_walk(adj, d0, n, start, v);
            let w = choose|w: Seq<Step>| dijkstra::reaches(adj, start, w, v, f);
            assert(dd[v] <= dijkstra::walk_cost(adj, w));
        }
        if dd[v] < usize::MAX {
            let wd = choose|w: Seq<Step>|
                dijkstra::reaches(adj, start, w, v, #[trigger] dd[v] as int) && dijkstra::is_simple(adj, start, w)
                    && w.len() < adj.len();
            lemma_path_of(adj, d0, start, wd);
            let p = path_of(adj, start, wd);
            lemma_through_below_path(d0, n, n, p);
            assert(dd[v] < INF);
        }
    }
}

} // verus!
