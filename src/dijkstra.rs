//! Single-source shortest paths over an adjacency list with non-negative
//! costs, driven by a priority queue that drops stale entries.
use vstd::prelude::*;
use vstd::set_lib::{lemma_int_range, lemma_len_subset, set_int_range};

verus! {

/// Why a search refused its arguments.
#[derive(Clone, Copy, Debug, PartialEq, Eq, Structural)]
pub enum PathError {
    /// The start is not a vertex, or an edge leads outside the graph.
    InvalidArgument,
}

/// An edge of an adjacency list: where it goes and what it costs.
#[derive(Clone, Copy, Debug, PartialEq, Eq)]
pub struct Edge {
    pub to: usize,
    pub cost: usize,
}

/// Every edge leads to a vertex of the graph.
pub open spec fn edges_in_range(adj: Seq<Vec<Edge>>) -> bool {
    forall|u: int, i: int| 0 <= u < adj.len() && 0 <= i < adj[u]@.len() ==> #[trigger] adj[u]@[i].to < adj.len()
}

/// A step of a walk: the vertex it leaves and the index of the edge taken
/// from that vertex's list.
pub type Step = (int, int);

/// Where a walk from `start` ends.
pub open spec fn walk_end(adj: Seq<Vec<Edge>>, start: int, w: Seq<Step>) -> int {
    if w.len() == 0 {
        start
    } else {
        adj[w.last().0]@[w.last().1].to as int
    }
}

/// Each step of `w` leaves the vertex that the walk from `start` has reached.
pub open spec fn is_walk(adj: Seq<Vec<Edge>>, start: int, w: Seq<Step>) -> bool
    decreases w.len(),
{
    if w.len() == 0 {
        true
    } else {
        let (u, i) = w.last();
        &&& is_walk(adj, start, w.drop_last())
        &&& walk_end(adj, start, w.drop_last()) == u
        &&& 0 <= u < adj.len()
        &&& 0 <= i < adj[u]@.len()
    }
}

/// The sum of the costs of the edges that `w` takes.
pub open spec fn walk_cost(adj: Seq<Vec<Edge>>, w: Seq<Step>) -> int
    decreases w.len(),
{
    if w.len() == 0 {
        0
    } else {
        walk_cost(adj, w.drop_last()) + adj[w.last().0]@[w.last().1].cost
    }
}

/// No edge from a reached vertex leads anywhere more cheaply than `dist` says.
pub open spec fn relaxed(adj: Seq<Vec<Edge>>, dist: Seq<usize>) -> bool {
    forall|u: int, i: int|
        0 <= u < adj.len() && 0 <= i < adj[u]@.len() && dist[u] < usize::MAX ==> dist[#[trigger] adj[u]@[i].to as int]
            <= dist[u] + adj[u]@[i].cost
}

/// Under a relaxed `dist` that is zero at `start`, no walk from `start` costs
/// less than `dist` at its end.
pub proof fn lemma_walk_bound(adj: Seq<Vec<Edge>>, start: int, dist: Seq<usize>, w: Seq<Step>)
    requires
        dist.len() == adj.len(),
        0 <= start < adj.len(),
        dist[start] == 0,
        edges_in_range(adj),
        relaxed(adj, dist),
        is_walk(adj, start, w),
    ensures
        0 <= walk_end(adj, start, w) < adj.len(),
        dist[walk_end(adj, start, w)] <= walk_cost(adj, w),
    decreases w.len(),
{
    if w.len() > 0 {
        let pre = w.drop_last();
        lemma_walk_bound(adj, start, dist, pre);
        let (u, i) = w.last();
        assert(adj[u]@[i].to < adj.len());
    }
}

/// Takes out an entry with the least cost, the least vertex among equal costs.
fn pop_min(heap: &mut Vec<(usize, usize)>) -> (popped: Option<(usize, usize)>)
    ensures
        old(heap)@.len() == 0 ==> popped.is_none() && final(heap)@ == old(heap)@,
        old(heap)@.len() > 0 ==> popped.is_some() && exists|k: int|
            0 <= k < old(heap)@.len() && old(heap)@[k] == popped.unwrap() && final(heap)@
                == old(heap)@.remove(k),
        popped.is_some() ==> forall|k: int|
            0 <= k < old(heap)@.len() ==> popped.unwrap().0 < (#[trigger] old(heap)@[k]).0 || (
            popped.unwrap().0 == old(heap)@[k].0 && popped.unwrap().1 <= old(heap)@[k].1),
{
    if heap.len() == 0 {
        return None;
    }
    let mut best: usize = 0;
    let mut k: usize = 1;
    while k < heap.len()
        invariant
            0 < heap@.len(),
            best < heap@.len(),
            1 <= k <= heap@.len(),
            heap@ == old(heap)@,
            forall|m: int|
                0 <= m < k ==> heap@[best as int].0 < (#[trigger] heap@[m]).0 || (heap@[best as int].0
                    == heap@[m].0 && heap@[best as int].1 <= heap@[m].1),
        decreases heap@.len() - k,
    {
        let (c, p) = heap[k];
        if c < heap[best].0 || (c == heap[best].0 && p < heap[best].1) {
            best = k;
        }
        k = k + 1;
    }
    Some(heap.remove(best))
}

/// The vertices that `w` passes through, `start` included.
pub open spec fn visited(adj: Seq<Vec<Edge>>, start: int, w: Seq<Step>) -> Set<int>
    decreases w.len(),
{
    if w.len() == 0 {
        set![start]
    } else {
        visited(adj, start, w.drop_last()).insert(walk_end(adj, start, w))
    }
}

/// `w` never comes back to a vertex it has passed through.
pub open spec fn is_simple(adj: Seq<Vec<Edge>>, start: int, w: Seq<Step>) -> bool
    decreases w.len(),
{
    if w.len() == 0 {
        true
    } else {
        is_simple(adj, start, w.drop_last()) && !visited(adj, start, w.drop_last()).contains(
            walk_end(adj, start, w),
        )
    }
}

/// At every vertex that `w` reaches, `dist` is at most what the walk has
/// cost so far.
spec fn tight(adj: Seq<Vec<Edge>>, start: int, dist: Seq<usize>, w: Seq<Step>) -> bool
    decreases w.len(),
{
    &&& dist[walk_end(adj, start, w)] <= walk_cost(adj, w)
    &&& (w.len() == 0 || tight(adj, start, dist, w.drop_last()))
}

proof fn lemma_tight_visited(adj: Seq<Vec<Edge>>, start: int, dist: Seq<usize>, w: Seq<Step>, x: int)
    requires
        tight(adj, start, dist, w),
        visited(adj, start, w).contains(x),
    ensures
        dist[x] <= walk_cost(adj, w),
    decreases w.len(),
{
    if w.len() > 0 && x != walk_end(adj, start, w) {
        lemma_tight_visited(adj, start, dist, w.drop_last(), x);
    }
}

proof fn lemma_tight_lower(adj: Seq<Vec<Edge>>, start: int, d1: Seq<usize>, d2: Seq<usize>, w: Seq<Step>)
    requires
        tight(adj, start, d1, w),
        d1.len() == d2.len(),
        forall|x: int| 0 <= x < d1.len() ==> #[trigger] d2[x] <= d1[x],
        0 <= start < d1.len(),
        edges_in_range(adj),
        d1.len() == adj.len(),
        is_walk(adj, start, w),
    ensures
        tight(adj, start, d2, w),
    decreases w.len(),
{
    if w.len() > 0 {
        lemma_tight_lower(adj, start, d1, d2, w.drop_last());
        assert(adj[w.last().0]@[w.last().1].to < adj.len());
    }
}

/// A simple walk passes through no more vertices than the graph has.
pub proof fn lemma_simple_short(adj: Seq<Vec<Edge>>, start: int, w: Seq<Step>)
    requires
        0 <= start < adj.len(),
        edges_in_range(adj),
        is_walk(adj, start, w),
        is_simple(adj, start, w),
    ensures
        w.len() < adj.len(),
{
    lemma_visited_count(adj, start, w);
    lemma_int_range(0, adj.len() as int);
    lemma_len_subset(visited(adj, start, w), set_int_range(0, adj.len() as int));
}

proof fn lemma_visited_count(adj: Seq<Vec<Edge>>, start: int, w: Seq<Step>)
    requires
        0 <= start < adj.len(),
        edges_in_range(adj),
        is_walk(adj, start, w),
        is_simple(adj, start, w),
    ensures
        visited(adj, start, w).finite(),
        visited(adj, start, w).len() == w.len() + 1,
        visited(adj, start, w).subset_of(set_int_range(0, adj.len() as int)),
    decreases w.len(),
{
    if w.len() > 0 {
        lemma_visited_count(adj, start, w.drop_last());
        assert(adj[w.last().0]@[w.last().1].to < adj.len());
    }
}

/// The sum of the entries.
spec fn total(s: Seq<usize>) -> nat
    decreases s.len(),
{
    if s.len() == 0 {
        0
    } else {
        total(s.drop_last()) + s.last() as nat
    }
}

proof fn lemma_total_update(s: Seq<usize>, i: int, v: usize)
    requires
        0 <= i < s.len(),
    ensures
        total(s.update(i, v)) == total(s) - s[i] + v,
    decreases s.len(),
{
    if i < s.len() - 1 {
        lemma_total_update(s.drop_last(), i, v);
        assert(s.update(i, v).drop_last() =~= s.drop_last().update(i, v));
    } else {
        assert(s.update(i, v).drop_last() =~= s.drop_last());
    }
}

/// Removing one entry keeps every value that it was not.
pub(crate) proof fn lemma_remove_keeps<A>(s: Seq<A>, k: int, x: A)
    requires
        0 <= k < s.len(),
        s.contains(x),
        x != s[k],
    ensures
        s.remove(k).contains(x),
{
    let j = choose|j: int| 0 <= j < s.len() && s[j] == x;
    if j < k {
        assert(s.remove(k)[j] == x);
    } else {
        assert(s.remove(k)[j - 1] == x);
    }
}

/// `u`'s current distance waits in the queue, or every edge from `u` has
/// been relaxed against it.
pub open spec fn queued_or_relaxed(adj: Seq<Vec<Edge>>, dist: Seq<usize>, heap: Seq<(usize, usize)>, u: int) -> bool {
    ||| dist[u] == usize::MAX
    ||| heap.contains((dist[u], u as usize))
    ||| forall|i: int| 0 <= i < adj[u]@.len() ==> dist[#[trigger] adj[u]@[i].to as int] <= dist[u] + adj[u]@[i].cost
}

/// `walk` leads from `start` to `v` at cost `c`.
pub open spec fn reaches(adj: Seq<Vec<Edge>>, start: int, walk: Seq<Step>, v: int, c: int) -> bool {
    &&& is_walk(adj, start, walk)
    &&& walk_end(adj, start, walk) == v
    &&& walk_cost(adj, walk) == c
}

/// Each entry below `usize::MAX` is what a simple walk, of fewer edges than
/// there are vertices, costs, and no walk from `start` costs less than the entry at its
/// end.
pub open spec fn shortest_dists(adj: Seq<Vec<Edge>>, start: int, dist: Seq<usize>) -> bool {
    &&& forall|v: int|
        0 <= v < dist.len() && dist[v] < usize::MAX ==> exists|w: Seq<Step>|
            reaches(adj, start, w, v, #[trigger] dist[v] as int) && is_simple(adj, start, w) && w.len() < adj.len()
    &&& forall|w: Seq<Step>|
        is_walk(adj, start, w) ==> dist[walk_end(adj, start, w)] <= #[trigger] walk_cost(adj, w)
}

/// The cost of the cheapest walk from `start` to each vertex, or `usize::MAX`
/// where no walk costs less.
pub fn shortest_path(adj_list: &Vec<Vec<Edge>>, start: usize) -> (dist: Vec<usize>)
    requires
        start < adj_list@.len(),
        edges_in_range(adj_list@),
    ensures
        dist@.len() == adj_list@.len(),
        dist@[start as int] == 0,
        shortest_dists(adj_list@, start as int, dist@),
{
    let ghost adj = adj_list@;
    let n = adj_list.len();
    let mut dist: Vec<usize> = Vec::new();
    let mut v: usize = 0;
    while v < n
        invariant
            v <= n,
            dist@.len() == v,
            forall|x: int| 0 <= x < v ==> dist@[x] == usize::MAX,
        decreases n - v,
    {
        dist.push(usize::MAX);
        v = v + 1;
    }
    dist.set(start, 0);
    let mut heap: Vec<(usize, usize)> = Vec::new();
    heap.push((0, start));
    let ghost mut walks: Seq<Seq<Step>> = Seq::new(n as nat, |x: int| Seq::empty());
    proof {
        assert(heap@[0] == (0usize, start));
        assert forall|u: int| 0 <= u < n implies #[trigger] queued_or_relaxed(adj, dist@, heap@, u) by {
            if u == start {
                assert(heap@.contains((dist@[u], u as usize)));
            }
        }
    }
    while heap.len() > 0
        invariant
            adj == adj_list@,
            n == adj.len(),
            start < n,
            edges_in_range(adj),
            dist@.len() == n,
            dist@[start as int] == 0,
            walks.len() == n,
            forall|k: int|
                0 <= k < heap@.len() ==> (#[trigger] heap@[k]).1 < n && heap@[k].0 < usize::MAX
                    && dist@[heap@[k].1 as int] <= heap@[k].0,
            forall|x: int|
                0 <= x < n && dist@[x] < usize::MAX ==> reaches(adj, start as int, #[trigger] walks[x], x, dist@[x] as int)
                    && tight(adj, start as int, dist@, walks[x]) && is_simple(adj, start as int, walks[x]),
            forall|u: int| 0 <= u < n ==> #[trigger] queued_or_relaxed(adj, dist@, heap@, u),
        decreases total(dist@), heap@.len(),
    {
        let ghost heap0 = heap@;
        let ghost dist0 = dist@;
        let popped = pop_min(&mut heap);
        let (cost, position) = match popped {
            Some(e) => e,
            None => (0, 0),
        };
        let ghost k0 = choose|k: int| 0 <= k < heap0.len() && heap0[k] == (cost, position) && heap@ == heap0.remove(k);
        proof {
            assert(heap0[k0] == (cost, position));
            assert forall|u: int| 0 <= u < n implies #[trigger] queued_or_relaxed(adj, dist@, heap@, u) || u == position by {
                assert(queued_or_relaxed(adj, dist0, heap0, u));
                if u != position && heap0.contains((dist@[u], u as usize)) {
                    lemma_remove_keeps(heap0, k0, (dist@[u], u as usize));
                }
            }
            if cost != dist@[position as int] {
                assert(queued_or_relaxed(adj, dist0, heap0, position as int));
                if heap0.contains((dist@[position as int], position)) {
                    lemma_remove_keeps(heap0, k0, (dist@[position as int], position));
                }
            }
        }
        if cost <= dist[position] {
            let ghost wu = walks[position as int];
            let ghost len0 = heap@.len();
            let edges = &adj_list[position];
            let mut t: usize = 0;
            while t < edges.len()
                invariant
                    adj == adj_list@,
                    n == adj.len(),
                    start < n,
                    position < n,
                    edges == adj[position as int],
                    t <= edges@.len(),
                    edges_in_range(adj),
                    dist@.len() == n,
                    dist@[start as int] == 0,
                    walks.len() == n,
                    cost < usize::MAX,
                    reaches(adj, start as int, wu, position as int, cost as int),
                    cost <= dist@[position as int] || heap@.contains((dist@[position as int], position)),
                    forall|i: int| 0 <= i < t ==> dist@[#[trigger] adj[position as int]@[i].to as int] <= cost + adj[position as int]@[i].cost,
                    forall|k: int|
                        0 <= k < heap@.len() ==> (#[trigger] heap@[k]).1 < n && heap@[k].0 < usize::MAX
                            && dist@[heap@[k].1 as int] <= heap@[k].0,
                    forall|x: int|
                        0 <= x < n && dist@[x] < usize::MAX ==> reaches(adj, start as int, #[trigger] walks[x], x, dist@[x] as int)
                            && tight(adj, start as int, dist@, walks[x]) && is_simple(adj, start as int, walks[x]),
                    tight(adj, start as int, dist@, wu),
                    is_simple(adj, start as int, wu),
                    forall|u: int| 0 <= u < n ==> #[trigger] queued_or_relaxed(adj, dist@, heap@, u) || u == position,
                    total(dist@) <= total(dist0),
                    total(dist@) < total(dist0) || heap@.len() == len0,
                    len0 < heap0.len(),
                decreases edges@.len() - t,
            {
                let e = edges[t];
                proof {
                    assert(e.to < n);
                }
                match cost.checked_add(e.cost) {
                    Some(next_cost) => {
                        if next_cost < dist[e.to] {
                            let ghost before = dist@;
                            let ghost heap_before = heap@;
                            proof {
                                lemma_total_update(dist@, e.to as int, next_cost);
                            }
                            dist.set(e.to, next_cost);
                            heap.push((next_cost, e.to));
                            proof {
                                let step: Step = (position as int, t as int);
                                let w = wu.push(step);
                                assert(w.drop_last() =~= wu);
                                if visited(adj, start as int, wu).contains(e.to as int) {
                                    lemma_tight_visited(adj, start as int, before, wu, e.to as int);
                                }
                                assert forall|x: int| 0 <= x < before.len() implies #[trigger] dist@[x] <= before[x] by {}
                                lemma_tight_lower(adj, start as int, before, dist@, wu);
                                assert forall|x: int|
                                    0 <= x < n && dist@[x] < usize::MAX && x != e.to implies #[trigger] tight(
                                        adj,
                                        start as int,
                                        dist@,
                                        walks[x],
                                    ) by {
                                    lemma_tight_lower(adj, start as int, before, dist@, walks[x]);
                                }
                                walks = walks.update(e.to as int, w);
                                assert(heap@[heap@.len() - 1] == (next_cost, e.to));
                                assert forall|u: int| 0 <= u < n implies #[trigger] queued_or_relaxed(adj, dist@, heap@, u) || u == position by {
                                    if u != e.to {
                                        assert(queued_or_relaxed(adj, before, heap_before, u) || u == position);
                                        if heap_before.contains((dist@[u], u as usize)) {
                                            let j = choose|j: int| 0 <= j < heap_before.len() && heap_before[j] == (dist@[u], u as usize);
                                            assert(heap@[j] == heap_before[j]);
                                        }
                                    }
                                }
                                if e.to == position {
                                    assert(heap@.contains((dist@[position as int], position)));
                                } else if heap_before.contains((dist@[position as int], position)) {
                                    let j = choose|j: int| 0 <= j < heap_before.len() && heap_before[j] == (dist@[position as int], position);
                                    assert(heap@[j] == heap_before[j]);
                                }
                            }
                        }
                    },
                    None => {},
                }
                t = t + 1;
            }
            proof {
                assert(queued_or_relaxed(adj, dist@, heap@, position as int));
            }
        }
        proof {
            assert(total(dist@) < total(dist0) || (total(dist@) == total(dist0) && heap@.len() < heap0.len()));
        }
    }
    proof {
        assert forall|w: Seq<Step>| is_walk(adj, start as int, w) implies dist@[walk_end(adj, start as int, w)]
            <= #[trigger] walk_cost(adj, w) by {
            assert forall|u: int, i: int|
                0 <= u < adj.len() && 0 <= i < adj[u]@.len() && dist@[u] < usize::MAX implies dist@[#[trigger] adj[u]@[i].to as int]
                    <= dist@[u] + adj[u]@[i].cost by {
                assert(queued_or_relaxed(adj, dist@, heap@, u));
            }
            lemma_walk_bound(adj, start as int, dist@, w);
        }
        assert forall|x: int| 0 <= x < n && dist@[x] < usize::MAX implies exists|w: Seq<Step>|
            reaches(adj, start as int, w, x, #[trigger] dist@[x] as int) && is_simple(adj, start as int, w) && w.len() < adj.len() by {
            assert(reaches(adj, start as int, walks[x], x, dist@[x] as int));
            lemma_simple_short(adj, start as int, walks[x]);
        }
    }
    dist
}

/// Whether every edge leads to a vertex of the graph.
fn all_edges_in_range(adj_list: &Vec<Vec<Edge>>) -> (ok: bool)
    ensures
        ok == edges_in_range(adj_list@),
{
    let n = adj_list.len();
    let mut u: usize = 0;
    while u < n
        invariant
            n == adj_list@.len(),
            u <= n,
            forall|x: int, i: int| 0 <= x < u && 0 <= i < adj_list@[x]@.len() ==> #[trigger] adj_list@[x]@[i].to < n,
        decreases n - u,
    {
        let edges = &adj_list[u];
        let mut i: usize = 0;
        while i < edges.len()
            invariant
                n == adj_list@.len(),
                u < n,
                edges == adj_list@[u as int],
                i <= edges@.len(),
                forall|x: int, j: int| 0 <= x < u && 0 <= j < adj_list@[x]@.len() ==> #[trigger] adj_list@[x]@[j].to < n,
                forall|j: int| 0 <= j < i ==> #[trigger] adj_list@[u as int]@[j].to < n,
            decreases edges@.len() - i,
        {
            if edges[i].to >= n {
                proof {
                    assert(adj_list@[u as int]@[i as int].to >= n);
                }
                return false;
            }
            i = i + 1;
        }
        u = u + 1;
    }
    true
}

/// Like `shortest_path`, but refuses a start that is not a vertex and an edge
/// that leads outside the graph.
pub fn try_shortest_path(adj_list: &Vec<Vec<Edge>>, start: usize) -> (res: Result<Vec<usize>, PathError>)
    ensures
        res is Err <==> start >= adj_list@.len() || !edges_in_range(adj_list@),
        res is Err ==> res == Err::<Vec<usize>, PathError>(PathError::InvalidArgument),
        res is Ok ==> {
            let dist = res->Ok_0;
            &&& dist@.len() == adj_list@.len()
            &&& dist@[start as int] == 0
            &&& shortest_dists(adj_list@, start as int, dist@)
        },
{
    if start >= adj_list.len() || !all_edges_in_range(adj_list) {
        return Err(PathError::InvalidArgument);
    }
    Ok(shortest_path(adj_list, start))
}

} // verus!
