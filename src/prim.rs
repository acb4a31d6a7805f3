//! The cost of a minimum spanning tree grown from a start vertex over an
//! adjacency list, with a priority queue that drops entries for vertices
//! already in the tree.
use crate::dijkstra::lemma_remove_keeps;
use vstd::prelude::*;

verus! {

/// Why a computation refused its arguments.
#[derive(Clone, Copy, Debug, PartialEq, Eq, Structural)]
pub enum TreeError {
    /// The start is not a vertex, an edge leads outside the graph or has a
    /// negative cost, or the costs together do not fit in an `i64`.
    InvalidArgument,
}

/// An edge of an adjacency list: where it goes and what it costs.
#[derive(Clone, Copy, Debug, PartialEq, Eq)]
pub struct Edge {
    pub to: usize,
    pub cost: i64,
}

/// Every edge leads to a vertex of the graph and costs at least 0, and the
/// costs of all edges together fit in an `i64`.
pub open spec fn edges_ok(adj: Seq<Vec<Edge>>) -> bool {
    &&& forall|u: int, i: int|
        0 <= u < adj.len() && 0 <= i < adj[u]@.len() ==> {
            &&& (#[trigger] adj[u]@[i]).to < adj.len()
            &&& 0 <= adj[u]@[i].cost
        }
    &&& total_cost(adj) <= i64::MAX
}

/// The sum of the costs in one edge list.
pub open spec fn list_cost(l: Seq<Edge>) -> int
    decreases l.len(),
{
    if l.len() == 0 {
        0
    } else {
        list_cost(l.drop_last()) + l.last().cost
    }
}

/// The sum of the costs of all edges.
pub open spec fn total_cost(adj: Seq<Vec<Edge>>) -> int
    decreases adj.len(),
{
    if adj.len() == 0 {
        0
    } else {
        total_cost(adj.drop_last()) + list_cost(adj.last()@)
    }
}

/// The sum of the costs of the edges of vertex `u` whose steps lie in `taken`.
spec fn cost_in(l: Seq<Edge>, u: int, taken: Set<Step>) -> int
    decreases l.len(),
{
    if l.len() == 0 {
        0
    } else {
        cost_in(l.drop_last(), u, taken) + if taken.contains((u, l.len() - 1)) {
            l.last().cost as int
        } else {
            0
        }
    }
}

/// The sum of the costs of the edges whose steps lie in `taken`.
spec fn graph_cost_in(adj: Seq<Vec<Edge>>, taken: Set<Step>) -> int
    decreases adj.len(),
{
    if adj.len() == 0 {
        0
    } else {
        graph_cost_in(adj.drop_last(), taken) + cost_in(adj.last()@, adj.len() - 1, taken)
    }
}

proof fn lemma_cost_in_bound(l: Seq<Edge>, u: int, taken: Set<Step>)
    requires
        forall|i: int| 0 <= i < l.len() ==> 0 <= #[trigger] l[i].cost,
    ensures
        0 <= cost_in(l, u, taken) <= list_cost(l),
    decreases l.len(),
{
    if l.len() > 0 {
        lemma_cost_in_bound(l.drop_last(), u, taken);
        assert(0 <= l[l.len() - 1].cost);
    }
}

proof fn lemma_graph_cost_in_bound(adj: Seq<Vec<Edge>>, taken: Set<Step>)
    requires
        forall|u: int, i: int| 0 <= u < adj.len() && 0 <= i < adj[u]@.len() ==> 0 <= #[trigger] adj[u]@[i].cost,
    ensures
        0 <= graph_cost_in(adj, taken) <= total_cost(adj),
    decreases adj.len(),
{
    if adj.len() > 0 {
        let last = adj.len() - 1;
        assert forall|u: int, i: int| 0 <= u < adj.drop_last().len() && 0 <= i < adj.drop_last()[u]@.len() implies 0 <= #[trigger] adj.drop_last()[u]@[i].cost by {
            assert(adj.drop_last()[u] == adj[u]);
        }
        lemma_graph_cost_in_bound(adj.drop_last(), taken);
        assert forall|i: int| 0 <= i < adj[last]@.len() implies 0 <= #[trigger] adj[last]@[i].cost by {}
        lemma_cost_in_bound(adj[last]@, last, taken);
    }
}

proof fn lemma_graph_cost_in_empty(adj: Seq<Vec<Edge>>)
    ensures
        graph_cost_in(adj, Set::empty()) == 0,
    decreases adj.len(),
{
    if adj.len() > 0 {
        lemma_graph_cost_in_empty(adj.drop_last());
        lemma_cost_in_empty(adj.last()@, adj.len() - 1);
    }
}

proof fn lemma_cost_in_empty(l: Seq<Edge>, u: int)
    ensures
        cost_in(l, u, Set::empty()) == 0,
    decreases l.len(),
{
    if l.len() > 0 {
        lemma_cost_in_empty(l.drop_last(), u);
    }
}

proof fn lemma_cost_in_other(l: Seq<Edge>, u: int, taken: Set<Step>, s: Step)
    requires
        s.0 != u || s.1 >= l.len() || s.1 < 0,
    ensures
        cost_in(l, u, taken.insert(s)) == cost_in(l, u, taken),
    decreases l.len(),
{
    if l.len() > 0 {
        lemma_cost_in_other(l.drop_last(), u, taken, s);
    }
}

proof fn lemma_cost_in_insert(l: Seq<Edge>, u: int, taken: Set<Step>, i0: int)
    requires
        0 <= i0 < l.len(),
        !taken.contains((u, i0)),
    ensures
        cost_in(l, u, taken.insert((u, i0))) == cost_in(l, u, taken) + l[i0].cost,
    decreases l.len(),
{
    if i0 == l.len() - 1 {
        lemma_cost_in_other(l.drop_last(), u, taken, (u, i0));
    } else {
        lemma_cost_in_insert(l.drop_last(), u, taken, i0);
    }
}

proof fn lemma_graph_cost_in_other(adj: Seq<Vec<Edge>>, taken: Set<Step>, s: Step)
    requires
        s.0 >= adj.len(),
    ensures
        graph_cost_in(adj, taken.insert(s)) == graph_cost_in(adj, taken),
    decreases adj.len(),
{
    if adj.len() > 0 {
        lemma_graph_cost_in_other(adj.drop_last(), taken, s);
        lemma_cost_in_other(adj.last()@, adj.len() - 1, taken, s);
    }
}

proof fn lemma_graph_cost_in_insert(adj: Seq<Vec<Edge>>, taken: Set<Step>, s: Step)
    requires
        0 <= s.0 < adj.len(),
        0 <= s.1 < adj[s.0]@.len(),
        !taken.contains(s),
    ensures
        graph_cost_in(adj, taken.insert(s)) == graph_cost_in(adj, taken) + adj[s.0]@[s.1].cost,
    decreases adj.len(),
{
    let last = adj.len() - 1;
    if s.0 == last {
        lemma_graph_cost_in_other(adj.drop_last(), taken, s);
        lemma_cost_in_insert(adj[last]@, last, taken, s.1);
    } else {
        assert(adj.drop_last()[s.0] == adj[s.0]);
        lemma_graph_cost_in_insert(adj.drop_last(), taken, s);
        lemma_cost_in_other(adj[last]@, last, taken, s);
    }
}

/// A tree edge: the vertex it leaves and the index of the edge in that
/// vertex's list.
pub type Step = (int, int);

/// The vertex that a tree edge reaches.
pub open spec fn target(adj: Seq<Vec<Edge>>, s: Step) -> int {
    adj[s.0]@[s.1].to as int
}

/// `start` and every vertex that an edge of `tree` reaches.
pub open spec fn covered(adj: Seq<Vec<Edge>>, start: int, tree: Seq<Step>) -> Set<int>
    decreases tree.len(),
{
    if tree.len() == 0 {
        set![start]
    } else {
        covered(adj, start, tree.drop_last()).insert(target(adj, tree.last()))
    }
}

/// Each edge of `tree` leaves a vertex covered by the edges before it and
/// reaches one they do not cover: the edges form a tree around `start`.
pub open spec fn grows(adj: Seq<Vec<Edge>>, start: int, tree: Seq<Step>) -> bool
    decreases tree.len(),
{
    if tree.len() == 0 {
        true
    } else {
        let s = tree.last();
        let before = covered(adj, start, tree.drop_last());
        &&& grows(adj, start, tree.drop_last())
        &&& 0 <= s.0 < adj.len()
        &&& 0 <= s.1 < adj[s.0]@.len()
        &&& before.contains(s.0)
        &&& !before.contains(target(adj, s))
    }
}

/// Each edge of `tree` costs no more than any edge that leaves the vertices
/// covered by the edges before it: every step takes a cheapest edge across
/// the cut.
pub open spec fn greedy(adj: Seq<Vec<Edge>>, start: int, tree: Seq<Step>) -> bool
    decreases tree.len(),
{
    if tree.len() == 0 {
        true
    } else {
        let s = tree.last();
        let before = covered(adj, start, tree.drop_last());
        &&& greedy(adj, start, tree.drop_last())
        &&& forall|u: int, i: int|
            before.contains(u) && 0 <= i < adj[u]@.len() && !before.contains(adj[u]@[i].to as int) ==> adj[s.0]@[s.1].cost
                <= #[trigger] adj[u]@[i].cost
    }
}

/// The sum of the costs of the edges of `tree`.
pub open spec fn tree_cost(adj: Seq<Vec<Edge>>, tree: Seq<Step>) -> int
    decreases tree.len(),
{
    if tree.len() == 0 {
        0
    } else {
        tree_cost(adj, tree.drop_last()) + adj[tree.last().0]@[tree.last().1].cost
    }
}

/// No edge leaves the vertices that `tree` covers: they make up all that
/// `start` reaches.
pub open spec fn closed(adj: Seq<Vec<Edge>>, start: int, tree: Seq<Step>) -> bool {
    forall|u: int, i: int|
        covered(adj, start, tree).contains(u) && 0 <= i < adj[u]@.len() ==> covered(adj, start, tree).contains(
            #[trigger] adj[u]@[i].to as int,
        )
}

/// The number of entries that are `false`.
pub open spec fn unused_count(s: Seq<bool>) -> nat
    decreases s.len(),
{
    if s.len() == 0 {
        0
    } else {
        unused_count(s.drop_last()) + if s.last() {
            0nat
        } else {
            1nat
        }
    }
}

proof fn lemma_unused_mark(s: Seq<bool>, i: int)
    requires
        0 <= i < s.len(),
        !s[i],
    ensures
        unused_count(s.update(i, true)) + 1 == unused_count(s),
    decreases s.len(),
{
    if i < s.len() - 1 {
        lemma_unused_mark(s.drop_last(), i);
        assert(s.update(i, true).drop_last() =~= s.drop_last().update(i, true));
    } else {
        assert(s.update(i, true).drop_last() =~= s.drop_last());
    }
}

/// Takes out an entry with the least cost, the least vertex among equal costs.
fn pop_min(heap: &mut Vec<(i64, usize)>) -> (popped: Option<(i64, usize)>)
    ensures
        old(heap)@.len() == 0 ==> popped.is_none() && final(heap)@ == old(heap)@,
        old(heap)@.len() > 0 ==> popped.is_some() && exists|k: int|
            0 <= k < old(heap)@.len() && old(heap)@[k] == popped.unwrap() && final(heap)@
                == old(heap)@.remove(k),
        popped.is_some() ==> forall|k: int|
            0 <= k < old(heap)@.len() ==> popped.unwrap().0 < (#[trigger] old(heap)@[k]).0 || (
            popped.unwrap().0 == old(heap)@[k].0 && popped.unwrap().1 <= old(heap)@[k].1),
{
    if heap.len() == 0 {
        return None;
    }
    let mut best: usize = 0;
    let mut k: usize = 1;
    while k < heap.len()
        invariant
            0 < heap@.len(),
            best < heap@.len(),
            1 <= k <= heap@.len(),
            heap@ == old(heap)@,
            forall|m: int|
                0 <= m < k ==> heap@[best as int].0 < (#[trigger] heap@[m]).0 || (heap@[best as int].0
                    == heap@[m].0 && heap@[best as int].1 <= heap@[m].1),
        decreases heap@.len() - k,
    {
        let (c, p) = heap[k];
        if c < heap[best].0 || (c == heap[best].0 && p < heap[best].1) {
            best = k;
        }
        k = k + 1;
    }
    Some(heap.remove(best))
}

/// Entry `e` stands for an edge from `u`.
pub open spec fn entry_of(adj: Seq<Vec<Edge>>, u: int, e: (i64, usize)) -> bool {
    exists|i: int| 0 <= i < adj[u]@.len() && e == (#[trigger] adj[u]@[i].cost, adj[u]@[i].to)
}

/// Queues every edge of `position` that leads to a vertex not yet used.
fn push_edges(adj_list: &Vec<Vec<Edge>>, position: usize, used: &Vec<bool>, heap: &mut Vec<(i64, usize)>)
    requires
        position < adj_list@.len(),
        used@.len() == adj_list@.len(),
        edges_ok(adj_list@),
    ensures
        final(heap)@.len() >= old(heap)@.len(),
        forall|j: int| 0 <= j < old(heap)@.len() ==> #[trigger] final(heap)@[j] == old(heap)@[j],
        forall|j: int|
            old(heap)@.len() <= j < final(heap)@.len() ==> entry_of(adj_list@, position as int, #[trigger] final(heap)@[j]),
        forall|i: int|
            0 <= i < adj_list@[position as int]@.len() ==> used@[(#[trigger] adj_list@[position as int]@[i]).to as int]
                || final(heap)@.contains((adj_list@[position as int]@[i].cost, adj_list@[position as int]@[i].to)),
{
    let edges = &adj_list[position];
    let mut t: usize = 0;
    while t < edges.len()
        invariant
            edges == adj_list@[position as int],
            position < adj_list@.len(),
            used@.len() == adj_list@.len(),
            edges_ok(adj_list@),
            t <= edges@.len(),
            heap@.len() >= old(heap)@.len(),
            forall|j: int| 0 <= j < old(heap)@.len() ==> #[trigger] heap@[j] == old(heap)@[j],
            forall|j: int| old(heap)@.len() <= j < heap@.len() ==> entry_of(adj_list@, position as int, #[trigger] heap@[j]),
            forall|i: int|
                0 <= i < t ==> used@[(#[trigger] edges@[i]).to as int] || heap@.contains((edges@[i].cost, edges@[i].to)),
        decreases edges@.len() - t,
    {
        let e = edges[t];
        proof {
            assert(adj_list@[position as int]@[t as int] == e);
        }
        if !used[e.to] {
            let ghost before = heap@;
            heap.push((e.cost, e.to));
            proof {
                assert(heap@[heap@.len() - 1] == (e.cost, e.to));
                assert forall|i: int| 0 <= i < t implies used@[(#[trigger] edges@[i]).to as int] || heap@.contains(
                    (edges@[i].cost, edges@[i].to),
                ) by {
                    if !used@[edges@[i].to as int] {
                        let j = choose|j: int| 0 <= j < before.len() && before[j] == (edges@[i].cost, edges@[i].to);
                        assert(heap@[j] == before[j]);
                    }
                }
                assert(entry_of(adj_list@, position as int, heap@[heap@.len() - 1]));
            }
        }
        t = t + 1;
    }
}

/// All that an entry of the queue stands for: an edge from a used vertex.
pub open spec fn heap_ok(adj: Seq<Vec<Edge>>, used: Seq<bool>, heap: Seq<(i64, usize)>, from: Seq<Step>) -> bool {
    &&& from.len() == heap.len()
    &&& forall|j: int|
        0 <= j < heap.len() ==> {
            let (u, i) = #[trigger] from[j];
            &&& 0 <= u < adj.len()
            &&& 0 <= i < adj[u]@.len()
            &&& used[u]
            &&& heap[j] == (adj[u]@[i].cost, adj[u]@[i].to)
        }
}

/// The total cost of the tree grown from `start`, one cheapest edge to a new
/// vertex at a time, until no edge leaves the vertices taken. The tree spans
/// every vertex that `start` reaches.
pub fn shortest_path(adj_list: &Vec<Vec<Edge>>, start: usize) -> (res: i64)
    requires
        start < adj_list@.len(),
        edges_ok(adj_list@),
    ensures
        exists|tree: Seq<Step>|
            grows(adj_list@, start as int, tree) && greedy(adj_list@, start as int, tree) && closed(
                adj_list@,
                start as int,
                tree,
            ) && res == #[trigger] tree_cost(adj_list@, tree),
{
    let ghost adj = adj_list@;
    let n = adj_list.len();
    let mut used: Vec<bool> = Vec::new();
    let mut v: usize = 0;
    while v < n
        invariant
            v <= n,
            used@.len() == v,
            forall|x: int| 0 <= x < v ==> !used@[x],
        decreases n - v,
    {
        used.push(false);
        v = v + 1;
    }
    let mut res: i64 = 0;
    let mut heap: Vec<(i64, usize)> = Vec::new();
    push_edges(adj_list, start, &used, &mut heap);
    let ghost used0 = used@;
    proof {
        lemma_unused_mark(used@, start as int);
    }
    used.set(start, true);
    let ghost mut tree: Seq<Step> = Seq::empty();
    let ghost mut taken: Set<Step> = Set::empty();
    proof {
        lemma_graph_cost_in_empty(adj);
    }
    let ghost mut from: Seq<Step> = Seq::new(
        heap@.len(),
        |j: int| (start as int, choose|i: int| 0 <= i < adj[start as int]@.len() && heap@[j] == (#[trigger] adj[start as int]@[i].cost, adj[start as int]@[i].to)),
    );
    proof {
        assert(unused_count(used0) == n) by {
            assert forall|x: int| 0 <= x < n implies !used0[x] by {}
            lemma_all_unused(used0);
        }
        assert forall|j: int| 0 <= j < heap@.len() implies {
            let (u, i) = #[trigger] from[j];
            &&& 0 <= u < adj.len()
            &&& 0 <= i < adj[u]@.len()
            &&& used@[u]
            &&& heap@[j] == (adj[u]@[i].cost, adj[u]@[i].to)
        } by {
            assert(entry_of(adj, start as int, heap@[j]));
        }
        assert forall|x: int| 0 <= x < n implies used@[x] == covered(adj, start as int, tree).contains(x) by {}
    }
    while heap.len() > 0
        invariant
            adj == adj_list@,
            n == adj.len(),
            start < n,
            edges_ok(adj),
            used@.len() == n,
            heap_ok(adj, used@, heap@, from),
            forall|x: int| #[trigger] covered(adj, start as int, tree).contains(x) ==> 0 <= x < n,
            forall|x: int| 0 <= x < n ==> used@[x] == #[trigger] covered(adj, start as int, tree).contains(x),
            grows(adj, start as int, tree),
            greedy(adj, start as int, tree),
            res == tree_cost(adj, tree),
            0 <= res,
            res == graph_cost_in(adj, taken),
            forall|st: Step| #[trigger] taken.contains(st) ==> covered(adj, start as int, tree).contains(target(adj, st)),
            tree.len() + 1 + unused_count(used@) == n,
            forall|u: int, i: int|
                0 <= u < n && used@[u] && 0 <= i < adj[u]@.len() ==> used@[(#[trigger] adj[u]@[i]).to as int]
                    || heap@.contains((adj[u]@[i].cost, adj[u]@[i].to)),
        decreases unused_count(used@), heap@.len(),
    {
        let ghost heap0 = heap@;
        let popped = pop_min(&mut heap);
        let (cost, position) = match popped {
            Some(e) => e,
            None => (0, 0),
        };
        let ghost k0 = choose|k: int| 0 <= k < heap0.len() && heap0[k] == (cost, position) && heap@ == heap0.remove(k);
        let ghost edge = from[k0];
        proof {
            assert(heap0[k0] == (cost, position));
            assert(heap_ok(adj, used@, heap0, from));
            from = from.remove(k0);
            assert forall|u: int, i: int|
                0 <= u < n && used@[u] && 0 <= i < adj[u]@.len() && !used@[(#[trigger] adj[u]@[i]).to as int]
                    && (adj[u]@[i].cost, adj[u]@[i].to) != (cost, position) implies heap@.contains((adj[u]@[i].cost, adj[u]@[i].to)) by {
                lemma_remove_keeps(heap0, k0, (adj[u]@[i].cost, adj[u]@[i].to));
            }
        }
        if !used[position] {
            proof {
                let cov = covered(adj, start as int, tree);
                assert forall|u: int, i: int|
                    cov.contains(u) && 0 <= i < adj[u]@.len() && !cov.contains(adj[u]@[i].to as int) implies cost
                        <= #[trigger] adj[u]@[i].cost by {
                    assert(used@[u]);
                    assert(adj[u]@[i].to < n);
                    assert(!used@[adj[u]@[i].to as int]);
                    let e = (adj[u]@[i].cost, adj[u]@[i].to);
                    if e != (cost, position) {
                        assert(heap@.contains(e));
                        let j = choose|j: int| 0 <= j < heap@.len() && heap@[j] == e;
                        assert(heap@[j] == heap0.remove(k0)[j]);
                        if j < k0 {
                            assert(heap0[j] == e);
                        } else {
                            assert(heap0[j + 1] == e);
                        }
                    }
                }
            }
            let ghost heap1 = heap@;
            let ghost used1 = used@;
            push_edges(adj_list, position, &used, &mut heap);
            proof {
                lemma_unused_mark(used@, position as int);
                let added = Seq::new(
                    (heap@.len() - heap1.len()) as nat,
                    |j: int| (position as int, choose|i: int| 0 <= i < adj[position as int]@.len() && heap@[heap1.len() + j] == (#[trigger] adj[position as int]@[i].cost, adj[position as int]@[i].to)),
                );
                from = from + added;
            }
            used.set(position, true);
            proof {
                assert(target(adj, edge) == position);
                let t2 = tree.push(edge);
                assert(t2.drop_last() =~= tree);
                let cov0 = covered(adj, start as int, tree);
                assert(covered(adj, start as int, t2) == cov0.insert(position as int));
                tree = t2;
                assert forall|x: int| #[trigger] covered(adj, start as int, tree).contains(x) implies 0 <= x < n by {
                    if x != position {
                        assert(cov0.contains(x));
                    }
                }
                assert forall|x: int| 0 <= x < n implies used@[x] == #[trigger] covered(adj, start as int, tree).contains(x) by {
                    if x != position {
                        assert(used@[x] == used1[x]);
                        assert(used1[x] == cov0.contains(x));
                    }
                }
                assert(!taken.contains(edge)) by {
                    if taken.contains(edge) {
                        assert(cov0.contains(position as int));
                    }
                }
                lemma_graph_cost_in_insert(adj, taken, edge);
                taken = taken.insert(edge);
                lemma_graph_cost_in_bound(adj, taken);
                assert(res + cost <= i64::MAX);
                assert forall|st: Step| #[trigger] taken.contains(st) implies covered(adj, start as int, tree).contains(target(adj, st)) by {
                    if st != edge {
                        assert(cov0.contains(target(adj, st)));
                    }
                }
                assert forall|j: int| 0 <= j < heap@.len() implies {
                    let (u, i) = #[trigger] from[j];
                    &&& 0 <= u < adj.len()
                    &&& 0 <= i < adj[u]@.len()
                    &&& used@[u]
                    &&& heap@[j] == (adj[u]@[i].cost, adj[u]@[i].to)
                } by {
                    if j >= heap1.len() {
                        assert(entry_of(adj, position as int, heap@[j]));
                    } else {
                        assert(heap@[j] == heap1[j]);
                    }
                }
                assert forall|u: int, i: int|
                    0 <= u < n && used@[u] && 0 <= i < adj[u]@.len() implies used@[(#[trigger] adj[u]@[i]).to as int]
                        || heap@.contains((adj[u]@[i].cost, adj[u]@[i].to)) by {
                    if u != position && !used@[adj[u]@[i].to as int] {
                        let j = choose|j: int| 0 <= j < heap1.len() && heap1[j] == (adj[u]@[i].cost, adj[u]@[i].to);
                        assert(heap@[j] == heap1[j]);
                    }
                }
            }
            res = res + cost;
        }
    }
    proof {
        assert forall|u: int, i: int|
            covered(adj, start as int, tree).contains(u) && 0 <= i < adj[u]@.len() implies covered(adj, start as int, tree).contains(
                #[trigger] adj[u]@[i].to as int,
            ) by {
            assert(adj[u]@[i].to < n);
        }
        assert(closed(adj, start as int, tree));
    }
    res
}

proof fn lemma_all_unused(s: Seq<bool>)
    requires
        forall|x: int| 0 <= x < s.len() ==> !s[x],
    ensures
        unused_count(s) == s.len(),
    decreases s.len(),
{
    if s.len() > 0 {
        lemma_all_unused(s.drop_last());
    }
}

proof fn lemma_start_covered(adj: Seq<Vec<Edge>>, start: int, tree: Seq<Step>)
    ensures
        covered(adj, start, tree).contains(start),
    decreases tree.len(),
{
    if tree.len() > 0 {
        lemma_start_covered(adj, start, tree.drop_last());
    }
}

proof fn lemma_covered_within(adj: Seq<Vec<Edge>>, start: int, t1: Seq<Step>, t2: Seq<Step>)
    requires
        closed(adj, start, t1),
        grows(adj, start, t2),
    ensures
        covered(adj, start, t2).subset_of(covered(adj, start, t1)),
    decreases t2.len(),
{
    lemma_start_covered(adj, start, t1);
    if t2.len() > 0 {
        lemma_covered_within(adj, start, t1, t2.drop_last());
        let (u, i) = t2.last();
        assert(covered(adj, start, t1).contains(u));
        assert(covered(adj, start, t1).contains(adj[u]@[i].to as int));
    }
}

/// Two trees grown from `start` that no edge leaves cover the same vertices:
/// the tree whose cost `shortest_path` returns spans exactly what `start`
/// reaches, as any other such tree does.
pub proof fn law_spanning_trees_cover_alike(adj: Seq<Vec<Edge>>, start: int, t1: Seq<Step>, t2: Seq<Step>)
    requires
        grows(adj, start, t1),
        closed(adj, start, t1),
        grows(adj, start, t2),
        closed(adj, start, t2),
    ensures
        covered(adj, start, t1) == covered(adj, start, t2),
{
    lemma_covered_within(adj, start, t1, t2);
    lemma_covered_within(adj, start, t2, t1);
    assert(covered(adj, start, t1) =~= covered(adj, start, t2));
}

proof fn lemma_list_cost_prefix(l: Seq<Edge>, i: int)
    requires
        0 <= i <= l.len(),
        forall|k: int| 0 <= k < l.len() ==> 0 <= #[trigger] l[k].cost,
    ensures
        0 <= list_cost(l.take(i)) <= list_cost(l),
    decreases l.len(),
{
    if i == l.len() {
        assert(l.take(i) =~= l);
    } else {
        lemma_list_cost_prefix(l.drop_last(), i);
        assert(l.drop_last().take(i) =~= l.take(i));
    }
    lemma_list_cost_nonneg(l.take(i));
}

proof fn lemma_list_cost_nonneg(l: Seq<Edge>)
    requires
        forall|k: int| 0 <= k < l.len() ==> 0 <= #[trigger] l[k].cost,
    ensures
        0 <= list_cost(l),
    decreases l.len(),
{
    if l.len() > 0 {
        lemma_list_cost_nonneg(l.drop_last());
        assert(0 <= l[l.len() - 1].cost);
    }
}

proof fn lemma_total_cost_prefix(adj: Seq<Vec<Edge>>, u: int)
    requires
        0 <= u <= adj.len(),
        forall|x: int, k: int| 0 <= x < adj.len() && 0 <= k < adj[x]@.len() ==> 0 <= #[trigger] adj[x]@[k].cost,
    ensures
        0 <= total_cost(adj.take(u)) <= total_cost(adj),
    decreases adj.len(),
{
    if u == adj.len() {
        assert(adj.take(u) =~= adj);
        if u > 0 {
            lemma_total_cost_prefix(adj.drop_last(), u - 1);
            assert(adj.drop_last().take(u - 1) =~= adj.drop_last());
            lemma_list_cost_nonneg(adj.last()@);
        }
    } else {
        assert forall|x: int, k: int| 0 <= x < adj.drop_last().len() && 0 <= k < adj.drop_last()[x]@.len() implies 0 <= #[trigger] adj.drop_last()[x]@[k].cost by {
            assert(adj.drop_last()[x] == adj[x]);
        }
        lemma_total_cost_prefix(adj.drop_last(), u);
        assert(adj.drop_last().take(u) =~= adj.take(u));
        lemma_list_cost_nonneg(adj.last()@);
    }
}

/// Whether `edges_ok` holds: every edge in range and of cost at least 0, and
/// the sum of all costs within an `i64`.
fn costs_within_limits(adj_list: &Vec<Vec<Edge>>) -> (ok: bool)
    ensures
        ok == edges_ok(adj_list@),
{
    let ghost adj = adj_list@;
    let n = adj_list.len();
    let mut u: usize = 0;
    while u < n
        invariant
            adj == adj_list@,
            n == adj.len(),
            u <= n,
            forall|x: int, i: int|
                0 <= x < u && 0 <= i < adj[x]@.len() ==> (#[trigger] adj[x]@[i]).to < n && 0 <= adj[x]@[i].cost,
        decreases n - u,
    {
        let edges = &adj_list[u];
        let mut i: usize = 0;
        while i < edges.len()
            invariant
                adj == adj_list@,
                n == adj.len(),
                u < n,
                edges == adj[u as int],
                i <= edges@.len(),
                forall|x: int, j: int|
                    0 <= x < u && 0 <= j < adj[x]@.len() ==> (#[trigger] adj[x]@[j]).to < n && 0 <= adj[x]@[j].cost,
                forall|j: int| 0 <= j < i ==> (#[trigger] adj[u as int]@[j]).to < n && 0 <= adj[u as int]@[j].cost,
            decreases edges@.len() - i,
        {
            let e = edges[i];
            if e.to >= n || e.cost < 0 {
                proof {
                    assert(adj[u as int]@[i as int] == e);
                }
                return false;
            }
            i = i + 1;
        }
        u = u + 1;
    }
    let mut sum: i64 = 0;
    let mut u: usize = 0;
    while u < n
        invariant
            adj == adj_list@,
            n == adj.len(),
            u <= n,
            forall|x: int, i: int|
                0 <= x < n && 0 <= i < adj[x]@.len() ==> (#[trigger] adj[x]@[i]).to < n && 0 <= adj[x]@[i].cost,
            sum == total_cost(adj.take(u as int)),
        decreases n - u,
    {
        let edges = &adj_list[u];
        let mut i: usize = 0;
        proof {
            assert(edges@.take(0) =~= Seq::<Edge>::empty());
        }
        while i < edges.len()
            invariant
                adj == adj_list@,
                n == adj.len(),
                u < n,
                edges == adj[u as int],
                i <= edges@.len(),
                forall|x: int, j: int|
                    0 <= x < n && 0 <= j < adj[x]@.len() ==> (#[trigger] adj[x]@[j]).to < n && 0 <= adj[x]@[j].cost,
                sum == total_cost(adj.take(u as int)) + list_cost(edges@.take(i as int)),
            decreases edges@.len() - i,
        {
            proof {
                assert(edges@.take(i + 1).drop_last() =~= edges@.take(i as int));
            }
            match sum.checked_add(edges[i].cost) {
                Some(next) => {
                    sum = next;
                },
                None => {
                    proof {
                        assert(adj.take(u + 1).drop_last() =~= adj.take(u as int));
                        lemma_list_cost_prefix(edges@, i + 1);
                        lemma_total_cost_prefix(adj, u + 1);
                        assert(total_cost(adj.take(u + 1)) == total_cost(adj.take(u as int)) + list_cost(edges@));
                    }
                    return false;
                },
            }
            i = i + 1;
        }
        proof {
            assert(edges@.take(i as int) =~= edges@);
            assert(adj.take(u + 1).drop_last() =~= adj.take(u as int));
        }
        u = u + 1;
    }
    proof {
        assert(adj.take(n as int) =~= adj);
    }
    true
}

/// Like `shortest_path`, but refuses a start that is not a vertex and a
/// graph that `edges_ok` does not accept.
pub fn try_shortest_path(adj_list: &Vec<Vec<Edge>>, start: usize) -> (res: Result<i64, TreeError>)
    ensures
        res is Err <==> start >= adj_list@.len() || !edges_ok(adj_list@),
        res is Err ==> res == Err::<i64, TreeError>(TreeError::InvalidArgument),
        res is Ok ==> exists|tree: Seq<Step>|
            grows(adj_list@, start as int, tree) && greedy(adj_list@, start as int, tree) && closed(
                adj_list@,
                start as int,
                tree,
            ) && res->Ok_0 == #[trigger] tree_cost(adj_list@, tree),
{
    if start >= adj_list.len() || !costs_within_limits(adj_list) {
        return Err(TreeError::InvalidArgument);
    }
    Ok(shortest_path(adj_list, start))
}

} // verus!
