//! A disjoint-set forest with union by rank and path compression.
use vstd::arithmetic::power2::{lemma2_to64, lemma_pow2_strictly_increases, lemma_pow2_unfold, pow2};
use vstd::prelude::*;
use vstd::set_lib::{lemma_int_range, lemma_len_subset, set_int_range};

verus! {

/// Why an operation refused its arguments.
#[derive(Clone, Copy, Debug, PartialEq, Eq, Structural)]
pub enum UnionFindError {
    /// A node id is not below the number of nodes.
    IndexOutOfRange,
}

pub struct UnionFindTree {
    parent: Vec<usize>,
    rank: Vec<usize>,
    /// The root that each node's parent chain ends at.
    rep: Ghost<Seq<int>>,
    /// How many merges have joined two distinct sets.
    merged: Ghost<nat>,
}

impl UnionFindTree {
    /// The number of nodes.
    pub closed spec fn size(self) -> nat {
        self.parent@.len()
    }

    /// The representative of node `i`'s set.
    pub closed spec fn find(self, i: int) -> int {
        self.rep@[i]
    }

    /// The rank of node `i`: a bound on the height of the tree below it.
    pub closed spec fn rank_of(self, i: int) -> nat {
        self.rank@[i] as nat
    }

    /// The node that `i` points at.
    pub closed spec fn parent_of(self, i: int) -> int {
        self.parent@[i] as int
    }

    /// `j` lies on the chain of parents that starts at `x`, within `steps`
    /// steps.
    pub open spec fn on_path(self, x: int, j: int, steps: nat) -> bool
        decreases steps,
    {
        ||| j == x
        ||| steps > 0 && self.parent_of(x) != x && self.on_path(self.parent_of(x), j, (steps - 1) as nat)
    }

    proof fn lemma_path_in_range(self, x: int, j: int, steps: nat)
        requires
            self.wf(),
            0 <= x < self.size(),
            self.on_path(x, j, steps),
        ensures
            0 <= j < self.size(),
        decreases steps,
    {
        assert(self.node_ok(x));
        if j != x {
            self.lemma_path_in_range(self.parent_of(x), j, (steps - 1) as nat);
        }
    }

    /// Nodes `a` and `b` lie in the same set.
    pub open spec fn same(self, a: int, b: int) -> bool {
        self.find(a) == self.find(b)
    }

    /// Nodes `a` and `b` lie in the same set once the sets of `x` and `y`
    /// are merged.
    pub open spec fn same_after_union(self, x: int, y: int, a: int, b: int) -> bool {
        ||| self.same(a, b)
        ||| self.same(a, x) && self.same(b, y)
        ||| self.same(a, y) && self.same(b, x)
    }

    /// The nodes whose representative is `r`.
    spec fn members(self, r: int) -> Set<int> {
        Set::new(|i: int| 0 <= i < self.parent@.len() && self.rep@[i] == r)
    }

    /// A root of rank `k` has at least `2^k` members.
    spec fn heavy(self) -> bool {
        forall|r: int| 0 <= r < self.parent@.len() && self.parent@[r] == r ==> pow2(self.rank@[r] as nat) <= #[trigger] self.members(r).len()
    }

    proof fn lemma_members_finite(self, r: int)
        ensures
            self.members(r).finite(),
            self.members(r).len() <= self.parent@.len(),
    {
        lemma_int_range(0, self.parent@.len() as int);
        lemma_len_subset(self.members(r), set_int_range(0, self.parent@.len() as int));
    }

    spec fn roots(self) -> Set<int> {
        Set::new(|i: int| 0 <= i < self.parent@.len() && self.parent@[i] == i)
    }

    spec fn node_ok(self, i: int) -> bool {
        let n = self.parent@.len();
        let p = self.parent@[i] as int;
        let r = self.rep@[i];
        &&& 0 <= p < n
        &&& 0 <= r < n
        &&& self.parent@[r] == r
        &&& self.rank@[i] <= self.merged@
        &&& (p == i ==> r == i)
        &&& (p != i ==> self.rep@[p] == r && self.rank@[i] < self.rank@[p] && self.rank@[i]
            < self.rank@[r])
    }

    /// The forest is well formed: parents are in range, every parent chain
    /// climbs in rank to its representative, and no rank exceeds the number of
    /// merges, which with the number of roots makes up the size.
    pub closed spec fn wf(self) -> bool {
        let n = self.parent@.len();
        &&& n <= usize::MAX
        &&& self.rank@.len() == n
        &&& self.rep@.len() == n
        &&& forall|i: int| 0 <= i < n ==> #[trigger] self.node_ok(i)
        &&& self.roots().finite()
        &&& self.roots().len() + self.merged@ == n
        &&& self.heavy()
    }

    /// `nodes_num` nodes, each in a set of its own.
    pub fn new(nodes_num: usize) -> (uft: Self)
        ensures
            uft.wf(),
            uft.size() == nodes_num,
            forall|a: int, b: int| 0 <= a < nodes_num && 0 <= b < nodes_num ==> (uft.same(a, b) <==> a == b),
    {
        let mut parent: Vec<usize> = Vec::with_capacity(nodes_num);
        let mut rank: Vec<usize> = Vec::with_capacity(nodes_num);
        let mut i: usize = 0;
        while i < nodes_num
            invariant
                i <= nodes_num,
                parent@.len() == i,
                rank@.len() == i,
                forall|j: int| 0 <= j < i ==> parent@[j] == j && rank@[j] == 0,
            decreases nodes_num - i,
        {
            parent.push(i);
            rank.push(0);
            i = i + 1;
        }
        let uft = UnionFindTree {
            parent,
            rank,
            rep: Ghost(Seq::new(nodes_num as nat, |j: int| j)),
            merged: Ghost(0),
        };
        proof {
            lemma_int_range(0, nodes_num as int);
            assert(uft.roots() =~= set_int_range(0, nodes_num as int));
            assert forall|r: int| 0 <= r < nodes_num && uft.parent@[r] == r implies pow2(uft.rank@[r] as nat) <= #[trigger] uft.members(r).len() by {
                assert(uft.members(r) =~= set![r]);
                lemma2_to64();
            }
        }
        uft
    }

    /// The representative of `node_id`; every node met on the way is
    /// repointed straight to it.
    fn find_root_id(&mut self, node_id: usize) -> (root: usize)
        requires
            old(self).wf(),
            node_id < old(self).size(),
        ensures
            final(self).wf(),
            root == old(self).find(node_id as int),
            final(self).parent_of(root as int) == root,
            forall|j: int, steps: nat| #[trigger] old(self).on_path(node_id as int, j, steps) ==> final(self).parent_of(j) == root,
            final(self).rep@ == old(self).rep@,
            final(self).rank@ == old(self).rank@,
            final(self).merged@ == old(self).merged@,
            final(self).roots() == old(self).roots(),
            final(self).size() == old(self).size(),
        decreases usize::MAX - old(self).rank@[node_id as int],
    {
        proof {
            assert(self.node_ok(node_id as int));
        }
        let p = self.parent[node_id];
        if p == node_id {
            return node_id;
        }
        let root = self.find_root_id(p);
        let ghost mid = *self;
        proof {
            assert forall|j: int, steps: nat| #[trigger] old(self).on_path(node_id as int, j, steps) && j != node_id implies mid.parent_of(j) == root by {
                assert(old(self).on_path(p as int, j, (steps - 1) as nat));
            }
        }
        proof {
            assert(mid.node_ok(node_id as int));
            assert(mid.node_ok(root as int));
        }
        self.parent.set(node_id, root);
        proof {
            assert forall|j: int, steps: nat| #[trigger] old(self).on_path(node_id as int, j, steps) implies self.parent_of(j) == root by {
                if j != node_id {
                    old(self).lemma_path_in_range(node_id as int, j, steps);
                    assert(mid.parent_of(j) == root);
                    assert(self.parent@[j] == mid.parent@[j]);
                }
            }
            assert(self.roots() =~= old(self).roots());
            assert forall|i: int| 0 <= i < self.size() implies #[trigger] self.node_ok(i) by {
                assert(mid.node_ok(i));
            }
            assert forall|r: int| 0 <= r < self.size() && self.parent@[r] == r implies pow2(self.rank@[r] as nat) <= #[trigger] self.members(r).len() by {
                assert(self.members(r) =~= mid.members(r));
                if r == node_id {
                    assert(mid.node_ok(node_id as int));
                }
            }
        }
        root
    }

    /// Merges the sets of `node_id_x` and `node_id_y`; the root of lower rank
    /// goes under the other, and on equal ranks the root of `node_id_y` goes
    /// under that of `node_id_x`, whose rank grows by one.
    pub fn unite_group(&mut self, node_id_x: usize, node_id_y: usize)
        requires
            old(self).wf(),
            node_id_x < old(self).size(),
            node_id_y < old(self).size(),
        ensures
            final(self).wf(),
            final(self).size() == old(self).size(),
            forall|a: int, b: int|
                0 <= a < old(self).size() && 0 <= b < old(self).size() ==> (#[trigger] final(self).same(a, b)
                    <==> old(self).same_after_union(node_id_x as int, node_id_y as int, a, b)),
            forall|i: int| 0 <= i < old(self).size() ==> #[trigger] final(self).rank_of(i) >= old(self).rank_of(i),
    {
        let root_id_x = self.find_root_id(node_id_x);
        let root_id_y = self.find_root_id(node_id_y);
        if root_id_x == root_id_y {
            return;
        }
        let ghost mid = *self;
        proof {
            assert(mid.node_ok(node_id_x as int));
            assert(mid.node_ok(node_id_y as int));
            assert(mid.node_ok(root_id_x as int));
            assert(mid.node_ok(root_id_y as int));
            assert(mid.roots().contains(root_id_x as int));
            assert(mid.roots().contains(root_id_y as int));
            let two = set![root_id_x as int, root_id_y as int];
            assert(two.len() == 2);
            lemma_len_subset(two, mid.roots());
            assert(mid.merged@ + 2 <= mid.size());
        }
        let (winner, loser) = if self.rank[root_id_x] < self.rank[root_id_y] {
            (root_id_y, root_id_x)
        } else {
            (root_id_x, root_id_y)
        };
        self.parent.set(loser, winner);
        if self.rank[root_id_x] == self.rank[root_id_y] {
            let r = self.rank[root_id_x] + 1;
            self.rank.set(root_id_x, r);
        }
        self.rep = Ghost(mid.rep@.map_values(|r: int| if r == loser as int { winner as int } else { r }));
        self.merged = Ghost(mid.merged@ + 1);
        proof {
            assert(self.roots() =~= mid.roots().remove(loser as int));
            assert forall|r: int| 0 <= r < self.size() && self.parent@[r] == r implies pow2(self.rank@[r] as nat) <= #[trigger] self.members(r).len() by {
                assert(mid.parent@[r] == r);
                mid.lemma_members_finite(r);
                if r == winner {
                    mid.lemma_members_finite(loser as int);
                    assert(self.members(r) =~= mid.members(r) + mid.members(loser as int));
                    assert(mid.members(r).disjoint(mid.members(loser as int)));
                    vstd::set_lib::lemma_set_disjoint_lens(mid.members(r), mid.members(loser as int));
                    assert(pow2(mid.rank@[r] as nat) <= mid.members(r).len());
                    assert(pow2(mid.rank@[loser as int] as nat) <= mid.members(loser as int).len());
                    if self.rank@[r] != mid.rank@[r] {
                        lemma_pow2_unfold(self.rank@[r] as nat);
                    }
                } else {
                    assert(self.members(r) =~= mid.members(r));
                }
            }
            assert forall|i: int| 0 <= i < self.size() implies #[trigger] self.node_ok(i) by {
                assert(mid.node_ok(i));
                let p = mid.parent@[i] as int;
                if p != i {
                    assert(mid.node_ok(p));
                }
            }
            assert forall|a: int, b: int|
                0 <= a < self.size() && 0 <= b < self.size() implies (#[trigger] self.same(a, b)
                <==> old(self).same_after_union(node_id_x as int, node_id_y as int, a, b)) by {
                assert(mid.node_ok(a));
                assert(mid.node_ok(b));
            }
        }
    }

    /// Whether `node_id_x` and `node_id_y` lie in the same set. The sets stay
    /// as they were; only the paths to the representatives get shorter.
    pub fn same_group(&mut self, node_id_x: usize, node_id_y: usize) -> (same: bool)
        requires
            old(self).wf(),
            node_id_x < old(self).size(),
            node_id_y < old(self).size(),
        ensures
            final(self).wf(),
            final(self).size() == old(self).size(),
            same == old(self).same(node_id_x as int, node_id_y as int),
            forall|a: int, b: int| #[trigger] final(self).same(a, b) == old(self).same(a, b),
            forall|i: int| #[trigger] final(self).rank_of(i) == old(self).rank_of(i),
    {
        let root_id_x = self.find_root_id(node_id_x);
        let root_id_y = self.find_root_id(node_id_y);
        root_id_x == root_id_y
    }

    /// The number of nodes.
    pub fn len(&self) -> (n: usize)
        requires
            self.wf(),
        ensures
            n == self.size(),
    {
        self.parent.len()
    }

    /// Like `unite_group`, but refuses an id that is not below the number of
    /// nodes, and then changes nothing.
    pub fn try_unite_group(&mut self, node_id_x: usize, node_id_y: usize) -> (res: Result<(), UnionFindError>)
        requires
            old(self).wf(),
        ensures
            final(self).wf(),
            final(self).size() == old(self).size(),
            res is Err <==> node_id_x >= old(self).size() || node_id_y >= old(self).size(),
            res is Err ==> res == Err::<(), UnionFindError>(UnionFindError::IndexOutOfRange),
            res is Err ==> forall|a: int, b: int| #[trigger] final(self).same(a, b) == old(self).same(a, b),
            res is Ok ==> forall|a: int, b: int|
                0 <= a < old(self).size() && 0 <= b < old(self).size() ==> (#[trigger] final(self).same(a, b)
                    <==> old(self).same_after_union(node_id_x as int, node_id_y as int, a, b)),
    {
        if node_id_x >= self.parent.len() || node_id_y >= self.parent.len() {
            return Err(UnionFindError::IndexOutOfRange);
        }
        self.unite_group(node_id_x, node_id_y);
        Ok(())
    }

    /// Like `same_group`, but refuses an id that is not below the number of
    /// nodes.
    pub fn try_same_group(&mut self, node_id_x: usize, node_id_y: usize) -> (res: Result<bool, UnionFindError>)
        requires
            old(self).wf(),
        ensures
            final(self).wf(),
            final(self).size() == old(self).size(),
            forall|a: int, b: int| #[trigger] final(self).same(a, b) == old(self).same(a, b),
            res is Err <==> node_id_x >= old(self).size() || node_id_y >= old(self).size(),
            res is Err ==> res == Err::<bool, UnionFindError>(UnionFindError::IndexOutOfRange),
            res is Ok ==> res == Ok::<bool, UnionFindError>(old(self).same(node_id_x as int, node_id_y as int)),
    {
        if node_id_x >= self.parent.len() || node_id_y >= self.parent.len() {
            return Err(UnionFindError::IndexOutOfRange);
        }
        Ok(self.same_group(node_id_x, node_id_y))
    }
}

/// Union by rank keeps the forest shallow: no rank exceeds `log2(n)`, and
/// ranks climb strictly along every parent chain, so a chain holds at most
/// `log2(n) + 1` nodes.
pub proof fn law_rank_logarithmic(uft: UnionFindTree)
    requires
        uft.wf(),
    ensures
        forall|i: int| 0 <= i < uft.size() ==> pow2(#[trigger] uft.rank_of(i)) <= uft.size(),
        forall|i: int| 0 <= i < uft.size() && uft.parent_of(i) != i ==> #[trigger] uft.rank_of(i) < uft.rank_of(uft.parent_of(i)),
{
    assert forall|i: int| 0 <= i < uft.size() implies pow2(#[trigger] uft.rank_of(i)) <= uft.size() by {
        assert(uft.node_ok(i));
        let r = uft.rep@[i];
        assert(uft.node_ok(r));
        uft.lemma_members_finite(r);
        if uft.parent@[i] != i {
            lemma_pow2_strictly_increases(uft.rank@[i] as nat, uft.rank@[r] as nat);
        }
    }
    assert forall|i: int| 0 <= i < uft.size() && uft.parent_of(i) != i implies #[trigger] uft.rank_of(i) < uft.rank_of(uft.parent_of(i)) by {
        assert(uft.node_ok(i));
    }
}

/// Lying in the same set is reflexive, symmetric and transitive, in every
/// state of the structure.
pub proof fn law_same_is_equivalence(uft: UnionFindTree, a: int, b: int, c: int)
    ensures
        uft.same(a, a),
        uft.same(a, b) == uft.same(b, a),
        uft.same(a, b) && uft.same(b, c) ==> uft.same(a, c),
{
}

/// Merging the sets of `x` and `y` puts `x` and `y` together and keeps
/// together every pair that already was.
pub proof fn law_union_joins(uft: UnionFindTree, x: int, y: int)
    ensures
        uft.same_after_union(x, y, x, y),
        uft.same_after_union(x, y, y, x),
        forall|a: int, b: int| uft.same(a, b) ==> #[trigger] uft.same_after_union(x, y, a, b),
{
}

/// A fresh structure of `n` nodes has `n` distinct sets: its representatives
/// are `n` different nodes.
pub proof fn law_fresh_sets(uft: UnionFindTree, n: nat)
    requires
        uft.size() == n,
        forall|a: int, b: int| 0 <= a < n && 0 <= b < n ==> (uft.same(a, b) <==> a == b),
    ensures
        Set::new(|r: int| exists|i: int| 0 <= i < n && uft.find(i) == r).len() == n,
{
    let reps = Set::new(|r: int| exists|i: int| 0 <= i < n && uft.find(i) == r);
    lemma_distinct_reps(uft, n as int);
    assert(reps =~= Set::new(|r: int| exists|i: int| 0 <= i < n as int && uft.find(i) == r));
}

proof fn lemma_distinct_reps(uft: UnionFindTree, k: int)
    requires
        0 <= k <= uft.size(),
        forall|a: int, b: int| 0 <= a < uft.size() && 0 <= b < uft.size() ==> (uft.same(a, b) <==> a == b),
    ensures
        Set::new(|r: int| exists|i: int| 0 <= i < k && uft.find(i) == r).finite(),
        Set::new(|r: int| exists|i: int| 0 <= i < k && uft.find(i) == r).len() == k,
    decreases k,
{
    let cur = Set::new(|r: int| exists|i: int| 0 <= i < k && uft.find(i) == r);
    if k == 0 {
        assert(cur =~= Set::empty());
    } else {
        lemma_distinct_reps(uft, k - 1);
        let prev = Set::new(|r: int| exists|i: int| 0 <= i < k - 1 && uft.find(i) == r);
        assert(cur =~= prev.insert(uft.find(k - 1)));
        assert(!prev.contains(uft.find(k - 1))) by {
            if prev.contains(uft.find(k - 1)) {
                let i = choose|i: int| 0 <= i < k - 1 && #[trigger] uft.find(i) == uft.find(k - 1);
                assert(uft.same(i, k - 1));
            }
        }
    }
}

} // verus!
