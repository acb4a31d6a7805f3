//! An ordered binary search tree of `i64` keys. Keys not greater than a node's
//! key live in its left subtree, greater keys in its right subtree.
use vstd::multiset::Multiset;
use vstd::prelude::*;

verus! {

#[derive(Debug, PartialEq, Eq)]
pub struct BinarySearchTree {
    val: i64,
    left: Option<Box<BinarySearchTree>>,
    right: Option<Box<BinarySearchTree>>,
}

/// The keys held by an optional subtree, with their multiplicities.
spec fn branch_keys(branch: Option<Box<BinarySearchTree>>) -> Multiset<i64>
    decreases branch,
{
    match branch {
        Some(node) => node.keys(),
        None => Multiset::empty(),
    }
}

/// An optional subtree that is empty or ordered.
spec fn branch_ordered(branch: Option<Box<BinarySearchTree>>) -> bool {
    match branch {
        Some(node) => node.ordered(),
        None => true,
    }
}

/// `branch` with `v` added at the end of its search path.
spec fn branch_add(branch: Option<Box<BinarySearchTree>>, v: i64) -> BinarySearchTree
    decreases branch,
{
    match branch {
        Some(node) => node.spec_add(v),
        None => BinarySearchTree { val: v, left: None, right: None },
    }
}

/// `branch` with the first node of `v` on its search path taken out.
spec fn branch_delete(branch: Option<Box<BinarySearchTree>>, v: i64) -> Option<Box<BinarySearchTree>>
    decreases branch,
{
    match branch {
        Some(node) => if node.val == v {
            spec_splice(*node)
        } else {
            Some(Box::new(node.spec_delete(v)))
        },
        None => None,
    }
}

/// What remains of `node` once its root is taken out: the greatest key of
/// its left subtree moves up into the root's place.
spec fn spec_splice(node: BinarySearchTree) -> Option<Box<BinarySearchTree>> {
    match node.left {
        None => node.right,
        Some(l) => {
            let (rest, top) = spec_take_rightmost(*l);
            Some(Box::new(BinarySearchTree { val: top, left: rest, right: node.right }))
        },
    }
}

/// `node` without its rightmost node, whose left subtree takes its place,
/// together with that node's key.
spec fn spec_take_rightmost(node: BinarySearchTree) -> (Option<Box<BinarySearchTree>>, i64)
    decreases node,
{
    match node.right {
        None => (node.left, node.val),
        Some(r) => {
            let (rest, top) = spec_take_rightmost(*r);
            (Some(Box::new(BinarySearchTree { val: node.val, left: node.left, right: rest })), top)
        },
    }
}

impl BinarySearchTree {
    /// The tree with `v` in a new leaf at the end of its search path: left at
    /// keys not less than `v`, right at smaller keys. Every other node keeps
    /// its place.
    pub closed spec fn spec_add(self, v: i64) -> BinarySearchTree
        decreases self,
    {
        if v <= self.val {
            BinarySearchTree { val: self.val, left: Some(Box::new(branch_add(self.left, v))), right: self.right }
        } else {
            BinarySearchTree { val: self.val, left: self.left, right: Some(Box::new(branch_add(self.right, v))) }
        }
    }

    /// The tree with the first node of `v` below the root on its search path
    /// taken out by the predecessor splice; the tree itself where the root
    /// holds `v`.
    pub closed spec fn spec_delete(self, v: i64) -> BinarySearchTree
        decreases self,
    {
        if v == self.val {
            self
        } else if v < self.val {
            BinarySearchTree { val: self.val, left: branch_delete(self.left, v), right: self.right }
        } else {
            BinarySearchTree { val: self.val, left: self.left, right: branch_delete(self.right, v) }
        }
    }

    /// A one-node tree holding `v`.
    pub closed spec fn leaf(v: i64) -> BinarySearchTree {
        BinarySearchTree { val: v, left: None, right: None }
    }

    /// The key stored at the root.
    pub closed spec fn root_key(self) -> i64 {
        self.val
    }

    /// Every key in the tree, with its multiplicity.
    pub closed spec fn keys(self) -> Multiset<i64>
        decreases self,
    {
        Multiset::singleton(self.val).add(branch_keys(self.left)).add(branch_keys(self.right))
    }

    /// The search-tree order holds at every node.
    pub closed spec fn ordered(self) -> bool
        decreases self,
    {
        &&& forall|k: i64| branch_keys(self.left).contains(k) ==> k <= self.val
        &&& forall|k: i64| branch_keys(self.right).contains(k) ==> k > self.val
        &&& match self.left {
            Some(node) => node.ordered(),
            None => true,
        }
        &&& match self.right {
            Some(node) => node.ordered(),
            None => true,
        }
    }

    /// A one-node tree holding `val`.
    pub fn new(val: i64) -> (tree: Self)
        ensures
            tree.ordered(),
            tree.root_key() == val,
            tree.keys() =~= Multiset::singleton(val),
            tree == BinarySearchTree::leaf(val),
    {
        BinarySearchTree { val, left: None, right: None }
    }

    /// Inserts `new_val`; an equal key goes to the left of the nodes it meets.
    pub fn add(&mut self, new_val: i64)
        requires
            old(self).ordered(),
        ensures
            final(self).ordered(),
            final(self).root_key() == old(self).root_key(),
            final(self).keys() =~= old(self).keys().insert(new_val),
            *final(self) == old(self).spec_add(new_val),
        decreases *old(self), 1int,
    {
        if new_val <= self.val {
            Self::add_value_into_one_side(&mut self.left, new_val);
            assert forall|k: i64| branch_keys(self.left).contains(k) implies k <= self.val by {
                if k != new_val {
                    assert(branch_keys(old(self).left).contains(k));
                }
            }
        } else {
            Self::add_value_into_one_side(&mut self.right, new_val);
            assert forall|k: i64| branch_keys(self.right).contains(k) implies k > self.val by {
                if k != new_val {
                    assert(branch_keys(old(self).right).contains(k));
                }
            }
        }
    }

    fn add_value_into_one_side(branch: &mut Option<Box<BinarySearchTree>>, new_val: i64)
        requires
            branch_ordered(*old(branch)),
        ensures
            branch_ordered(*final(branch)),
            branch_keys(*final(branch)) =~= branch_keys(*old(branch)).insert(new_val),
            *final(branch) == Some(Box::new(branch_add(*old(branch), new_val))),
        decreases *old(branch), 0int,
    {
        match branch.take() {
            Some(mut node) => {
                node.add(new_val);
                *branch = Some(node);
            },
            None => {
                *branch = Some(Box::new(BinarySearchTree { val: new_val, left: None, right: None }));
            },
        }
    }

    proof fn lemma_search_side(self, k: i64)
        requires
            self.ordered(),
        ensures
            k < self.val ==> (self.keys().contains(k) <==> branch_keys(self.left).contains(k)),
            k > self.val ==> (self.keys().contains(k) <==> branch_keys(self.right).contains(k)),
            k == self.val ==> self.keys().contains(k),
    {
        if k < self.val {
            assert(!branch_keys(self.right).contains(k));
        } else if k > self.val {
            assert(!branch_keys(self.left).contains(k));
        }
    }

    /// Whether some node holds `val`.
    pub fn contains(&self, val: &i64) -> (found: bool)
        requires
            self.ordered(),
        ensures
            found == self.keys().contains(*val),
        decreases self,
    {
        proof {
            self.lemma_search_side(*val);
        }
        if self.val == *val {
            true
        } else if *val < self.val {
            match &self.left {
                Some(node) => node.contains(val),
                None => false,
            }
        } else {
            match &self.right {
                Some(node) => node.contains(val),
                None => false,
            }
        }
    }

    proof fn lemma_children_ordered(self)
        requires
            self.ordered(),
        ensures
            branch_ordered(self.left),
            branch_ordered(self.right),
            forall|k: i64| branch_keys(self.left).contains(k) ==> k <= self.val,
            forall|k: i64| branch_keys(self.right).contains(k) ==> k > self.val,
    {
    }

    /// Removes the node of `v` met first on its search path; a tree whose root
    /// holds `v` is left as it is.
    pub fn delete(&mut self, v: &i64)
        requires
            old(self).ordered(),
        ensures
            final(self).ordered(),
            final(self).root_key() == old(self).root_key(),
            *v == old(self).root_key() ==> final(self).keys() == old(self).keys(),
            *v != old(self).root_key() ==> final(self).keys() =~= old(self).keys().remove(*v),
            *final(self) == old(self).spec_delete(*v),
            *v == old(self).root_key() || !old(self).keys().contains(*v) ==> *final(self) == *old(self),
        decreases *old(self), 1int,
    {
        proof {
            self.lemma_search_side(*v);
        }
        if self.val == *v {
            return;
        }
        if *v < self.val {
            Self::delete_from_branch(&mut self.left, *v);
            assert forall|k: i64| branch_keys(self.left).contains(k) implies k <= self.val by {
                assert(branch_keys(old(self).left).contains(k));
            }
        } else {
            Self::delete_from_branch(&mut self.right, *v);
            assert forall|k: i64| branch_keys(self.right).contains(k) implies k > self.val by {
                assert(branch_keys(old(self).right).contains(k));
            }
        }
    }

    fn delete_from_branch(branch: &mut Option<Box<BinarySearchTree>>, v: i64)
        requires
            branch_ordered(*old(branch)),
        ensures
            branch_ordered(*final(branch)),
            branch_keys(*final(branch)) =~= branch_keys(*old(branch)).remove(v),
            *final(branch) == branch_delete(*old(branch), v),
            !branch_keys(*old(branch)).contains(v) ==> *final(branch) == *old(branch),
        decreases *old(branch), 0int,
    {
        match branch.take() {
            Some(mut node) => {
                if node.val == v {
                    *branch = Self::splice_out(node);
                } else {
                    node.delete(&v);
                    *branch = Some(node);
                }
            },
            None => {},
        }
    }

    /// The subtree that remains once the root of `node` is taken out: the
    /// greatest key of the left subtree moves up into its place.
    fn splice_out(node: Box<BinarySearchTree>) -> (rest: Option<Box<BinarySearchTree>>)
        requires
            node.ordered(),
        ensures
            branch_ordered(rest),
            branch_keys(rest) =~= node.keys().remove(node.val),
            rest == spec_splice(*node),
    {
        proof {
            node.lemma_children_ordered();
        }
        let BinarySearchTree { val, left, right } = *node;
        match left {
            None => {
                assert(branch_keys(left) =~= Multiset::empty());
                right
            },
            Some(l) => {
                let ghost l_keys = l.keys();
                let (l_rest, top) = Self::take_rightmost(l);
                let rest = BinarySearchTree { val: top, left: l_rest, right };
                assert forall|k: i64| branch_keys(rest.left).contains(k) implies k <= rest.val by {
                    assert(branch_keys(l_rest).insert(top).contains(k));
                    assert(l_keys.contains(k));
                }
                assert(branch_keys(node.left) == l_keys);
                assert(top <= val);
                assert forall|k: i64| branch_keys(rest.right).contains(k) implies k > rest.val by {
                    assert(branch_keys(node.right).contains(k));
                }
                assert(rest.ordered());
                Some(Box::new(rest))
            },
        }
    }

    /// Detaches the rightmost node of `node`, whose key is the greatest, and
    /// returns what is left together with that key.
    fn take_rightmost(node: Box<BinarySearchTree>) -> (res: (Option<Box<BinarySearchTree>>, i64))
        requires
            node.ordered(),
        ensures
            branch_ordered(res.0),
            node.keys().contains(res.1),
            forall|k: i64| node.keys().contains(k) ==> k <= res.1,
            branch_keys(res.0).insert(res.1) =~= node.keys(),
            res == spec_take_rightmost(*node),
        decreases node,
    {
        proof {
            node.lemma_children_ordered();
        }
        let BinarySearchTree { val, left, right } = *node;
        match right {
            None => {
                assert(branch_keys(right) =~= Multiset::empty());
                assert forall|k: i64| node.keys().contains(k) implies k <= val by {
                    if k != val {
                        assert(branch_keys(node.left).contains(k));
                    }
                }
                (left, val)
            },
            Some(r) => {
                let ghost r_keys = r.keys();
                assert(branch_keys(node.right) == r_keys);
                let (r_rest, top) = Self::take_rightmost(r);
                let rest = BinarySearchTree { val, left, right: r_rest };
                assert forall|k: i64| branch_keys(rest.right).contains(k) implies k > rest.val by {
                    assert(branch_keys(r_rest).insert(top).contains(k));
                    assert(r_keys.contains(k));
                    assert(branch_keys(node.right).contains(k));
                }
                assert(rest.ordered());
                assert(top > val);
                assert forall|k: i64| node.keys().contains(k) implies k <= top by {
                    if branch_keys(node.left).contains(k) {
                        assert(k <= val);
                    } else if k != val {
                        assert(branch_keys(node.right).contains(k));
                    }
                }
                (Some(Box::new(rest)), top)
            },
        }
    }
}

/// The tree that `new(vals[0])` followed by `add` of each later value builds.
pub open spec fn built(vals: Seq<i64>) -> BinarySearchTree
    decreases vals.len(),
{
    if vals.len() <= 1 {
        BinarySearchTree::leaf(vals[0])
    } else {
        built(vals.drop_last()).spec_add(vals.last())
    }
}

proof fn lemma_branch_add(branch: Option<Box<BinarySearchTree>>, v: i64)
    requires
        branch_ordered(branch),
    ensures
        branch_add(branch, v).ordered(),
        branch_add(branch, v).keys() =~= branch_keys(branch).insert(v),
    decreases branch,
{
    match branch {
        Some(node) => lemma_spec_add(*node, v),
        None => {
            assert(branch_keys(None) =~= Multiset::empty());
            let l = BinarySearchTree { val: v, left: None, right: None };
            assert(branch_keys(l.left) =~= Multiset::empty());
            assert(branch_keys(l.right) =~= Multiset::empty());
        },
    }
}

proof fn lemma_spec_add(t: BinarySearchTree, v: i64)
    requires
        t.ordered(),
    ensures
        t.spec_add(v).ordered(),
        t.spec_add(v).keys() =~= t.keys().insert(v),
    decreases t,
{
    t.lemma_children_ordered();
    let r = t.spec_add(v);
    if v <= t.val {
        lemma_branch_add(t.left, v);
        assert(branch_keys(r.left) == branch_add(t.left, v).keys());
        assert forall|k: i64| branch_keys(r.left).contains(k) implies k <= r.val by {
            if k != v {
                assert(branch_keys(t.left).contains(k));
            }
        }
    } else {
        lemma_branch_add(t.right, v);
        assert(branch_keys(r.right) == branch_add(t.right, v).keys());
        assert forall|k: i64| branch_keys(r.right).contains(k) implies k > r.val by {
            if k != v {
                assert(branch_keys(t.right).contains(k));
            }
        }
    }
}

/// A tree built from any non-empty sequence of insertions is ordered and
/// holds exactly the inserted values: `contains` finds every inserted value
/// and no other.
pub proof fn law_built_keys(vals: Seq<i64>)
    requires
        vals.len() >= 1,
    ensures
        built(vals).ordered(),
        built(vals).keys() =~= vals.to_multiset(),
        forall|x: i64| #[trigger] built(vals).keys().contains(x) <==> vals.contains(x),
    decreases vals.len(),
{
    vals.to_multiset_ensures();
    if vals.len() == 1 {
        let l = BinarySearchTree::leaf(vals[0]);
        assert(branch_keys(l.left) =~= Multiset::empty());
        assert(branch_keys(l.right) =~= Multiset::empty());
        assert(vals =~= Seq::<i64>::empty().push(vals[0]));
        Seq::<i64>::empty().to_multiset_ensures();
        assert(vals.to_multiset() =~= Multiset::singleton(vals[0]));
    } else {
        law_built_keys(vals.drop_last());
        lemma_spec_add(built(vals.drop_last()), vals.last());
        assert(vals =~= vals.drop_last().push(vals.last()));
        vals.drop_last().to_multiset_ensures();
    }
    assert forall|x: i64| #[trigger] built(vals).keys().contains(x) <==> vals.contains(x) by {
        vals.to_multiset_ensures();
    }
}

/// Insertion order does not change the keys: two sequences that are
/// permutations of each other build trees that find the same values.
pub proof fn law_order_irrelevant(a: Seq<i64>, b: Seq<i64>)
    requires
        a.len() >= 1,
        a.to_multiset() == b.to_multiset(),
    ensures
        built(a).keys() == built(b).keys(),
        forall|x: i64| #[trigger] built(a).keys().contains(x) == built(b).keys().contains(x),
{
    law_built_keys(a);
    b.to_multiset_ensures();
    a.to_multiset_ensures();
    assert(b.len() >= 1);
    law_built_keys(b);
}

/// After an insertion the tree holds the new key together with every key it
/// held before, and nothing else.
pub proof fn law_added_key_found(before: BinarySearchTree, after: BinarySearchTree, v: i64)
    requires
        after.keys() == before.keys().insert(v),
    ensures
        after.keys().contains(v),
        forall|x: i64| #[trigger] after.keys().contains(x) <==> before.keys().contains(x) || x == v,
{
    assert forall|x: i64| #[trigger] after.keys().contains(x) <==> before.keys().contains(x) || x == v by {
        if x != v {
            assert(after.keys().count(x) == before.keys().count(x));
        }
    }
}

/// Two insertions in either order leave the same keys.
pub proof fn law_insertion_order(t: BinarySearchTree, a: i64, b: i64)
    ensures
        t.keys().insert(a).insert(b) =~= t.keys().insert(b).insert(a),
{
}

/// Deleting a key held once and not at the root leaves it unfound, and every
/// other key found as before. A key held twice stays found after one delete.
pub proof fn law_delete_removes(before: BinarySearchTree, after: BinarySearchTree, v: i64)
    requires
        before.keys().count(v) == 1,
        v != before.root_key(),
        after.keys() == before.keys().remove(v),
    ensures
        !after.keys().contains(v),
        forall|x: i64| x != v ==> (#[trigger] after.keys().contains(x) <==> before.keys().contains(x)),
{
}

} // verus!
