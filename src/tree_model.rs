use vstd::prelude::*;
use vstd::relations::injective_on;

verus! {

/// Identifier of a node inside an `MTree`.
pub type Id = u32;

/// Abstract view of one node: its parent link, its ordered children and its payload.
pub struct TreeNode<T> {
    pub parent: Option<Id>,
    pub children: Seq<Id>,
    pub value: T,
}

/// Abstract view of a whole tree: the arena, the root id and the last id handed out.
pub struct TreeModel<T> {
    pub nodes: Map<Id, TreeNode<T>>,
    pub root: Id,
    pub last_id: Id,
}

/// The links of a tree without its values: what a depth-first walk depends on.
pub struct TreeShape {
    pub links: Map<Id, Seq<Id>>,
    pub last_id: Id,
}

impl TreeShape {
    /// Ids of the subtree rooted at `id`, in depth-first pre-order with children taken
    /// in their stored order.
    pub open spec fn preorder(self, id: Id) -> Seq<Id>
        decreases self.last_id - id + 1, 0int,
    {
        if id <= self.last_id && self.links.contains_key(id) {
            seq![id] + self.preorder_forest(self.links[id], id as int)
        } else {
            seq![]
        }
    }

    /// The pre-orders of the subtrees rooted at `ids`, one after the other; the walk
    /// stops at the first id that is not above `lo` or not at most `last_id`, which
    /// never happens for the children of a node of a well-formed tree.
    pub open spec fn preorder_forest(self, ids: Seq<Id>, lo: int) -> Seq<Id>
        decreases self.last_id - lo, ids.len(),
    {
        if ids.len() == 0 {
            seq![]
        } else if lo < ids[0] && ids[0] <= self.last_id {
            self.preorder(ids[0]) + self.preorder_forest(ids.drop_first(), lo)
        } else {
            seq![]
        }
    }

    /// What a depth-first walk still has to visit when `stack` holds the subtrees
    /// left to walk, the next one on top (at the end).
    pub open spec fn stack_order(self, stack: Seq<Id>) -> Seq<Id>
        decreases stack.len(),
    {
        if stack.len() == 0 {
            seq![]
        } else {
            self.preorder(stack.last()) + self.stack_order(stack.drop_last())
        }
    }
}

impl<T> TreeModel<T> {
    pub open spec fn contains(self, id: Id) -> bool {
        self.nodes.contains_key(id)
    }

    pub open spec fn parent_of(self, id: Id) -> Option<Id> {
        self.nodes[id].parent
    }

    pub open spec fn children_of(self, id: Id) -> Seq<Id> {
        self.nodes[id].children
    }

    pub open spec fn value_of(self, id: Id) -> T {
        self.nodes[id].value
    }

    /// The number of nodes in the tree.
    pub open spec fn size(self) -> nat {
        self.nodes.dom().len()
    }

    /// The structural invariant: a tree rooted at id 0 whose parent and child links
    /// agree, where every parent has a smaller id than its children and no id exceeds
    /// `last_id`.
    pub open spec fn wf(self) -> bool {
        &&& self.root == 0
        &&& self.nodes.dom().finite()
        &&& self.contains(self.root)
        &&& self.parent_of(self.root) is None
        &&& forall|i: Id| #[trigger] self.contains(i) ==> i <= self.last_id
        &&& forall|i: Id| #[trigger] self.contains(i) ==> self.children_of(i).no_duplicates()
        &&& forall|i: Id|
            #![trigger self.nodes[i]]
            self.contains(i) && i != self.root ==> {
                &&& self.parent_of(i) is Some
                &&& self.parent_of(i)->0 < i
                &&& self.contains(self.parent_of(i)->0)
                &&& self.children_of(self.parent_of(i)->0).contains(i)
            }
        &&& forall|i: Id, k: int|
            #![trigger self.children_of(i)[k]]
            self.contains(i) && 0 <= k < self.children_of(i).len() ==> {
                &&& self.contains(self.children_of(i)[k])
                &&& self.parent_of(self.children_of(i)[k]) == Some(i)
            }
    }

    /// The node reached from `id` by following `k` parent links, if every link exists.
    pub open spec fn ancestor(self, id: Id, k: nat) -> Option<Id>
        decreases k,
    {
        if !self.contains(id) {
            None
        } else if k == 0 {
            Some(id)
        } else {
            match self.parent_of(id) {
                Some(p) => self.ancestor(p, (k - 1) as nat),
                None => None,
            }
        }
    }

    /// The tree's links: each node's ordered children, and the last id handed out.
    pub open spec fn shape(self) -> TreeShape {
        TreeShape { links: self.nodes.map_values(|n: TreeNode<T>| n.children), last_id: self.last_id }
    }

    /// Node `x` is `y` itself or one of its ancestors.
    pub open spec fn is_descendant(self, y: Id, x: Id) -> bool {
        self.contains(y) && exists|k: nat| self.ancestor(y, k) == Some(x)
    }

    /// The number of parent links from node `id` up to the root.
    pub open spec fn depth(self, id: Id) -> nat
        decreases id,
    {
        if self.contains(id) && self.parent_of(id) is Some && self.parent_of(id)->0 < id {
            self.depth(self.parent_of(id)->0) + 1
        } else {
            0
        }
    }

    /// The same tree with the value of node `id` replaced by `value`.
    pub open spec fn with_value(self, id: Id, value: T) -> TreeModel<T> {
        TreeModel {
            nodes: self.nodes.insert(
                id,
                TreeNode { parent: self.parent_of(id), children: self.children_of(id), value },
            ),
            root: self.root,
            last_id: self.last_id,
        }
    }

    /// The same tree with its id counter advanced by one.
    pub open spec fn bumped(self) -> TreeModel<T> {
        TreeModel { nodes: self.nodes, root: self.root, last_id: (self.last_id + 1) as Id }
    }

    /// The tree after a new node `last_id + 1` holding `value` was appended under `parent`.
    pub open spec fn with_child(self, parent: Id, value: T) -> TreeModel<T> {
        let n = (self.last_id + 1) as Id;
        TreeModel {
            nodes: self.nodes.insert(
                parent,
                TreeNode {
                    parent: self.parent_of(parent),
                    children: self.children_of(parent).push(n),
                    value: self.value_of(parent),
                },
            ).insert(n, TreeNode { parent: Some(parent), children: Seq::empty(), value }),
            root: self.root,
            last_id: n,
        }
    }

    /// The node `k` of this (donor) tree once its ids are moved up by `off` and its
    /// root is hung below `target`.
    pub open spec fn shifted(self, k: Id, off: int, target: Id) -> TreeNode<T> {
        TreeNode {
            parent: match self.parent_of(k) {
                Some(p) => Some((p + off) as Id),
                None => Some(target),
            },
            children: self.children_of(k).map_values(|c: Id| (c + off) as Id),
            value: self.value_of(k),
        }
    }

    /// The tree after `donor` was grafted below `target`: the donor's ids are moved
    /// up by `last_id + 1`, its root becomes the last child of `target`, and the
    /// counter moves past the donor's last id.
    pub open spec fn graft(self, target: Id, donor: TreeModel<T>) -> TreeModel<T> {
        let off = self.last_id + 1;
        TreeModel {
            nodes: Map::new(
                |k: Id| self.contains(k) || (off <= k && donor.contains((k - off) as Id)),
                |k: Id|
                    if k == target {
                        TreeNode {
                            parent: self.parent_of(target),
                            children: self.children_of(target).push((donor.root + off) as Id),
                            value: self.value_of(target),
                        }
                    } else if self.contains(k) {
                        self.nodes[k]
                    } else {
                        donor.shifted((k - off) as Id, off, target)
                    },
            ),
            root: self.root,
            last_id: (donor.last_id + off) as Id,
        }
    }
}


/// The tree's nodes together with the donor's nodes below `i`, moved up and hung
/// below `target`: the state of a graft that has copied the donor's ids below `i`.
pub(crate) open spec fn graft_prefix<T>(t: TreeModel<T>, target: Id, d: TreeModel<T>, i: int) -> Map<Id, TreeNode<T>> {
    let off = t.last_id + 1;
    Map::new(
        |k: Id| t.contains(k) || (off <= k && k - off < i && d.contains((k - off) as Id)),
        |k: Id| if t.contains(k) { t.nodes[k] } else { d.shifted((k - off) as Id, off, target) },
    )
}

pub(crate) proof fn lemma_graft_prefix_step<T>(t: TreeModel<T>, target: Id, d: TreeModel<T>, i: int)
    requires
        t.wf(),
        0 <= i <= d.last_id,
        t.last_id + 1 + d.last_id <= u32::MAX,
    ensures
        d.contains(i as Id) ==> graft_prefix(t, target, d, i + 1) == graft_prefix(t, target, d, i).insert(
            (i + t.last_id + 1) as Id,
            d.shifted(i as Id, t.last_id + 1, target),
        ),
        !d.contains(i as Id) ==> graft_prefix(t, target, d, i + 1) == graft_prefix(t, target, d, i),
{
    let off = t.last_id + 1;
    let k = (i + off) as Id;
    assert((k - off) as Id == i as Id);
    assert(!t.contains(k)) by {
        if t.contains(k) {
            assert(k <= t.last_id);
        }
    }
    if d.contains(i as Id) {
        assert(graft_prefix(t, target, d, i + 1) =~= graft_prefix(t, target, d, i).insert(
            k,
            d.shifted(i as Id, off, target),
        ));
    } else {
        assert(graft_prefix(t, target, d, i + 1) =~= graft_prefix(t, target, d, i));
    }
}

pub(crate) proof fn lemma_graft_prefix_full<T>(t: TreeModel<T>, target: Id, d: TreeModel<T>)
    requires
        t.wf(),
        d.wf(),
        t.contains(target),
        t.last_id + 1 + d.last_id <= u32::MAX,
    ensures
        t.graft(target, d).nodes == graft_prefix(t, target, d, d.last_id + 1).insert(
            target,
            TreeNode {
                parent: t.parent_of(target),
                children: t.children_of(target).push((d.root + t.last_id + 1) as Id),
                value: t.value_of(target),
            },
        ),
{
    let off = t.last_id + 1;
    assert forall|k: Id| #[trigger] d.contains(k) implies k < d.last_id + 1 by {}
    assert forall|k: Id| t.contains(k) implies !(off <= k) by {
        assert(k <= t.last_id);
    }
    assert(t.graft(target, d).nodes =~= graft_prefix(t, target, d, d.last_id + 1).insert(
        target,
        TreeNode {
            parent: t.parent_of(target),
            children: t.children_of(target).push((d.root + t.last_id + 1) as Id),
            value: t.value_of(target),
        },
    ));
}

/// The ids that a donor's nodes take once they are moved up by `off`.
pub open spec fn shifted_ids<T>(d: TreeModel<T>, off: int) -> Set<Id> {
    d.nodes.dom().map(|j: Id| (j + off) as Id)
}

proof fn lemma_graft_dom<T>(t: TreeModel<T>, target: Id, d: TreeModel<T>)
    requires
        t.wf(),
        d.wf(),
        t.contains(target),
        t.last_id + 1 + d.last_id <= u32::MAX,
    ensures
        t.graft(target, d).nodes.dom() == t.nodes.dom() + shifted_ids(d, t.last_id + 1),
        t.nodes.dom().disjoint(shifted_ids(d, t.last_id + 1)),
        t.graft(target, d).nodes.dom().finite(),
        t.graft(target, d).size() == t.size() + d.size(),
{
    let g = t.graft(target, d);
    let off = t.last_id + 1;
    let shift = |j: Id| (j + off) as Id;
    let moved = shifted_ids(d, off);
    assert(moved == d.nodes.dom().map(shift));
    assert(injective_on(shift, d.nodes.dom())) by {
        assert forall|a: Id, b: Id|
            d.nodes.dom().contains(a) && d.nodes.dom().contains(b) && #[trigger] shift(a)
                == #[trigger] shift(b) implies a == b by {
            assert(d.contains(a) && d.contains(b));
            assert(a <= d.last_id && b <= d.last_id);
        }
    }
    assert forall|k: Id| g.nodes.dom().contains(k) implies #[trigger] (t.nodes.dom()
        + moved).contains(k) by {
        if !t.contains(k) {
            let j = (k - off) as Id;
            assert(shift(j) == k);
            assert(d.nodes.dom().contains(j));
        }
    }
    assert forall|k: Id| #[trigger] (t.nodes.dom() + moved).contains(k) implies g.nodes.dom().contains(
        k,
    ) by {
        if !t.contains(k) {
            assert(moved.contains(k));
            let j = choose|j: Id| d.nodes.dom().contains(j) && k == shift(j);
            assert(d.contains(j));
            assert(j <= d.last_id);
            assert((k - off) as Id == j);
        }
    }
    assert(g.nodes.dom() =~= t.nodes.dom() + moved);
    vstd::set_lib::lemma_map_size(d.nodes.dom(), moved, shift);
    assert forall|k: Id| t.nodes.dom().contains(k) && #[trigger] moved.contains(k) implies false by {
        let j = choose|j: Id| d.nodes.dom().contains(j) && k == shift(j);
        assert(t.contains(k) && d.contains(j));
        assert(k <= t.last_id);
    }
    assert(t.nodes.dom().disjoint(moved));
    vstd::set_lib::lemma_set_disjoint_lens(t.nodes.dom(), moved);
}

proof fn lemma_graft_children_unique<T>(t: TreeModel<T>, target: Id, d: TreeModel<T>)
    requires
        t.wf(),
        d.wf(),
        t.contains(target),
        t.last_id + 1 + d.last_id <= u32::MAX,
    ensures
        forall|i: Id| #[trigger] t.graft(target, d).contains(i) ==> t.graft(target, d).children_of(i).no_duplicates(),
{
    let g = t.graft(target, d);
    let off = t.last_id + 1;
    assert forall|i: Id| #[trigger] g.contains(i) implies g.children_of(i).no_duplicates() by {
        if i == target {
            let cs = t.children_of(target);
            assert forall|a: int, b: int|
                0 <= a < g.children_of(i).len() && 0 <= b < g.children_of(i).len() && a != b
                    implies g.children_of(i)[a] != g.children_of(i)[b] by {
                if a < cs.len() {
                    assert(t.contains(cs[a]));
                }
                if b < cs.len() {
                    assert(t.contains(cs[b]));
                }
            }
        } else if !t.contains(i) {
            let j = (i - off) as Id;
            let cs = d.children_of(j);
            assert forall|a: int, b: int|
                0 <= a < g.children_of(i).len() && 0 <= b < g.children_of(i).len() && a != b
                    implies g.children_of(i)[a] != g.children_of(i)[b] by {
                assert(d.contains(cs[a]) && d.contains(cs[b]));
                assert(cs[a] <= d.last_id && cs[b] <= d.last_id);
            }
        }
    }
}

proof fn lemma_graft_parents<T>(t: TreeModel<T>, target: Id, d: TreeModel<T>)
    requires
        t.wf(),
        d.wf(),
        t.contains(target),
        t.last_id + 1 + d.last_id <= u32::MAX,
    ensures
        ({
            let g = t.graft(target, d);
            forall|i: Id|
                #![trigger g.nodes[i]]
                g.contains(i) && i != g.root ==> {
                    &&& g.parent_of(i) is Some
                    &&& g.parent_of(i)->0 < i
                    &&& g.contains(g.parent_of(i)->0)
                    &&& g.children_of(g.parent_of(i)->0).contains(i)
                }
        }),
{
    let g = t.graft(target, d);
    let off = t.last_id + 1;
    assert forall|i: Id| g.contains(i) && i != g.root implies {
        &&& #[trigger] g.nodes[i].parent is Some
        &&& g.parent_of(i)->0 < i
        &&& g.contains(g.parent_of(i)->0)
        &&& g.children_of(g.parent_of(i)->0).contains(i)
    } by {
        if t.contains(i) {
            assert(t.nodes[i].parent is Some);
            let p = t.parent_of(i)->0;
            assert(t.children_of(p).contains(i));
            if p == target {
                let k = choose|k: int| 0 <= k < t.children_of(p).len() && t.children_of(p)[k] == i;
                assert(g.children_of(p)[k] == i);
            }
        } else {
            let j = (i - off) as Id;
            assert(d.contains(j));
            if j == d.root {
                assert(g.children_of(target).last() == i);
            } else {
                assert(d.nodes[j].parent is Some);
                let q = d.parent_of(j)->0;
                let p = (q + off) as Id;
                assert(d.contains(q) && q <= d.last_id);
                assert((p - off) as Id == q);
                assert(d.children_of(q).contains(j));
                let k = choose|k: int| 0 <= k < d.children_of(q).len() && d.children_of(q)[k] == j;
                assert(g.children_of(p)[k] == i);
            }
        }
    }
}

proof fn lemma_graft_children<T>(t: TreeModel<T>, target: Id, d: TreeModel<T>)
    requires
        t.wf(),
        d.wf(),
        t.contains(target),
        t.last_id + 1 + d.last_id <= u32::MAX,
    ensures
        ({
            let g = t.graft(target, d);
            forall|i: Id, k: int|
                #![trigger g.children_of(i)[k]]
                g.contains(i) && 0 <= k < g.children_of(i).len() ==> {
                    &&& g.contains(g.children_of(i)[k])
                    &&& g.parent_of(g.children_of(i)[k]) == Some(i)
                }
        }),
{
    let g = t.graft(target, d);
    let off = t.last_id + 1;
    assert forall|i: Id, k: int| g.contains(i) && 0 <= k < g.children_of(i).len() implies {
        &&& g.contains(#[trigger] g.children_of(i)[k])
        &&& g.parent_of(g.children_of(i)[k]) == Some(i)
    } by {
        if t.contains(i) {
            if i == target && k == t.children_of(target).len() {
                let c = (d.root + off) as Id;
                assert((c - off) as Id == d.root);
            } else {
                assert(t.children_of(i)[k] == g.children_of(i)[k]);
                assert(t.contains(t.children_of(i)[k]));
            }
        } else {
            let j = (i - off) as Id;
            let c = d.children_of(j)[k];
            assert(d.contains(c) && c <= d.last_id);
            assert(d.parent_of(c) == Some(j));
            let gc = (c + off) as Id;
            assert(g.children_of(i)[k] == gc);
            assert((gc - off) as Id == c);
        }
    }
}

/// Grafting a well-formed donor below a node of a well-formed tree gives a
/// well-formed tree.
pub(crate) proof fn lemma_graft_wf<T>(t: TreeModel<T>, target: Id, d: TreeModel<T>)
    requires
        t.wf(),
        d.wf(),
        t.contains(target),
        t.last_id + 1 + d.last_id <= u32::MAX,
    ensures
        t.graft(target, d).wf(),
        t.graft(target, d).size() == t.size() + d.size(),
{
    let g = t.graft(target, d);
    let off = t.last_id + 1;
    lemma_graft_dom(t, target, d);
    lemma_graft_children_unique(t, target, d);
    lemma_graft_parents(t, target, d);
    lemma_graft_children(t, target, d);
    assert forall|i: Id| #[trigger] g.contains(i) implies i <= g.last_id by {
        if !t.contains(i) {
            assert(d.contains((i - off) as Id));
        }
    }
}


proof fn lemma_path_to_root<T>(t: TreeModel<T>, id: Id) -> (k: nat)
    requires
        t.wf(),
        t.contains(id),
    ensures
        t.ancestor(id, k) == Some(t.root),
        k < t.nodes.dom().filter(|x: Id| x <= id).len(),
    decreases id,
{
    let below = t.nodes.dom().filter(|x: Id| x <= id);
    assert(below.contains(id));
    if id == t.root {
        vstd::set_lib::lemma_len_subset(set![id], below);
        0
    } else {
        assert(t.nodes[id].parent is Some);
        let p = t.parent_of(id)->0;
        let kp = lemma_path_to_root(t, p);
        let below_p = t.nodes.dom().filter(|x: Id| x <= p);
        assert(below_p.subset_of(below.remove(id)));
        vstd::set_lib::lemma_len_subset(below_p, below.remove(id));
        kp + 1
    }
}

/// Every node of a well-formed tree reaches the root by following parent links, in
/// fewer steps than the tree has nodes; a non-root node is listed as a child by its
/// parent, once, and by no other node; the root is nobody's child; every listed child
/// is a node; and no id exceeds the last id handed out.
pub proof fn lemma_tree_invariants<T>(t: TreeModel<T>, id: Id)
    requires
        t.wf(),
        t.contains(id),
    ensures
        exists|k: nat| k < t.size() && t.ancestor(id, k) == Some(t.root),
        id <= t.last_id,
        id != t.root ==> t.parent_of(id) is Some && t.contains(t.parent_of(id)->0),
        forall|j: Id|
            t.contains(j) && #[trigger] t.children_of(j).contains(id) ==> t.parent_of(id) == Some(j),
        id != t.root ==> t.children_of(t.parent_of(id)->0).contains(id),
        t.children_of(id).no_duplicates(),
        forall|j: Id| t.contains(j) ==> !(#[trigger] t.children_of(j).contains(t.root)),
        forall|k: int| 0 <= k < t.children_of(id).len() ==> #[trigger] t.contains(t.children_of(id)[k]),
{
    let k = lemma_path_to_root(t, id);
    vstd::set_lib::lemma_len_subset(t.nodes.dom().filter(|x: Id| x <= id), t.nodes.dom());
    if id != t.root {
        assert(t.nodes[id].parent is Some);
    }
    assert forall|j: Id| t.contains(j) && #[trigger] t.children_of(j).contains(id) implies t.parent_of(id) == Some(j) by {
        let m = choose|m: int| 0 <= m < t.children_of(j).len() && t.children_of(j)[m] == id;
        assert(t.parent_of(t.children_of(j)[m]) == Some(j));
    }
    assert forall|j: Id| t.contains(j) implies !(#[trigger] t.children_of(j).contains(t.root)) by {
        if t.children_of(j).contains(t.root) {
            let m = choose|m: int| 0 <= m < t.children_of(j).len() && t.children_of(j)[m] == t.root;
            assert(t.parent_of(t.children_of(j)[m]) == Some(j));
        }
    }
    assert forall|k: int| 0 <= k < t.children_of(id).len() implies #[trigger] t.contains(t.children_of(id)[k]) by {}
}

/// Merging a donor tree below a node adds exactly the donor's nodes, under fresh ids
/// that clash with none already present: the donor's node `j` becomes node `j + off`
/// (with `off` the destination's last id plus one), and the counter moves to the
/// donor's last id plus `off`. Each moved node keeps
/// its value, its children and its parent under the same shift, and the donor's root
/// becomes the last child of the merge target. The destination's other nodes are
/// unchanged and the result is well formed.
pub proof fn lemma_merge_correct<T>(t: TreeModel<T>, target: Id, d: TreeModel<T>)
    requires
        t.wf(),
        d.wf(),
        t.contains(target),
        t.last_id + 1 + d.last_id <= u32::MAX,
    ensures
        ({
            let g = t.graft(target, d);
            let off = t.last_id + 1;
            &&& g.wf()
            &&& g.size() == t.size() + d.size()
            &&& g.nodes.dom() == t.nodes.dom() + shifted_ids(d, off)
            &&& t.nodes.dom().disjoint(shifted_ids(d, off))
            &&& g.last_id == d.last_id + off
            &&& g.children_of(target) == t.children_of(target).push((d.root + off) as Id)
            &&& g.parent_of((d.root + off) as Id) == Some(target)
            &&& forall|i: Id| t.contains(i) && i != target ==> #[trigger] g.nodes[i] == t.nodes[i]
            &&& forall|j: Id|
                #[trigger] d.contains(j) ==> {
                    let n = (j + off) as Id;
                    &&& g.contains(n)
                    &&& g.value_of(n) == d.value_of(j)
                    &&& g.children_of(n) == d.children_of(j).map_values(|c: Id| (c + off) as Id)
                    &&& j != d.root ==> g.parent_of(n) == Some((d.parent_of(j)->0 + off) as Id)
                }
        }),
{
    let g = t.graft(target, d);
    let off = t.last_id + 1;
    lemma_graft_wf(t, target, d);
    lemma_graft_dom(t, target, d);
    assert(!t.contains((d.root + off) as Id)) by {
        if t.contains((d.root + off) as Id) {
            assert((d.root + off) as Id <= t.last_id);
        }
    }
    assert(((d.root + off) as Id - off) as Id == d.root);
    assert forall|j: Id| #[trigger] d.contains(j) implies {
        let n = (j + off) as Id;
        &&& g.contains(n)
        &&& g.value_of(n) == d.value_of(j)
        &&& g.children_of(n) == d.children_of(j).map_values(|c: Id| (c + off) as Id)
        &&& j != d.root ==> g.parent_of(n) == Some((d.parent_of(j)->0 + off) as Id)
    } by {
        let n = (j + off) as Id;
        assert(j <= d.last_id);
        assert((n - off) as Id == j);
        assert(!t.contains(n)) by {
            if t.contains(n) {
                assert(n <= t.last_id);
            }
        }
        if j != d.root {
            assert(d.nodes[j].parent is Some);
        }
    }
}


/// Changing a value keeps a tree well formed and keeps its links.
pub(crate) proof fn lemma_with_value<T>(t: TreeModel<T>, id: Id, value: T)
    requires
        t.wf(),
        t.contains(id),
    ensures
        t.with_value(id, value).wf(),
        t.with_value(id, value).shape() == t.shape(),
        t.with_value(id, value).nodes.dom() == t.nodes.dom(),
{
    let w = t.with_value(id, value);
    assert(w.nodes.dom() =~= t.nodes.dom());
    assert forall|i: Id| #[trigger] w.contains(i) implies i <= w.last_id && w.children_of(i).no_duplicates() by {
        assert(t.contains(i));
    }
    assert(w.shape().links =~= t.shape().links);
    assert forall|i: Id| w.contains(i) && i != w.root implies {
        &&& #[trigger] w.nodes[i].parent is Some
        &&& w.parent_of(i)->0 < i
        &&& w.contains(w.parent_of(i)->0)
        &&& w.children_of(w.parent_of(i)->0).contains(i)
    } by {
        assert(t.nodes[i].parent is Some);
    }
    assert forall|i: Id, k: int| w.contains(i) && 0 <= k < w.children_of(i).len() implies {
        &&& w.contains(#[trigger] w.children_of(i)[k])
        &&& w.parent_of(w.children_of(i)[k]) == Some(i)
    } by {
        assert(t.children_of(i)[k] == w.children_of(i)[k]);
        assert(t.contains(t.children_of(i)[k]));
    }
}

pub(crate) proof fn lemma_depth_bound<T>(t: TreeModel<T>, id: Id)
    ensures
        t.depth(id) <= id,
    decreases id,
{
    if t.contains(id) && t.parent_of(id) is Some && t.parent_of(id)->0 < id {
        lemma_depth_bound(t, t.parent_of(id)->0);
    }
}

/// One more parent link from the `k`-th ancestor of `y`.
proof fn lemma_ancestor_next<T>(t: TreeModel<T>, y: Id, k: nat)
    ensures
        t.ancestor(y, k + 1) == (match t.ancestor(y, k) {
            Some(a) => if t.parent_of(a) is Some && t.contains(t.parent_of(a)->0) {
                t.parent_of(a)
            } else {
                None
            },
            None => None,
        }),
    decreases k,
{
    if t.contains(y) {
        if let Some(p) = t.parent_of(y) {
            assert(t.ancestor(y, k + 1) == t.ancestor(p, k));
            if k > 0 {
                lemma_ancestor_next(t, p, (k - 1) as nat);
                assert(t.ancestor(y, k) == t.ancestor(p, (k - 1) as nat));
                assert((k - 1 + 1) as nat == k);
            } else {
                assert(t.ancestor(y, 0) == Some(y));
                assert(t.ancestor(p, 0) == if t.contains(p) { Some(p) } else { None::<Id> });
            }
        }
    }
}

/// Following `k + j` links from `y` is following `j` links from its `k`-th ancestor.
proof fn lemma_ancestor_compose<T>(t: TreeModel<T>, y: Id, k: nat, j: nat)
    requires
        t.ancestor(y, k) is Some,
    ensures
        t.ancestor(y, k + j) == t.ancestor(t.ancestor(y, k)->0, j),
    decreases k,
{
    if k > 0 {
        let p = t.parent_of(y)->0;
        lemma_ancestor_compose(t, p, (k - 1) as nat, j);
        assert(t.ancestor(y, k + j) == t.ancestor(p, (k - 1 + j) as nat));
    }
}

/// Each parent link goes to a node with a smaller id.
proof fn lemma_ancestor_below<T>(t: TreeModel<T>, y: Id, k: nat)
    requires
        t.wf(),
        t.ancestor(y, k) is Some,
    ensures
        t.contains(t.ancestor(y, k)->0),
        t.ancestor(y, k)->0 + k <= y,
    decreases k,
{
    if k > 0 {
        let p = t.parent_of(y)->0;
        assert(y != t.root);
        assert(t.nodes[y].parent is Some);
        lemma_ancestor_below(t, p, (k - 1) as nat);
    }
}

/// A node is reached from `y` after one number of links only.
proof fn lemma_ancestor_unique<T>(t: TreeModel<T>, y: Id, k1: nat, k2: nat)
    requires
        t.wf(),
        t.ancestor(y, k1) is Some,
        t.ancestor(y, k1) == t.ancestor(y, k2),
    ensures
        k1 == k2,
{
    let a = t.ancestor(y, k1)->0;
    if k1 < k2 {
        lemma_ancestor_compose(t, y, k1, (k2 - k1) as nat);
        assert((k1 + (k2 - k1)) as nat == k2);
        lemma_ancestor_below(t, a, (k2 - k1) as nat);
    } else if k2 < k1 {
        lemma_ancestor_compose(t, y, k2, (k1 - k2) as nat);
        assert((k2 + (k1 - k2)) as nat == k1);
        lemma_ancestor_below(t, a, (k1 - k2) as nat);
    }
}

/// The pre-order of a node lists exactly its descendants, each once.
proof fn lemma_preorder_subtree<T>(t: TreeModel<T>, x: Id)
    requires
        t.wf(),
        t.contains(x),
    ensures
        forall|y: Id| #[trigger] t.shape().preorder(x).contains(y) <==> t.is_descendant(y, x),
        t.shape().preorder(x).no_duplicates(),
    decreases t.last_id - x + 1, 0int,
{
    let sh = t.shape();
    let cs = t.children_of(x);
    assert(x <= t.last_id);
    assert(sh.links.contains_key(x) && sh.links[x] == cs);
    assert forall|k: int| 0 <= k < cs.len() implies #[trigger] t.parent_of(cs[k]) == Some(x)
        && t.contains(cs[k]) by {}
    lemma_preorder_children(t, x, cs);
    let f = sh.preorder_forest(cs, x as int);
    assert(sh.preorder(x) == seq![x] + f);
    assert forall|y: Id| #[trigger] sh.preorder(x).contains(y) <==> t.is_descendant(y, x) by {
        if sh.preorder(x).contains(y) {
            let m = choose|m: int| 0 <= m < sh.preorder(x).len() && sh.preorder(x)[m] == y;
            if m == 0 {
                assert(t.ancestor(y, 0) == Some(x));
            } else {
                assert(f.contains(y)) by {
                    assert(f[m - 1] == y);
                }
                let i = choose|i: int| 0 <= i < cs.len() && #[trigger] t.is_descendant(y, cs[i]);
                let k = choose|k: nat| t.ancestor(y, k) == Some(cs[i]);
                lemma_ancestor_next(t, y, k);
                assert(t.ancestor(y, k + 1) == Some(x));
            }
        }
        if t.is_descendant(y, x) {
            let k = choose|k: nat| t.ancestor(y, k) == Some(x);
            if k == 0 {
                assert(sh.preorder(x)[0] == y);
            } else {
                let k0 = (k - 1) as nat;
                lemma_ancestor_next(t, y, k0);
                let a = t.ancestor(y, k0)->0;
                lemma_ancestor_below(t, y, k0);
                assert(t.parent_of(a) == Some(x));
                assert(a != t.root);
                assert(t.nodes[a].parent is Some);
                assert(cs.contains(a));
                let i = choose|i: int| 0 <= i < cs.len() && cs[i] == a;
                assert(t.is_descendant(y, cs[i]));
                assert(f.contains(y));
                let m = choose|m: int| 0 <= m < f.len() && f[m] == y;
                assert(sh.preorder(x)[m + 1] == y);
            }
        }
    }
    assert(!f.contains(x)) by {
        if f.contains(x) {
            let i = choose|i: int| 0 <= i < cs.len() && #[trigger] t.is_descendant(x, cs[i]);
            let k = choose|k: nat| t.ancestor(x, k) == Some(cs[i]);
            lemma_ancestor_below(t, x, k);
            assert(x < cs[i]) by {
                assert(t.nodes[cs[i]].parent is Some);
            }
        }
    }
    assert forall|a: int, b: int|
        0 <= a < sh.preorder(x).len() && 0 <= b < sh.preorder(x).len() && a != b implies
        sh.preorder(x)[a] != sh.preorder(x)[b] by {
        if a == 0 && b > 0 {
            assert(sh.preorder(x)[b] == f[b - 1]);
        } else if b == 0 && a > 0 {
            assert(sh.preorder(x)[a] == f[a - 1]);
        } else if a > 0 && b > 0 {
            assert(sh.preorder(x)[a] == f[a - 1] && sh.preorder(x)[b] == f[b - 1]);
        }
    }
}

/// The pre-orders of distinct children of `x`, one after the other, list exactly
/// their descendants, each once.
proof fn lemma_preorder_children<T>(t: TreeModel<T>, x: Id, cs: Seq<Id>)
    requires
        t.wf(),
        t.contains(x),
        cs.no_duplicates(),
        forall|k: int| 0 <= k < cs.len() ==> #[trigger] t.parent_of(cs[k]) == Some(x) && t.contains(cs[k]),
    ensures
        forall|y: Id|
            #[trigger] t.shape().preorder_forest(cs, x as int).contains(y) <==> exists|i: int|
                0 <= i < cs.len() && #[trigger] t.is_descendant(y, cs[i]),
        t.shape().preorder_forest(cs, x as int).no_duplicates(),
    decreases t.last_id - x, cs.len(),
{
    let sh = t.shape();
    if cs.len() > 0 {
        let c = cs[0];
        let rest = cs.drop_first();
        assert(t.parent_of(c) == Some(x) && t.contains(c));
        assert(c != t.root);
        assert(t.nodes[c].parent is Some);
        assert(x < c && c <= t.last_id);
        assert forall|k: int| 0 <= k < rest.len() implies #[trigger] t.parent_of(rest[k]) == Some(x)
            && t.contains(rest[k]) by {
            assert(rest[k] == cs[k + 1]);
        }
        lemma_preorder_subtree(t, c);
        lemma_preorder_children(t, x, rest);
        let p = sh.preorder(c);
        let f = sh.preorder_forest(rest, x as int);
        assert(sh.preorder_forest(cs, x as int) == p + f);
        assert forall|y: Id|
            #[trigger] sh.preorder_forest(cs, x as int).contains(y) <==> exists|i: int|
                0 <= i < cs.len() && #[trigger] t.is_descendant(y, cs[i]) by {
            if (p + f).contains(y) {
                let m = choose|m: int| 0 <= m < (p + f).len() && (p + f)[m] == y;
                if m < p.len() {
                    assert(p[m] == y);
                    assert(p.contains(y));
                    assert(t.is_descendant(y, cs[0]));
                } else {
                    assert(f[m - p.len()] == y);
                    assert(f.contains(y));
                    let i = choose|i: int| 0 <= i < rest.len() && #[trigger] t.is_descendant(y, rest[i]);
                    assert(t.is_descendant(y, cs[i + 1]));
                }
            }
            if exists|i: int| 0 <= i < cs.len() && #[trigger] t.is_descendant(y, cs[i]) {
                let i = choose|i: int| 0 <= i < cs.len() && #[trigger] t.is_descendant(y, cs[i]);
                if i == 0 {
                    assert(p.contains(y));
                    let m = choose|m: int| 0 <= m < p.len() && p[m] == y;
                    assert((p + f)[m] == y);
                } else {
                    assert(t.is_descendant(y, rest[i - 1]));
                    assert(f.contains(y));
                    let m = choose|m: int| 0 <= m < f.len() && f[m] == y;
                    assert((p + f)[p.len() + m] == y);
                }
            }
        }
        assert forall|a: int, b: int| 0 <= a < p.len() && 0 <= b < f.len() implies p[a] != f[b] by {
            let y = p[a];
            if y == f[b] {
                assert(p.contains(y));
                assert(f.contains(y));
                let i = choose|i: int| 0 <= i < rest.len() && #[trigger] t.is_descendant(y, rest[i]);
                let k1 = choose|k: nat| t.ancestor(y, k) == Some(c);
                let k2 = choose|k: nat| t.ancestor(y, k) == Some(rest[i]);
                assert(rest[i] == cs[i + 1]);
                assert(t.parent_of(rest[i]) == Some(x) && t.contains(rest[i]));
                lemma_ancestor_next(t, y, k1);
                lemma_ancestor_next(t, y, k2);
                lemma_ancestor_unique(t, y, k1 + 1, k2 + 1);
            }
        }
        assert forall|a: int, b: int|
            0 <= a < (p + f).len() && 0 <= b < (p + f).len() && a != b implies (p + f)[a] != (p + f)[b] by {
            if a < p.len() && b >= p.len() {
                assert(p[a] != f[b - p.len()]);
            } else if b < p.len() && a >= p.len() {
                assert(p[b] != f[a - p.len()]);
            }
        }
    }
}

/// The pre-order walk from the root of a well-formed tree lists every node exactly
/// once, and nothing else; so a walk yields as many values as the tree has nodes.
pub proof fn lemma_preorder_lists_every_node<T>(t: TreeModel<T>)
    requires
        t.wf(),
    ensures
        forall|y: Id| #[trigger] t.shape().preorder(t.root).contains(y) <==> t.contains(y),
        t.shape().preorder(t.root).no_duplicates(),
        t.shape().preorder(t.root).len() == t.size(),
{
    let po = t.shape().preorder(t.root);
    lemma_preorder_subtree(t, t.root);
    assert forall|y: Id| #[trigger] po.contains(y) <==> t.contains(y) by {
        if t.contains(y) {
            let k = lemma_path_to_root(t, y);
            assert(t.is_descendant(y, t.root));
        }
    }
    assert(po.to_set() =~= t.nodes.dom());
    po.unique_seq_to_set();
}

} // verus!
