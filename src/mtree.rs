use vstd::prelude::*;
use std::collections::HashMap;
pub use crate::tree_model::{Id, TreeModel, TreeNode, TreeShape};
use crate::tree_model::{
    graft_prefix, lemma_depth_bound, lemma_graft_prefix_full, lemma_graft_prefix_step,
    lemma_graft_wf, lemma_with_value,
};

verus! {

broadcast use vstd::std_specs::hash::group_hash_axioms;

#[derive(Debug)]
struct Node {
    parent: Option<Id>,
    children: Vec<Id>,
}

/// A multi-way tree stored in an arena keyed by node id.
#[derive(Debug)]
pub struct MTree<T> {
    node_map: HashMap<Id, (Node, T)>,
    first_id: Id,
    last_id: Id,
}

/// A handle to one node of an `MTree`. It borrows the whole tree exclusively, so at
/// most one handle into a tree is alive at a time. Methods on a handle expect its id
/// to name a node of its tree, which holds for every handle the tree hands out. The
/// fields are public so that contracts can relate the borrowed tree to its owner;
/// handles are meant to be made by the tree and by other handles only.
pub struct NodeHandle<'a, T> {
    pub tree: &'a mut MTree<T>,
    pub id: Id,
}

/// A depth-first, pre-order walk over the values of an `MTree`.
pub struct MTreeIter<'a, T> {
    tree: &'a MTree<T>,
    stack: Vec<Id>,
}

/// A depth-first, pre-order walk that hands out each value mutably in turn. The
/// walk reads the links of a node before it hands out that node's value, and each
/// value handed out must be released before the next call. As with `NodeHandle`, the
/// fields are public so that contracts can relate the borrowed tree to its owner.
pub struct MTreeIterMut<'a, T> {
    pub tree: &'a mut MTree<T>,
    pub stack: Vec<Id>,
}

/// Error reported by tree lookups.
#[derive(Debug, Clone, Copy, PartialEq, Eq, Structural)]
pub enum NodeError {
    NotFound(Id),
}

spec fn node_view<T>(e: (Node, T)) -> TreeNode<T> {
    TreeNode { parent: e.0.parent, children: e.0.children@, value: e.1 }
}

impl<T> View for MTree<T> {
    type V = TreeModel<T>;

    closed spec fn view(&self) -> TreeModel<T> {
        TreeModel {
            nodes: self.node_map@.map_values(|e: (Node, T)| node_view(e)),
            root: self.first_id,
            last_id: self.last_id,
        }
    }
}

impl<T> MTree<T> {
    /// Creates a tree holding a single root node with id 0.
    pub fn new(root_value: T) -> (r: Self)
        ensures
            r@.wf(),
            r@.root == 0,
            r@.last_id == 0,
            r@.nodes == map![0u32 => TreeNode { parent: None, children: Seq::empty(), value: root_value }],
    {
        let mut node_map: HashMap<Id, (Node, T)> = HashMap::new();
        let root_node = Node { parent: None, children: Vec::new() };
        node_map.insert(0, (root_node, root_value));
        let r = MTree { node_map, first_id: 0, last_id: 0 };
        assert(r@.nodes =~= map![0u32 => TreeNode { parent: None, children: Seq::empty(), value: root_value }]);
        r
    }

    /// Advances the id counter and returns the new value; ids are never reused.
    pub fn next_id(&mut self) -> (r: Id)
        requires
            old(self)@.last_id < u32::MAX,
        ensures
            r == old(self)@.last_id + 1,
            final(self)@ == old(self)@.bumped(),
            old(self)@.wf() ==> final(self)@.wf(),
    {
        self.last_id += 1;
        proof {
            assert(self@.nodes =~= old(self)@.nodes);
            if old(self)@.wf() {
                assert forall|i: Id| #[trigger] self@.contains(i) implies i <= self@.last_id by {
                    assert(old(self)@.contains(i));
                }
            }
        }
        self.last_id
    }

    /// Appends a new node holding `node_data` below `parent` and returns its id, or
    /// `None` when `parent` is not in the tree. The id counter advances either way.
    pub fn append(&mut self, parent: Id, node_data: T) -> (r: Option<Id>)
        requires
            old(self)@.wf(),
            old(self)@.last_id < u32::MAX,
        ensures
            final(self)@.wf(),
            old(self)@.contains(parent) ==> r == Some((old(self)@.last_id + 1) as Id)
                && final(self)@ == old(self)@.with_child(parent, node_data),
            !old(self)@.contains(parent) ==> r is None && final(self)@ == old(self)@.bumped(),
    {
        let new_id = self.next_id();
        let ghost t0 = self@;
        let (mut node_parent, parent_value) = match self.node_map.remove(&parent) {
            Some(x) => x,
            None => {
                proof {
                    assert(self@.nodes =~= t0.nodes);
                }
                return None;
            },
        };
        let node_insert = Node { parent: Some(parent), children: Vec::new() };
        node_parent.children.push(new_id);
        self.node_map.insert(parent, (node_parent, parent_value));
        self.node_map.insert(new_id, (node_insert, node_data));
        proof {
            let ghost want = old(self)@.with_child(parent, node_data);
            assert(self@.nodes =~= want.nodes);
            assert(self@ == want);
            assert forall|i: Id| #[trigger] want.contains(i) implies want.children_of(
                i,
            ).no_duplicates() by {
                if i == parent {
                    assert(!t0.children_of(parent).contains(new_id)) by {
                        if t0.children_of(parent).contains(new_id) {
                            let k = choose|k: int|
                                0 <= k < t0.children_of(parent).len() && t0.children_of(
                                    parent,
                                )[k] == new_id;
                            assert(t0.contains(t0.children_of(parent)[k]));
                        }
                    }
                }
            }
            assert forall|i: Id| want.contains(i) && i != want.root implies {
                &&& #[trigger] want.nodes[i].parent is Some
                &&& want.parent_of(i)->0 < i
                &&& want.contains(want.parent_of(i)->0)
                &&& want.children_of(want.parent_of(i)->0).contains(i)
            } by {
                if i != new_id && i != parent {
                    let p = t0.parent_of(i)->0;
                    assert(t0.nodes[i].parent is Some);
                    if p == parent {
                        assert(want.children_of(p) == t0.children_of(p).push(new_id));
                        let k = choose|k: int|
                            0 <= k < t0.children_of(p).len() && t0.children_of(p)[k] == i;
                        assert(want.children_of(p)[k] == i);
                    }
                } else if i == new_id {
                    assert(want.children_of(parent).last() == new_id);
                } else {
                    assert(t0.nodes[i].parent is Some);
                }
            }
            assert forall|i: Id, k: int|
                want.contains(i) && 0 <= k < want.children_of(i).len() implies {
                &&& want.contains(#[trigger] want.children_of(i)[k])
                &&& want.parent_of(want.children_of(i)[k]) == Some(i)
            } by {
                if i == parent {
                    if k < t0.children_of(parent).len() {
                        assert(want.children_of(i)[k] == t0.children_of(i)[k]);
                    }
                } else if i != new_id {
                    assert(t0.children_of(i)[k] == want.children_of(i)[k]);
                    assert(t0.contains(t0.children_of(i)[k]));
                }
            }
        }
        Some(new_id)
    }

    /// Returns the value of the node with this id, if there is one.
    pub fn get_value(&self, node_id: Id) -> (r: Option<&T>)
        ensures
            r matches Some(v) ==> self@.contains(node_id) && *v == self@.value_of(node_id),
            r is None ==> !self@.contains(node_id),
    {
        match self.node_map.get(&node_id) {
            Some(e) => Some(&e.1),
            None => None,
        }
    }

    fn get_node(&self, node_id: Id) -> (r: Option<&Node>)
        ensures
            r matches Some(n) ==> self@.contains(node_id) && n.children@ == self@.children_of(
                node_id,
            ) && n.parent == self@.parent_of(node_id),
            r is None ==> !self@.contains(node_id),
    {
        match self.node_map.get(&node_id) {
            Some(e) => Some(&e.0),
            None => None,
        }
    }

    /// Returns a handle to the root node. The handle holds the tree until it is dropped.
    pub fn root_handle(&mut self) -> (h: NodeHandle<'_, T>)
        ensures
            h.tree@ == old(self)@,
            h.id == old(self)@.root,
            *final(self) == *final(h.tree),
    {
        let id = self.first_id;
        NodeHandle { tree: self, id: id }
    }
}

impl<'a, T> NodeHandle<'a, T> {
    /// The tree the handle currently sees.
    pub open spec fn model(&self) -> TreeModel<T> {
        self.tree@
    }

    /// The handle's node is a node of a well-formed tree.
    pub open spec fn valid(&self) -> bool {
        self.model().wf() && self.model().contains(self.id)
    }

    /// The id of the node this handle points at.
    pub fn id(&self) -> (r: Id)
        ensures
            r == self.id,
    {
        self.id
    }

    /// The value held by the handle's node.
    pub fn value(&self) -> (r: &T)
        requires
            self.valid(),
        ensures
            *r == self.model().value_of(self.id),
    {
        match self.tree.get_value(self.id) {
            Some(v) => v,
            None => vstd::pervasive::unreached(),
        }
    }

    fn node(&self) -> (r: &Node)
        requires
            self.valid(),
        ensures
            r.children@ == self.model().children_of(self.id),
            r.parent == self.model().parent_of(self.id),
    {
        match self.tree.get_node(self.id) {
            Some(n) => n,
            None => vstd::pervasive::unreached(),
        }
    }
}


impl<'a, T> NodeHandle<'a, T> {
    /// Appends `value` as the last child of this handle's node and returns a handle to
    /// the new node.
    pub fn append(&mut self, value: T) -> (r: NodeHandle<'_, T>)
        requires
            old(self).valid(),
            old(self).model().last_id < u32::MAX,
        ensures
            r.id == old(self).model().last_id + 1,
            r.model() == old(self).model().with_child(old(self).id, value),
            r.valid(),
            final(self).id == old(self).id,
            *final(self).tree == *final(r.tree),
            *final(final(self).tree) == *final(old(self).tree),
    {
        let id = self.id;
        let child_id = match self.tree.append(id, value) {
            Some(c) => c,
            None => vstd::pervasive::unreached(),
        };
        NodeHandle { tree: self.tree, id: child_id }
    }

    /// Grafts `other_tree` below this handle's node. The donor's ids move up by the
    /// tree's next unused id, so they cannot clash with the ids already present; the
    /// donor's root becomes the last child of this node.
    pub fn merge(&mut self, other_tree: MTree<T>) -> (r: NodeHandle<'_, T>)
        requires
            old(self).valid(),
            other_tree@.wf(),
            old(self).model().last_id + 1 + other_tree@.last_id <= u32::MAX,
        ensures
            r.id == old(self).id,
            r.model() == old(self).model().graft(old(self).id, other_tree@),
            r.valid(),
            final(self).id == old(self).id,
            *final(self).tree == *final(r.tree),
            *final(final(self).tree) == *final(old(self).tree),
    {
        let ghost t0 = self.model();
        let ghost d0 = other_tree@;
        let target = self.id;
        let off = self.tree.next_id();
        let mut donor = other_tree;
        let donor_last = donor.last_id;
        let donor_root = donor.first_id;
        let mut i: u64 = 0;
        while i <= donor_last as u64
            invariant
                self.id == target,
                t0.wf(),
                t0.contains(target),
                d0.wf(),
                off == t0.last_id + 1,
                donor_last == d0.last_id,
                donor_root == d0.root,
                off + donor_last <= u32::MAX,
                i <= donor_last + 1,
                forall|k: Id| #[trigger] donor@.contains(k) ==> d0.contains(k) && k >= i,
                forall|k: Id| d0.contains(k) && k >= i ==> #[trigger] donor@.contains(k)
                    && donor@.nodes[k] == d0.nodes[k],
                self.model().root == t0.root,
                self.model().last_id == off,
                self.model().nodes == graft_prefix(t0, target, d0, i as int),
                *final(self.tree) == *final(old(self).tree),
            decreases donor_last + 1 - i,
        {
            let ghost before = self.model().nodes;
            let ghost donor_before = donor@;
            let k = i as u32;
            match donor.node_map.remove(&k) {
                Some(entry) => {
                    let (node, data) = entry;
                    assert(donor_before.contains(k));
                    assert(d0.contains(k));
                    assert(donor_before.nodes[k] == node_view((node, data)));
                    assert(node.children@ == d0.children_of(k));
                    let mut children: Vec<Id> = Vec::new();
                    let mut j: usize = 0;
                    while j < node.children.len()
                        invariant
                            node.children@ == d0.children_of(k),
                            d0.wf(),
                            d0.contains(k),
                            off + donor_last <= u32::MAX,
                            donor_last == d0.last_id,
                            j <= node.children.len(),
                            children@ == node.children@.take(j as int).map_values(|c: Id| (c + off) as Id),
                        decreases node.children.len() - j,
                    {
                        assert(d0.contains(d0.children_of(k)[j as int]));
                        children.push(node.children[j] + off);
                        j += 1;
                        assert(children@ =~= node.children@.take(j as int).map_values(|c: Id| (c + off) as Id));
                    }
                    assert(node.children@.take(j as int) == node.children@);
                    let parent = match node.parent {
                        Some(p) => {
                            assert(k != d0.root);
                            assert(d0.nodes[k].parent is Some);
                            Some(p + off)
                        },
                        None => Some(target),
                    };
                    let ghost new_node = TreeNode { parent, children: children@, value: data };
                    assert(new_node == d0.shifted(k, off as int, target));
                    self.tree.node_map.insert(k + off, (Node { parent, children }, data));
                    proof {
                        lemma_graft_prefix_step(t0, target, d0, i as int);
                        assert(self.model().nodes =~= before.insert((k + off) as Id, new_node));
                    }
                },
                None => {
                    proof {
                        assert(!donor_before.contains(k));
                        assert(!d0.contains(k));
                        lemma_graft_prefix_step(t0, target, d0, i as int);
                        assert(self.model().nodes =~= before);
                    }
                },
            }
            proof {
                assert forall|x: Id| #[trigger] donor@.contains(x) implies d0.contains(x) && x >= i + 1 by {
                    assert(donor_before.contains(x));
                }
                assert forall|x: Id| d0.contains(x) && x >= i + 1 implies #[trigger] donor@.contains(x)
                    && donor@.nodes[x] == d0.nodes[x] by {
                    assert(donor_before.contains(x));
                }
            }
            i += 1;
        }
        let ghost before = self.model().nodes;
        assert(i == donor_last + 1);
        assert(before.contains_key(target));
        assert(before[target] == t0.nodes[target]);
        assert(self.tree.node_map@.contains_key(target));
        let (mut target_node, target_value) = match self.tree.node_map.remove(&target) {
            Some(x) => x,
            None => vstd::pervasive::unreached(),
        };
        target_node.children.push(donor_root + off);
        self.tree.node_map.insert(target, (target_node, target_value));
        self.tree.last_id = donor_last + off;
        proof {
            let g = t0.graft(target, d0);
            lemma_graft_prefix_full(t0, target, d0);
            assert(self.model().nodes =~= before.insert(
                target,
                TreeNode {
                    parent: t0.parent_of(target),
                    children: t0.children_of(target).push((d0.root + t0.last_id + 1) as Id),
                    value: t0.value_of(target),
                },
            ));
            assert(self.model().nodes =~= g.nodes);
            assert(self.model() == g);
            lemma_graft_wf(t0, target, d0);
        }
        NodeHandle { tree: self.tree, id: target }
    }

    /// Returns a handle to the `n`-th child of this handle's node, if it has one.
    pub fn nth_child(&mut self, n: usize) -> (r: Option<NodeHandle<'_, T>>)
        requires
            old(self).valid(),
        ensures
            r is Some <==> n < old(self).model().children_of(old(self).id).len(),
            r matches Some(h) ==> {
                &&& h.id == old(self).model().children_of(old(self).id)[n as int]
                &&& h.model() == old(self).model()
                &&& h.valid()
                &&& *final(self).tree == *final(h.tree)
            },
            r is None ==> *final(self).tree == *old(self).tree,
            final(self).id == old(self).id,
            *final(final(self).tree) == *final(old(self).tree),
    {
        let children = &self.node().children;
        if n >= children.len() {
            return None;
        }
        let id = children[n];
        Some(NodeHandle { tree: self.tree, id: id })
    }
}

impl<T> MTree<T> {
    /// Returns a walk over the tree's values in depth-first pre-order from the root.
    pub fn iter(&self) -> (r: MTreeIter<'_, T>)
        requires
            self@.wf(),
        ensures
            r.valid(),
            r.model() == self@,
            r.pending() == self@.shape().preorder(self@.root),
    {
        MTreeIter::new(self)
    }
}

impl<'a, T> MTreeIter<'a, T> {
    /// The tree being walked.
    pub closed spec fn model(&self) -> TreeModel<T> {
        self.tree@
    }

    /// The ids still to be visited, in the order the walk visits them.
    pub closed spec fn pending(&self) -> Seq<Id> {
        self.tree@.shape().stack_order(self.stack@)
    }

    /// The tree is well formed and every subtree left to walk is one of its nodes.
    pub closed spec fn valid(&self) -> bool {
        &&& self.tree@.wf()
        &&& forall|k: int| 0 <= k < self.stack@.len() ==> #[trigger] self.tree@.contains(self.stack@[k])
    }

    fn new(tree: &'a MTree<T>) -> (r: Self)
        requires
            tree@.wf(),
        ensures
            r.valid(),
            r.model() == tree@,
            r.pending() == tree@.shape().preorder(tree@.root),
    {
        let r = MTreeIter { stack: vec![tree.first_id], tree };
        proof {
            let t = tree@.shape();
            assert(r.stack@.drop_last() =~= Seq::<Id>::empty());
            assert(t.stack_order(r.stack@) =~= t.preorder(tree@.root) + t.stack_order(Seq::<Id>::empty()));
        }
        r
    }

    /// Returns the next value of the walk, or `None` once every node was visited.
    pub fn next(&mut self) -> (r: Option<&'a T>)
        requires
            old(self).valid(),
        ensures
            final(self).valid(),
            final(self).model() == old(self).model(),
            old(self).pending().len() == 0 ==> r is None && final(self).pending().len() == 0,
            old(self).pending().len() > 0 ==> (r matches Some(v) && *v == old(self).model().value_of(
                old(self).pending()[0],
            )) && final(self).pending() == old(self).pending().drop_first(),
    {
        let id = match self.stack.pop() {
            Some(id) => id,
            None => {
                return None;
            },
        };
        let tree: &'a MTree<T> = self.tree;
        proof {
            lemma_pop_order(tree@, old(self).stack@);
        }
        push_children(&mut self.stack, tree, id);
        match tree.get_value(id) {
            Some(v) => Some(v),
            None => vstd::pervasive::unreached(),
        }
    }
}

/// Popping the top of a walk's stack visits that node first.
proof fn lemma_pop_order<T>(t: TreeModel<T>, s0: Seq<Id>)
    requires
        t.wf(),
        s0.len() > 0,
        forall|k: int| 0 <= k < s0.len() ==> #[trigger] t.contains(s0[k]),
    ensures
        t.shape().stack_order(s0) == seq![s0.last()] + (t.shape().preorder_forest(
            t.children_of(s0.last()),
            s0.last() as int,
        ) + t.shape().stack_order(s0.drop_last())),
        forall|k: int| 0 <= k < s0.drop_last().len() ==> #[trigger] t.contains(s0.drop_last()[k]),
{
    let id = s0.last();
    assert(t.contains(s0[s0.len() - 1]));
    assert(id <= t.last_id);
    assert(t.shape().links[id] == t.children_of(id));
    assert forall|k: int| 0 <= k < s0.drop_last().len() implies #[trigger] t.contains(s0.drop_last()[k]) by {
        assert(t.contains(s0[k]));
    }
    assert(t.shape().stack_order(s0) =~= seq![id] + (t.shape().preorder_forest(t.children_of(id), id as int)
        + t.shape().stack_order(s0.drop_last())));
}

/// Pushes the children of `id` on a walk's stack, last child first, so that the first
/// child is visited next.
fn push_children<T>(stack: &mut Vec<Id>, tree: &MTree<T>, id: Id)
    requires
        tree@.wf(),
        tree@.contains(id),
        forall|k: int| 0 <= k < old(stack)@.len() ==> #[trigger] tree@.contains(old(stack)@[k]),
    ensures
        forall|k: int| 0 <= k < final(stack)@.len() ==> #[trigger] tree@.contains(final(stack)@[k]),
        tree@.shape().stack_order(final(stack)@) == tree@.shape().preorder_forest(
            tree@.children_of(id),
            id as int,
        ) + tree@.shape().stack_order(old(stack)@),
        final(stack)@.len() == old(stack)@.len() + tree@.children_of(id).len(),
        forall|k: int| 0 <= k < old(stack)@.len() ==> final(stack)@[k] == old(stack)@[k],
        forall|k: int|
            0 <= k < tree@.children_of(id).len() ==> #[trigger] final(stack)@[old(stack)@.len() + k]
                == tree@.children_of(id)[tree@.children_of(id).len() - 1 - k],
{
    let ghost tm = tree@;
    let ghost t = tm.shape();
    let ghost base = stack@;
    let children = match tree.get_node(id) {
        Some(n) => &n.children,
        None => vstd::pervasive::unreached(),
    };
    let ghost cs = children@;
    let mut m: usize = children.len();
    proof {
        assert(cs.subrange(m as int, cs.len() as int) =~= Seq::<Id>::empty());
    }
    while m > 0
        invariant
            t == tm.shape(),
            tm.wf(),
            tm.contains(id),
            cs == tm.children_of(id),
            children@ == cs,
            m <= cs.len(),
            forall|k: int| 0 <= k < stack@.len() ==> #[trigger] tm.contains(stack@[k]),
            t.stack_order(stack@) == t.preorder_forest(cs.subrange(m as int, cs.len() as int), id as int)
                + t.stack_order(base),
            stack@.len() == base.len() + (cs.len() - m),
            forall|k: int| 0 <= k < base.len() ==> stack@[k] == base[k],
            forall|k: int| 0 <= k < cs.len() - m ==> #[trigger] stack@[base.len() + k] == cs[cs.len() - 1 - k],
        decreases m,
    {
        m -= 1;
        let ghost before = stack@;
        let c = children[m];
        assert(tm.contains(c) && tm.parent_of(c) == Some(id));
        assert(c > id && c <= t.last_id) by {
            assert(tm.nodes[c].parent is Some);
        }
        stack.push(c);
        proof {
            assert(stack@.drop_last() == before);
            let sub = cs.subrange(m as int, cs.len() as int);
            assert(sub.drop_first() =~= cs.subrange(m + 1, cs.len() as int));
            assert(t.preorder_forest(sub, id as int) == t.preorder(c) + t.preorder_forest(sub.drop_first(), id as int));
            assert(t.stack_order(stack@) =~= t.preorder_forest(sub, id as int) + t.stack_order(base));
        }
    }
    proof {
        assert(cs.subrange(0, cs.len() as int) =~= cs);
    }
}

impl<T> MTree<T> {
    /// A change of the stored value of node `id` is a change of its value in the view.
    broadcast proof fn lemma_view_with_value(a: MTree<T>, b: MTree<T>, id: Id, value: T)
        ensures
            a.node_map@.contains_key(id) && b.node_map@ == a.node_map@.insert(id, (a.node_map@[id].0, value))
                && b.first_id == a.first_id && b.last_id == a.last_id
                ==> #[trigger] b@ == #[trigger] a@.with_value(id, value),
    {
        if a.node_map@.contains_key(id) && b.node_map@ == a.node_map@.insert(id, (a.node_map@[id].0, value))
            && b.first_id == a.first_id && b.last_id == a.last_id {
            assert(b@.nodes =~= a@.with_value(id, value).nodes);
        }
    }

    fn value_mut(&mut self, id: Id) -> (r: &mut T)
        requires
            old(self)@.contains(id),
        ensures
            *r == old(self)@.value_of(id),
            final(self)@ == old(self)@.with_value(id, *final(r)),
    {
        broadcast use MTree::lemma_view_with_value;
        match self.node_map.entry(id) {
            std::collections::hash_map::Entry::Occupied(o) => {
                let e = o.into_mut();
                let v = &mut e.1;
                v
            },
            std::collections::hash_map::Entry::Vacant(_) => vstd::pervasive::unreached(),
        }
    }

    /// Returns a walk that hands out the tree's values mutably, in depth-first
    /// pre-order from the root.
    pub fn iter_mut(&mut self) -> (r: MTreeIterMut<'_, T>)
        requires
            old(self)@.wf(),
        ensures
            r.valid(),
            r.tree@ == old(self)@,
            r.pending() == old(self)@.shape().preorder(old(self)@.root),
            *final(self) == *final(r.tree),
    {
        MTreeIterMut::new(self)
    }
}

impl<'a, T> MTreeIterMut<'a, T> {
    /// The ids still to be visited, in the order the walk visits them.
    pub open spec fn pending(&self) -> Seq<Id> {
        self.tree@.shape().stack_order(self.stack@)
    }

    /// The tree is well formed and every subtree left to walk is one of its nodes.
    pub open spec fn valid(&self) -> bool {
        &&& self.tree@.wf()
        &&& forall|k: int| 0 <= k < self.stack@.len() ==> #[trigger] self.tree@.contains(self.stack@[k])
    }

    fn new(tree: &'a mut MTree<T>) -> (r: Self)
        requires
            old(tree)@.wf(),
        ensures
            r.valid(),
            r.tree@ == old(tree)@,
            r.pending() == old(tree)@.shape().preorder(old(tree)@.root),
            *final(tree) == *final(r.tree),
    {
        let first = tree.first_id;
        let r = MTreeIterMut { stack: vec![first], tree };
        proof {
            let t = r.tree@.shape();
            assert(r.stack@.drop_last() =~= Seq::<Id>::empty());
            assert(t.stack_order(r.stack@) =~= t.preorder(r.tree@.root) + t.stack_order(Seq::<Id>::empty()));
        }
        r
    }

    /// Returns the next value of the walk for mutation, or `None` once every node was
    /// visited. Writing through the result changes that node's value and nothing else.
    pub fn next(&mut self) -> (r: Option<&mut T>)
        requires
            old(self).valid(),
        ensures
            old(self).pending().len() == 0 ==> r is None && final(self).valid() && final(self).tree@
                == old(self).tree@ && final(self).pending().len() == 0,
            old(self).pending().len() > 0 ==> (r matches Some(v) && *v == old(self).tree@.value_of(
                old(self).pending()[0],
            ) && final(self).tree@ == old(self).tree@.with_value(
                old(self).pending()[0],
                *final(v),
            )),
            old(self).pending().len() > 0 ==> final(self).valid() && final(self).pending()
                == old(self).pending().drop_first(),
            *final(final(self).tree) == *final(old(self).tree),
    {
        let id = match self.stack.pop() {
            Some(id) => id,
            None => {
                return None;
            },
        };
        proof {
            lemma_pop_order(self.tree@, old(self).stack@);
        }
        push_children(&mut self.stack, self.tree, id);
        let ghost t1 = self.tree@;
        let ghost s1 = self.stack@;
        let v = self.tree.value_mut(id);
        proof {
            let w = t1.with_value(id, *final(v));
            lemma_with_value(t1, id, *final(v));
            assert forall|k: int| 0 <= k < s1.len() implies #[trigger] w.contains(s1[k]) by {
                assert(t1.contains(s1[k]));
            }
        }
        Some(v)
    }
}

impl<T> MTree<T> {
    /// The outline of the tree: each node's depth and id, in depth-first pre-order from
    /// the root.
    pub fn hierarchy(&self) -> (r: Vec<(usize, Id)>)
        requires
            self@.wf(),
        ensures
            r@.map_values(|e: (usize, Id)| e.1) == self@.shape().preorder(self@.root),
            forall|k: int| 0 <= k < r@.len() ==> #[trigger] r@[k].0 == self@.depth(r@[k].1),
    {
        let ghost tm = self@;
        let ghost t = tm.shape();
        let mut out: Vec<(usize, Id)> = Vec::new();
        let mut stack: Vec<Id> = vec![self.first_id];
        let mut depths: Vec<usize> = vec![0];
        proof {
            assert(stack@.drop_last() =~= Seq::<Id>::empty());
            assert(t.stack_order(stack@) =~= t.preorder(tm.root) + t.stack_order(Seq::<Id>::empty()));
            assert(t.stack_order(stack@) =~= t.preorder(tm.root));
            assert(out@.map_values(|e: (usize, Id)| e.1) =~= Seq::<Id>::empty());
            assert(tm.parent_of(tm.root) is None);
        }
        while stack.len() > 0
            invariant
                tm == self@,
                t == tm.shape(),
                tm.wf(),
                forall|k: int| 0 <= k < stack@.len() ==> #[trigger] tm.contains(stack@[k]),
                depths@.len() == stack@.len(),
                forall|k: int| 0 <= k < stack@.len() ==> #[trigger] depths@[k] == tm.depth(stack@[k]),
                out@.map_values(|e: (usize, Id)| e.1) + t.stack_order(stack@) == t.preorder(tm.root),
                forall|k: int| 0 <= k < out@.len() ==> #[trigger] out@[k].0 == tm.depth(out@[k].1),
            decreases t.stack_order(stack@).len(),
        {
            let ghost s0 = stack@;
            let ghost d0 = depths@;
            let ghost o0 = out@;
            let id = match stack.pop() {
                Some(id) => id,
                None => vstd::pervasive::unreached(),
            };
            let d = match depths.pop() {
                Some(d) => d,
                None => vstd::pervasive::unreached(),
            };
            proof {
                lemma_pop_order(tm, s0);
                assert(d == tm.depth(s0[s0.len() - 1]));
            }
            push_children(&mut stack, self, id);
            let n = match self.get_node(id) {
                Some(node) => node.children.len(),
                None => vstd::pervasive::unreached(),
            };
            let mut q: usize = 0;
            while q < n
                invariant
                    tm == self@,
                    tm.wf(),
                    tm.contains(id),
                    n == tm.children_of(id).len(),
                    d == tm.depth(id),
                    q <= n,
                    stack@.len() == s0.len() - 1 + n,
                    forall|k: int| 0 <= k < s0.len() - 1 ==> stack@[k] == s0[k],
                    forall|k: int| 0 <= k < n ==> #[trigger] stack@[s0.len() - 1 + k]
                        == tm.children_of(id)[n - 1 - k],
                    depths@.len() == s0.len() - 1 + q,
                    forall|k: int| 0 <= k < depths@.len() ==> #[trigger] depths@[k] == tm.depth(stack@[k]),
                decreases n - q,
            {
                let ghost k = s0.len() - 1 + q;
                let ghost c = tm.children_of(id)[n - 1 - q];
                assert(stack@[k] == c);
                assert(tm.contains(c) && tm.parent_of(c) == Some(id));
                assert(id < c) by {
                    assert(tm.nodes[c].parent is Some);
                }
                proof {
                    lemma_depth_bound(tm, c);
                }
                depths.push(d + 1);
                q += 1;
            }
            out.push((d, id));
            proof {
                assert(out@.map_values(|e: (usize, Id)| e.1) =~= o0.map_values(|e: (usize, Id)| e.1).push(id));
                assert(t.stack_order(s0) == seq![id] + t.stack_order(stack@));
                assert(out@.map_values(|e: (usize, Id)| e.1) + t.stack_order(stack@) =~= o0.map_values(
                    |e: (usize, Id)| e.1,
                ) + t.stack_order(s0));
            }
        }
        proof {
            assert(stack@ =~= Seq::<Id>::empty());
            assert(out@.map_values(|e: (usize, Id)| e.1) + t.stack_order(stack@) =~= out@.map_values(|e: (usize, Id)| e.1));
        }
        out
    }
}

} // verus!
