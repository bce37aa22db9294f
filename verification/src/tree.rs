use crate::node::NodeId;
use crate::reach::{
    in_subtree, lemma_in_subtree_agree, lemma_in_subtree_remove_root, lemma_reaches_chain,
    lemma_reaches_trans, reaches,
};
use std::collections::{HashMap, HashSet};
use vstd::prelude::*;
use vstd::std_specs::iter::IteratorSpec;

verus! {

broadcast use vstd::std_specs::hash::group_hash_axioms;

/// The slot that holds a node of the tree.  While a [`NodeGuard`] of the
/// node is out, the slot is empty.
pub struct NodeContainer<N> {
    pub node: Option<N>,
}

impl<N> NodeContainer<N> {
    /// A slot that holds `node`.
    pub fn new(node: N) -> (c: Self)
        ensures
            c.node == Some(node),
    {
        NodeContainer { node: Some(node) }
    }

    /// Takes the node out of the slot, if it is there, and hands it out in
    /// a guard labelled `id`.
    pub fn guard(&mut self, id: NodeId) -> (g: Option<NodeGuard<N>>)
        ensures
            final(self).node == None::<N>,
            match g {
                Some(g) => old(self).node == Some(g.node) && g.id == id,
                None => old(self).node == None::<N>,
            },
    {
        match self.node.take() {
            Some(node) => Some(NodeGuard { id, node }),
            None => None,
        }
    }
}

/// A node taken out of the tree.  Hand it back with [`Tree::restore`].
pub struct NodeGuard<N> {
    pub id: NodeId,
    pub node: N,
}

/// The abstract state of a [`Tree`].
#[verifier::ext_equal]
pub struct TreeView<N> {
    /// The node slots, by id.
    pub nodes: Map<u64, NodeContainer<N>>,
    /// The parent of each node that has one.
    pub parents: Map<u64, u64>,
    /// The ordered list of children of each node.
    pub children: Map<u64, Seq<NodeId>>,
    /// The nodes that were made roots.
    pub base: Set<u64>,
    /// The id the next spawned node gets.
    pub next_id: u64,
    /// The nodes queued for removal, in order.
    pub despawn: Seq<NodeId>,
}

/// `s` without the entries whose id is `id`.
pub open spec fn without(s: Seq<NodeId>, id: u64) -> Seq<NodeId> {
    s.filter(|c: NodeId| c.0 != id)
}

/// The view of a map of vectors as a map of sequences.
pub open spec fn list_view(m: Map<u64, Vec<NodeId>>) -> Map<u64, Seq<NodeId>> {
    Map::new(|k: u64| m.contains_key(k), |k: u64| m[k]@)
}

impl<N> TreeView<N> {
    /// `x` is `root` or a descendant of `root`.
    pub open spec fn in_subtree(self, x: u64, root: u64) -> bool {
        in_subtree(self.parents, x, root)
    }

    /// The ids of `root` and of all its descendants.
    pub open spec fn subtree(self, root: u64) -> Set<u64> {
        Set::new(|x: u64| self.in_subtree(x, root))
    }

    /// Child lists and parent links agree.
    pub open spec fn links_ok(self) -> bool {
        &&& forall|p: u64, i: int|
            #![trigger self.children[p][i]]
            self.children.contains_key(p) && 0 <= i < self.children[p].len() ==> {
                &&& self.children.contains_key(self.children[p][i].0)
                &&& self.parents.contains_key(self.children[p][i].0)
                &&& self.parents[self.children[p][i].0] == p
            }
        &&& forall|c: u64|
            #![trigger self.parents[c]]
            self.parents.contains_key(c) && self.children.contains_key(self.parents[c])
                ==> self.children[self.parents[c]].contains(NodeId(c))
        &&& forall|p: u64|
            #![trigger self.children[p]]
            self.children.contains_key(p) ==> self.children[p].no_duplicates()
    }

    /// The child list of `p` holds distinct nodes, each linked back to `p`.
    pub open spec fn list_ok(self, p: u64) -> bool {
        &&& forall|i: int|
            #![trigger self.children[p][i]]
            0 <= i < self.children[p].len() ==> {
                &&& self.children.contains_key(self.children[p][i].0)
                &&& self.parents.contains_key(self.children[p][i].0)
                &&& self.parents[self.children[p][i].0] == p
            }
        &&& self.children[p].no_duplicates()
    }

    /// The parent of `c`, when it has a child list, lists `c`.
    pub open spec fn parent_ok(self, c: u64) -> bool {
        self.children.contains_key(self.parents[c]) ==> self.children[self.parents[c]].contains(
            NodeId(c),
        )
    }

    /// No node is its own ancestor.
    pub open spec fn acyclic(self) -> bool {
        forall|x: u64|
            #![trigger self.parents[x]]
            self.parents.contains_key(x) ==> !self.in_subtree(self.parents[x], x)
    }

    /// Child lists and parent links agree, every node has a child list, and
    /// the roots among the nodes are those without a parent.  Unlike
    /// [`TreeView::wf`] this allows cycles of parent links.
    pub open spec fn linked(self) -> bool {
        &&& self.links_ok()
        &&& self.children.dom() == self.nodes.dom()
        &&& forall|x: u64|
            #![trigger self.nodes.dom().contains(x)]
            self.nodes.contains_key(x) ==> (self.base.contains(x) <==> !self.parents.contains_key(
                x,
            ))
        &&& self.nodes.dom().finite()
    }

    /// The tree is a well-formed forest over its nodes.
    pub open spec fn wf(self) -> bool {
        &&& self.links_ok()
        &&& self.acyclic()
        &&& self.children.dom() == self.nodes.dom()
        &&& forall|c: u64|
            #![trigger self.parents.dom().contains(c)]
            self.parents.contains_key(c) ==> self.nodes.contains_key(c) && self.nodes.contains_key(
                self.parents[c],
            )
        &&& forall|x: u64|
            #![trigger self.nodes.dom().contains(x)]
            self.nodes.contains_key(x) ==> (self.base.contains(x) <==> !self.parents.contains_key(
                x,
            ))
        &&& forall|x: u64|
            #![trigger self.nodes.dom().contains(x)]
            self.nodes.contains_key(x) ==> x < self.next_id
        &&& self.nodes.dom().finite()
    }

    /// The state after the next id is handed out.
    pub open spec fn generate_id(self) -> Self {
        TreeView { next_id: (self.next_id + 1) as u64, ..self }
    }

    /// The state after `node` is spawned as a new root.
    pub open spec fn spawn(self, node: N) -> Self {
        let id = self.next_id;
        TreeView {
            nodes: self.nodes.insert(id, NodeContainer { node: Some(node) }),
            children: self.children.insert(id, Seq::empty()),
            base: self.base.insert(id),
            next_id: (self.next_id + 1) as u64,
            ..self
        }
    }

    /// The state after `child` loses its parent link, if it has one.
    pub open spec fn detach(self, child: u64) -> Self {
        if self.parents.contains_key(child) {
            let p = self.parents[child];
            TreeView {
                parents: self.parents.remove(child),
                children: if self.children.contains_key(p) {
                    self.children.insert(p, without(self.children[p], child))
                } else {
                    self.children
                },
                ..self
            }
        } else {
            self
        }
    }

    /// The state after `child` is made a child of `parent`, or a root.
    pub open spec fn set_parent(self, child: u64, parent: Option<u64>) -> Self {
        let d = self.detach(child);
        match parent {
            Some(p) => TreeView {
                base: d.base.remove(child),
                parents: d.parents.insert(child, p),
                children: d.children.insert(
                    p,
                    if d.children.contains_key(p) {
                        d.children[p]
                    } else {
                        Seq::empty()
                    }.push(NodeId(child)),
                ),
                ..d
            },
            None => TreeView { base: d.base.insert(child), ..d },
        }
    }

    /// The state after the node `id` is queued for removal.
    pub open spec fn despawn(self, id: NodeId) -> Self {
        TreeView { despawn: self.despawn.push(id), ..self }
    }

    /// Whether the node `id` exists and is not taken out.
    pub open spec fn available(self, id: u64) -> bool {
        self.nodes.contains_key(id) && self.nodes[id].node is Some
    }

    /// The state after the node `id` is taken out of its slot.
    pub open spec fn take(self, id: u64) -> Self {
        if self.available(id) {
            TreeView { nodes: self.nodes.insert(id, NodeContainer { node: None }), ..self }
        } else {
            self
        }
    }

    /// The state after a taken node `node` with id `id` is handed back.
    pub open spec fn restore(self, id: u64, node: N) -> Self {
        if self.nodes.contains_key(id) && self.nodes[id].node is None {
            TreeView { nodes: self.nodes.insert(id, NodeContainer { node: Some(node) }), ..self }
        } else {
            self
        }
    }

    /// The state after `root` and all its descendants are removed.
    pub open spec fn remove_subtree(self, root: u64) -> Self {
        let d = self.subtree(root);
        TreeView {
            nodes: self.nodes.remove_keys(d),
            parents: self.parents.remove_keys(d),
            children: Map::new(
                |k: u64| self.children.contains_key(k) && !d.contains(k),
                |k: u64| without(self.children[k], root),
            ),
            ..self
        }
    }
}

/// The scene tree: nodes with payloads of type `N`, parent links, ordered
/// child lists, the set of roots and a queue of nodes to remove.
pub struct Tree<N> {
    nodes: HashMap<u64, NodeContainer<N>>,
    parents: HashMap<u64, u64>,
    children: HashMap<u64, Vec<NodeId>>,
    base: HashSet<u64>,
    next_node_id: NodeId,
    despawn: Vec<NodeId>,
}

impl<N> Tree<N> {
    pub closed spec fn model(&self) -> TreeView<N> {
        TreeView {
            nodes: self.nodes@,
            parents: self.parents@,
            children: list_view(self.children@),
            base: self.base@,
            next_id: self.next_node_id.0,
            despawn: self.despawn@,
        }
    }
}

impl<N> View for Tree<N> {
    type V = TreeView<N>;

    open spec fn view(&self) -> TreeView<N> {
        self.model()
    }
}

proof fn lemma_list_view_insert(m: Map<u64, Vec<NodeId>>, k: u64, v: Vec<NodeId>)
    ensures
        list_view(m.insert(k, v)) == list_view(m).insert(k, v@),
{
    assert(list_view(m.insert(k, v)) =~= list_view(m).insert(k, v@));
}

proof fn lemma_list_view_remove(m: Map<u64, Vec<NodeId>>, k: u64)
    ensures
        list_view(m.remove(k)) == list_view(m).remove(k),
{
    assert(list_view(m.remove(k)) =~= list_view(m).remove(k));
}

pub(crate) proof fn lemma_without_absent(s: Seq<NodeId>, id: u64)
    requires
        forall|i: int| 0 <= i < s.len() ==> s[i].0 != id,
    ensures
        without(s, id) == s,
    decreases s.len(),
{
    reveal(Seq::filter);
    if s.len() > 0 {
        lemma_without_absent(s.drop_last(), id);
        assert(s.drop_last().push(s.last()) =~= s);
    }
}

pub(crate) proof fn lemma_without_contains(s: Seq<NodeId>, id: u64, x: NodeId)
    ensures
        without(s, id).contains(x) <==> s.contains(x) && x.0 != id,
    decreases s.len(),
{
    reveal(Seq::filter);
    if s.len() > 0 {
        lemma_without_contains(s.drop_last(), id, x);
        let r = without(s.drop_last(), id);
        if s.contains(x) && x.0 != id {
            let i = choose|i: int| 0 <= i < s.len() && s[i] == x;
            if i < s.len() - 1 {
                assert(s.drop_last()[i] == x);
            } else {
                assert(without(s, id) == r.push(s.last()));
                assert(without(s, id)[r.len() as int] == x);
            }
        }
        if without(s, id).contains(x) {
            let i = choose|i: int| 0 <= i < without(s, id).len() && without(s, id)[i] == x;
            if s.last().0 != id && i == r.len() {
                assert(s[s.len() - 1] == x);
            } else {
                assert(r[i] == x);
                let j = choose|j: int| 0 <= j < s.drop_last().len() && s.drop_last()[j] == x;
                assert(s[j] == x);
            }
        }
    }
}

pub(crate) proof fn lemma_without_no_duplicates(s: Seq<NodeId>, id: u64)
    requires
        s.no_duplicates(),
    ensures
        without(s, id).no_duplicates(),
    decreases s.len(),
{
    reveal(Seq::filter);
    if s.len() > 0 {
        let t = s.drop_last();
        assert(t.no_duplicates());
        lemma_without_no_duplicates(t, id);
        if s.last().0 != id {
            lemma_without_contains(t, id, s.last());
            assert(!t.contains(s.last())) by {
                if t.contains(s.last()) {
                    let j = choose|j: int| 0 <= j < t.len() && t[j] == s.last();
                    assert(s[j] == s[s.len() - 1]);
                }
            }
            let r = without(t, id);
            assert forall|a: int, b: int|
                0 <= a < r.push(s.last()).len() && 0 <= b < r.push(s.last()).len() && a != b
                    implies r.push(s.last())[a] != r.push(s.last())[b] by {
                if a == r.len() {
                    assert(r.contains(r[b]));
                } else if b == r.len() {
                    assert(r.contains(r[a]));
                }
            }
        }
    }
}

/// `s` without the nodes in `d`: their slots, parent links and child lists.
pub open spec fn prune<N>(s: TreeView<N>, d: Set<u64>) -> TreeView<N> {
    TreeView {
        nodes: s.nodes.remove_keys(d),
        parents: s.parents.remove_keys(d),
        children: s.children.remove_keys(d),
        ..s
    }
}

/// The nodes in the subtrees of the first `i` entries of `list`.
pub open spec fn covered(parents: Map<u64, u64>, list: Seq<NodeId>, i: int) -> Set<u64> {
    Set::new(|x: u64| exists|j: int| 0 <= j < i && #[trigger] in_subtree(parents, x, list[j].0))
}

/// The state of a removal of the subtree of `n` once `n` itself is gone,
/// before its children are removed.
pub open spec fn removal_start<N>(s0: TreeView<N>, n: u64) -> TreeView<N> {
    let d = s0.detach(n);
    TreeView { nodes: s0.nodes.remove(n), children: d.children.remove(n), ..d }
}

/// What the removal of the subtree of `n` needs to know about the state
/// `s1` once `n` is gone and `l` is the list of its children.
pub open spec fn removal_frame<N>(s1: TreeView<N>, n: u64, l: Seq<NodeId>) -> bool {
    &&& s1.links_ok()
    &&& l.no_duplicates()
    &&& forall|j: int|
        #![trigger l[j]]
        0 <= j < l.len() ==> {
            &&& s1.children.contains_key(l[j].0)
            &&& s1.parents.contains_key(l[j].0)
            &&& s1.parents[l[j].0] == n
        }
    &&& !s1.parents.contains_key(n)
    &&& !s1.children.contains_key(n)
    &&& forall|x: u64, a: int, b: int|
        0 <= a < b < l.len() && #[trigger] in_subtree(s1.parents, x, l[a].0) ==> !(
        #[trigger] in_subtree(s1.parents, x, l[b].0))
}

/// The first steps of a removal keep the links consistent and split the
/// subtree of `n` into `n` and the subtrees of its children.
proof fn lemma_removal_start<N>(s0: TreeView<N>, n: u64)
    requires
        s0.links_ok(),
        s0.children.contains_key(n),
    ensures
        ({
            let s1 = removal_start(s0, n);
            let l = s0.detach(n).children[n];
            &&& removal_frame(s1, n, l)
            &&& s1.parents == s0.parents.remove(n)
            &&& s1.children.dom() == s0.children.dom().remove(n)
            &&& forall|k: u64|
                #[trigger] s1.children.contains_key(k) ==> s1.children[k] == without(
                    s0.children[k],
                    n,
                )
            &&& forall|x: u64|
                #[trigger] in_subtree(s0.parents, x, n) <==> (x == n || covered(
                    s1.parents,
                    l,
                    l.len() as int,
                ).contains(x))
        }),
{
    let s1 = removal_start(s0, n);
    let d = s0.detach(n);
    let l = d.children[n];
    let p0 = s0.parents;
    let p1 = s1.parents;
    let c0 = s0.children;
    assert(p1 =~= p0.remove(n));
    assert(s1.children.dom() =~= c0.dom().remove(n));
    // A list holding `n` is the list of the parent of `n`.
    assert forall|k: u64, i: int|
        c0.contains_key(k) && 0 <= i < c0[k].len() && c0[k][i].0 == n implies p0.contains_key(n)
        && p0[n] == k by {
        assert(c0[k][i] == c0[k][i]);
    }
    // The lists other than that of the parent of `n` do not change.
    assert forall|k: u64| #[trigger] s1.children.contains_key(k) implies s1.children[k] == without(
        c0[k],
        n,
    ) by {
        if !(p0.contains_key(n) && p0[n] == k) {
            assert forall|i: int| 0 <= i < c0[k].len() implies c0[k][i].0 != n by {
                assert(c0[k][i] == c0[k][i]);
            }
            lemma_without_absent(c0[k], n);
        }
    }
    // The list of children of `n`, without `n` itself.
    assert(l == c0[n] || l == without(c0[n], n));
    assert forall|j: int| 0 <= j < l.len() implies l[j].0 != n && c0[n].contains(l[j]) by {
        if l == without(c0[n], n) {
            assert(l.contains(l[j]));
            lemma_without_contains(c0[n], n, l[j]);
        } else {
            assert(c0[n].contains(l[j]));
            let i = choose|i: int| 0 <= i < c0[n].len() && c0[n][i] == l[j];
            assert(c0[n][i] == c0[n][i]);
        }
    }
    assert(l.no_duplicates()) by {
        if l != c0[n] {
            lemma_without_no_duplicates(c0[n], n);
        }
    }
    assert forall|j: int| #![trigger l[j]] 0 <= j < l.len() implies {
        &&& s1.children.contains_key(l[j].0)
        &&& p1.contains_key(l[j].0)
        &&& p1[l[j].0] == n
    } by {
        let i = choose|i: int| 0 <= i < c0[n].len() && c0[n][i] == l[j];
        assert(c0[n][i] == c0[n][i]);
    }
    // The links stay consistent.
    assert forall|p: u64, i: int|
        #![trigger s1.children[p][i]]
        s1.children.contains_key(p) && 0 <= i < s1.children[p].len() implies {
        &&& s1.children.contains_key(s1.children[p][i].0)
        &&& p1.contains_key(s1.children[p][i].0)
        &&& p1[s1.children[p][i].0] == p
    } by {
        let e = s1.children[p][i];
        assert(s1.children[p].contains(e));
        lemma_without_contains(c0[p], n, e);
        let idx = choose|idx: int| 0 <= idx < c0[p].len() && c0[p][idx] == e;
        assert(c0[p][idx] == c0[p][idx]);
    }
    assert forall|c: u64|
        #![trigger p1[c]]
        p1.contains_key(c) && s1.children.contains_key(p1[c]) implies s1.children[p1[c]].contains(
        NodeId(c),
    ) by {
        assert(p0[c] == p0[c]);
        lemma_without_contains(c0[p1[c]], n, NodeId(c));
    }
    assert forall|p: u64| #![trigger s1.children[p]] s1.children.contains_key(p) implies s1.children[
        p
    ].no_duplicates() by {
        assert(c0[p] == c0[p]);
        lemma_without_no_duplicates(c0[p], n);
    }
    assert(s1.links_ok());
    // Siblings have disjoint subtrees.
    assert forall|x: u64, a: int, b: int|
        0 <= a < b < l.len() && #[trigger] in_subtree(p1, x, l[a].0) implies !(#[trigger] in_subtree(
        p1,
        x,
        l[b].0,
    )) by {
        if in_subtree(p1, x, l[b].0) {
            let k1 = choose|k: nat| reaches(p1, x, l[a].0, k);
            let k2 = choose|k: nat| reaches(p1, x, l[b].0, k);
            lemma_reaches_chain(p1, x, l[a].0, l[b].0, k1, k2);
            assert(l[a] != l[b]);
            assert(l[a].0 != l[b].0) by {
                if l[a].0 == l[b].0 {
                    assert(l[a] == NodeId(l[a].0));
                    assert(l[b] == NodeId(l[b].0));
                }
            }
            assert(l[a] == l[a]);
            assert(l[b] == l[b]);
            if reaches(p1, l[a].0, l[b].0, k2) {
                assert(reaches(p1, n, l[b].0, (k2 - 1) as nat));
            } else {
                assert(reaches(p1, n, l[a].0, (k1 - 1) as nat));
            }
        }
    }
    // The subtree of `n` is `n` with the subtrees of its children.
    lemma_in_subtree_remove_root(p0, n);
    let u = covered(p1, l, l.len() as int);
    assert forall|x: u64| #[trigger] in_subtree(p0, x, n) implies (x == n || u.contains(x)) by {
        if x != n {
            assert(in_subtree(p1, x, n));
            let k = choose|k: nat| reaches(p1, x, n, k);
            lemma_removal_split(s0, n, x, k);
        }
    }
    assert forall|x: u64| (x == n || u.contains(x)) implies #[trigger] in_subtree(p0, x, n) by {
        if x == n {
            assert(reaches(p0, n, n, 0));
        } else {
            let j = choose|j: int| 0 <= j < l.len() && #[trigger] in_subtree(p1, x, l[j].0);
            let k = choose|k: nat| reaches(p1, x, l[j].0, k);
            assert(l[j] == l[j]);
            assert(reaches(p1, n, n, 0));
            assert(reaches(p1, l[j].0, n, 1));
            lemma_reaches_trans(p1, x, l[j].0, n, k, 1);
            assert(in_subtree(p1, x, n));
        }
    }
}

/// Removing the subtree of the next child of `n` prunes exactly that
/// subtree, as it was when `n` was taken out.
proof fn lemma_removal_step<N>(s1: TreeView<N>, n: u64, l: Seq<NodeId>, i: int, cur: TreeView<N>)
    requires
        removal_frame(s1, n, l),
        0 <= i < l.len(),
        cur == prune(s1, covered(s1.parents, l, i)),
        cur.links_ok(),
    ensures
        cur.children.contains_key(l[i].0),
        cur.remove_subtree(l[i].0) == prune(s1, covered(s1.parents, l, i + 1)),
{
    let p1 = s1.parents;
    let u = covered(p1, l, i);
    let c = l[i].0;
    assert(l[i] == l[i]);
    // Nodes of the subtree of `c` are not covered yet.
    assert forall|y: u64| in_subtree(p1, y, c) implies !u.contains(y) by {
        if u.contains(y) {
            let j = choose|j: int| 0 <= j < i && #[trigger] in_subtree(p1, y, l[j].0);
            assert(in_subtree(p1, y, l[j].0) && in_subtree(p1, y, l[i].0));
        }
    }
    assert(reaches(p1, c, c, 0));
    assert(!u.contains(c));
    // The subtree of `c` is the same now as when `n` was taken out.
    assert forall|y: u64|
        #![trigger p1[y]]
        in_subtree(p1, y, c) && y != c && p1.contains_key(y) implies cur.parents.contains_key(y)
        && cur.parents[y] == p1[y] by {
        assert(!u.contains(y));
    }
    assert forall|y: u64|
        #![trigger cur.parents[y]]
        in_subtree(cur.parents, y, c) && y != c && cur.parents.contains_key(y) implies p1.contains_key(
        y,
    ) && p1[y] == cur.parents[y] by {}
    lemma_in_subtree_agree(p1, cur.parents, c);
    // No list holds `c`: its parent `n` is gone.
    assert forall|p: u64| #[trigger] cur.children.contains_key(p) implies without(
        cur.children[p],
        c,
    ) == cur.children[p] by {
        assert forall|k: int| 0 <= k < cur.children[p].len() implies cur.children[p][k].0 != c by {
            if cur.children[p][k].0 == c {
                assert(cur.children[p][k] == cur.children[p][k]);
                assert(cur.parents[c] == p);
                assert(cur.parents[c] == p1[c]);
            }
        }
        lemma_without_absent(cur.children[p], c);
    }
    let dc = cur.subtree(c);
    let u2 = covered(p1, l, i + 1);
    assert forall|x: u64| u2.contains(x) <==> u.contains(x) || dc.contains(x) by {
        if u2.contains(x) {
            let j = choose|j: int| 0 <= j < i + 1 && #[trigger] in_subtree(p1, x, l[j].0);
            if j < i {
                assert(u.contains(x));
            } else {
                assert(in_subtree(cur.parents, x, c));
            }
        }
        if u.contains(x) {
            let j = choose|j: int| 0 <= j < i && #[trigger] in_subtree(p1, x, l[j].0);
            assert(u2.contains(x));
        }
        if dc.contains(x) {
            assert(in_subtree(p1, x, l[i].0));
            assert(u2.contains(x));
        }
    }
    let r = cur.remove_subtree(c);
    let q = prune(s1, u2);
    assert(r.nodes =~= q.nodes);
    assert(r.parents =~= q.parents);
    assert(r.children =~= q.children);
    assert(r =~= q);
}

/// Once all children of `n` are done, the subtree of `n` is gone.
proof fn lemma_removal_end<N>(s0: TreeView<N>, n: u64)
    requires
        s0.links_ok(),
        s0.children.contains_key(n),
    ensures
        ({
            let s1 = removal_start(s0, n);
            let l = s0.detach(n).children[n];
            prune(s1, covered(s1.parents, l, l.len() as int)) == s0.remove_subtree(n)
        }),
{
    lemma_removal_start(s0, n);
    let s1 = removal_start(s0, n);
    let l = s0.detach(n).children[n];
    let u = covered(s1.parents, l, l.len() as int);
    let d0 = s0.subtree(n);
    assert forall|x: u64| d0.contains(x) <==> x == n || u.contains(x) by {
        assert(d0.contains(x) <==> in_subtree(s0.parents, x, n));
    }
    let r = prune(s1, u);
    let q = s0.remove_subtree(n);
    assert(r.nodes =~= q.nodes);
    assert(r.parents =~= q.parents);
    assert(r.children =~= q.children);
    assert(r =~= q);
}

/// A proper descendant of `n` is in the subtree of one of its children.
proof fn lemma_removal_split<N>(s0: TreeView<N>, n: u64, x: u64, k: nat)
    requires
        s0.links_ok(),
        s0.children.contains_key(n),
        x != n,
        reaches(s0.parents.remove(n), x, n, k),
    ensures
        exists|j: int|
            0 <= j < s0.detach(n).children[n].len() && #[trigger] in_subtree(
                s0.parents.remove(n),
                x,
                s0.detach(n).children[n][j].0,
            ),
    decreases k,
{
    let p1 = s0.parents.remove(n);
    let l = s0.detach(n).children[n];
    let c0 = s0.children;
    let y = p1[x];
    if y == n {
        assert(s0.parents[x] == n);
        assert(c0[s0.parents[x]].contains(NodeId(x)));
        if l != c0[n] {
            lemma_without_contains(c0[n], n, NodeId(x));
        }
        let j = choose|j: int| 0 <= j < l.len() && l[j] == NodeId(x);
        assert(reaches(p1, x, l[j].0, 0));
        assert(in_subtree(p1, x, l[j].0));
    } else {
        lemma_removal_split(s0, n, y, (k - 1) as nat);
        let j = choose|j: int| 0 <= j < l.len() && #[trigger] in_subtree(p1, y, l[j].0);
        let k2 = choose|k2: nat| reaches(p1, y, l[j].0, k2);
        assert(reaches(p1, x, l[j].0, k2 + 1));
        assert(in_subtree(p1, x, l[j].0));
    }
}

/// The slots of the nodes listed in `s`; a later entry for an id wins.
pub open spec fn nodes_of<N>(s: Seq<(NodeId, N)>) -> Map<u64, NodeContainer<N>>
    decreases s.len(),
{
    if s.len() == 0 {
        Map::empty()
    } else {
        nodes_of(s.drop_last()).insert(s.last().0.0, NodeContainer { node: Some(s.last().1) })
    }
}

/// The parent links listed in `s`; a later entry for an id wins.
pub open spec fn parents_of(s: Seq<(NodeId, NodeId)>) -> Map<u64, u64>
    decreases s.len(),
{
    if s.len() == 0 {
        Map::empty()
    } else {
        parents_of(s.drop_last()).insert(s.last().0.0, s.last().1.0)
    }
}

/// The child lists listed in `s`; a later entry for an id wins.
pub open spec fn children_of(s: Seq<(NodeId, Vec<NodeId>)>) -> Map<u64, Seq<NodeId>>
    decreases s.len(),
{
    if s.len() == 0 {
        Map::empty()
    } else {
        children_of(s.drop_last()).insert(s.last().0.0, s.last().1@)
    }
}

/// The ids listed in `s`.
pub open spec fn ids_of(s: Seq<NodeId>) -> Set<u64> {
    Set::new(|x: u64| exists|i: int| 0 <= i < s.len() && s[i].0 == x)
}

/// The tree made of the listed parts: its nodes, parent links, child lists
/// and roots, the next id one more than the largest node id, and no node
/// queued for removal.
pub open spec fn parts_view<N>(
    nodes: Seq<(NodeId, N)>,
    parents: Seq<(NodeId, NodeId)>,
    children: Seq<(NodeId, Vec<NodeId>)>,
    base: Seq<NodeId>,
) -> TreeView<N> {
    TreeView {
        nodes: nodes_of(nodes),
        parents: parents_of(parents),
        children: children_of(children),
        base: ids_of(base),
        next_id: next_after(nodes) as u64,
        despawn: Seq::empty(),
    }
}

/// Removing subtrees the way [`Tree::remove_recursive`] walks them: `stack`
/// holds the nodes still to remove, first one first.  The first node is
/// removed, its parent link dropped and it is taken out of its parent's
/// child list; then its own child list is taken and its entries are removed
/// before the rest of the stack.  The result is the state reached and, where
/// the removal stops, the first node that has no child list when its turn
/// comes.  (A tree is finite; for an infinite one nothing is removed.)
pub open spec fn removal_run<N>(s: TreeView<N>, stack: Seq<NodeId>) -> (TreeView<N>, Option<NodeId>)
    decreases s.children.dom().len(), stack.len(),
{
    if !s.children.dom().finite() || stack.len() == 0 {
        (s, None)
    } else {
        let x = stack[0].0;
        let d = s.detach(x);
        if !d.children.contains_key(x) {
            (TreeView { nodes: s.nodes.remove(x), ..d }, Some(stack[0]))
        } else {
            proof {
                lemma_removal_start_smaller(s, x);
            }
            removal_run(removal_start(s, x), d.children[x] + stack.drop_first())
        }
    }
}

/// The first step of a removal takes one child list out of a finite tree.
pub proof fn lemma_removal_start_smaller<N>(s: TreeView<N>, x: u64)
    requires
        s.children.dom().finite(),
        s.detach(x).children.contains_key(x),
    ensures
        removal_start(s, x).children.dom().finite(),
        removal_start(s, x).children.dom().len() < s.children.dom().len(),
{
    assert(s.detach(x).children.dom() =~= s.children.dom());
    assert(removal_start(s, x).children.dom() =~= s.children.dom().remove(x));
}

/// Removing the nodes `a` and then the nodes `b` is removing `a` followed
/// by `b`, unless the removal of `a` stops: removing a list of nodes in turn
/// is removing each one in turn, stopping where one stops.
pub proof fn lemma_removal_run_append<N>(s: TreeView<N>, a: Seq<NodeId>, b: Seq<NodeId>)
    requires
        s.children.dom().finite(),
    ensures
        removal_run(s, a + b) == if removal_run(s, a).1 is Some {
            removal_run(s, a)
        } else {
            removal_run(removal_run(s, a).0, b)
        },
        removal_run(s, a).0.children.dom().finite(),
    decreases s.children.dom().len(), a.len(),
{
    if a.len() == 0 {
        assert(a + b =~= b);
    } else {
        let x = a[0].0;
        assert((a + b)[0] == a[0]);
        let d = s.detach(x);
        if d.children.contains_key(x) {
            lemma_removal_start_smaller(s, x);
            let l = d.children[x];
            assert(l + (a + b).drop_first() =~= (l + a.drop_first()) + b);
            lemma_removal_run_append(removal_start(s, x), l + a.drop_first(), b);
        } else {
            assert(d.children.dom() =~= s.children.dom());
        }
    }
}

/// On a tree whose child lists and parent links agree, removing a node
/// with a child list removes exactly its subtree, and the links still agree.
pub proof fn lemma_removal_linked<N>(s: TreeView<N>, r: u64)
    requires
        s.links_ok(),
        s.children.contains_key(r),
        s.children.dom().finite(),
    ensures
        removal_run(s, seq![NodeId(r)]) == (s.remove_subtree(r), None::<NodeId>),
        s.remove_subtree(r).links_ok(),
    decreases s.children.dom().len(), s.detach(r).children[r].len() + 1,
{
    lemma_removal_start(s, r);
    lemma_removal_end(s, r);
    let s1 = removal_start(s, r);
    let l = s.detach(r).children[r];
    assert(s.detach(r).children.dom() =~= s.children.dom());
    lemma_removal_start_smaller(s, r);
    assert(seq![NodeId(r)][0] == NodeId(r));
    assert(l + seq![NodeId(r)].drop_first() =~= l);
    assert(s1 == prune(s1, covered(s1.parents, l, 0))) by {
        assert(covered(s1.parents, l, 0) =~= Set::<u64>::empty());
        assert(s1.nodes.remove_keys(Set::<u64>::empty()) =~= s1.nodes);
        assert(s1.parents.remove_keys(Set::<u64>::empty()) =~= s1.parents);
        assert(s1.children.remove_keys(Set::<u64>::empty()) =~= s1.children);
        assert(s1 =~= prune(s1, covered(s1.parents, l, 0)));
    }
    assert(l.skip(0) =~= l);
    lemma_removal_children(s, r, 0);
}

proof fn lemma_removal_children<N>(s0: TreeView<N>, n: u64, i: int)
    requires
        s0.links_ok(),
        s0.children.contains_key(n),
        s0.children.dom().finite(),
        0 <= i <= s0.detach(n).children[n].len(),
        prune(
            removal_start(s0, n),
            covered(removal_start(s0, n).parents, s0.detach(n).children[n], i),
        ).links_ok(),
    ensures
        ({
            let s1 = removal_start(s0, n);
            let l = s0.detach(n).children[n];
            removal_run(prune(s1, covered(s1.parents, l, i)), l.skip(i)) == (
                s0.remove_subtree(n),
                None::<NodeId>,
            )
        }),
        s0.remove_subtree(n).links_ok(),
    decreases s0.children.dom().len(), s0.detach(n).children[n].len() - i,
{
    let s1 = removal_start(s0, n);
    let l = s0.detach(n).children[n];
    let cur = prune(s1, covered(s1.parents, l, i));
    lemma_removal_start(s0, n);
    lemma_removal_end(s0, n);
    assert(s0.detach(n).children.dom() =~= s0.children.dom());
    assert(s1.children.dom() =~= s0.children.dom().remove(n));
    assert(cur.children.dom().subset_of(s0.children.dom().remove(n)));
    vstd::set_lib::lemma_len_subset(cur.children.dom(), s0.children.dom().remove(n));
    if i == l.len() {
        assert(l.skip(i) =~= Seq::<NodeId>::empty());
    } else {
        lemma_removal_step(s1, n, l, i, cur);
        lemma_removal_linked(cur, l[i].0);
        assert(l.skip(i) =~= seq![NodeId(l[i].0)] + l.skip(i + 1));
        lemma_removal_run_append(cur, seq![NodeId(l[i].0)], l.skip(i + 1));
        lemma_removal_children(s0, n, i + 1);
    }
}

/// One more than the largest id listed in `s`, or 0 when `s` is empty.
pub open spec fn next_after<N>(s: Seq<(NodeId, N)>) -> int
    decreases s.len(),
{
    if s.len() == 0 {
        0
    } else {
        let rest = next_after(s.drop_last());
        if rest > s.last().0.0 + 1 {
            rest
        } else {
            s.last().0.0 + 1
        }
    }
}

pub(crate) proof fn lemma_next_after<N>(s: Seq<(NodeId, N)>)
    ensures
        forall|k: u64| nodes_of(s).contains_key(k) ==> k < next_after(s),
        forall|i: int| 0 <= i < s.len() ==> s[i].0.0 < next_after(s),
        s.len() == 0 ==> next_after(s) == 0,
        s.len() > 0 ==> exists|i: int| 0 <= i < s.len() && next_after(s) == s[i].0.0 + 1,
    decreases s.len(),
{
    if s.len() > 0 {
        let t = s.drop_last();
        lemma_next_after(t);
        assert forall|i: int| 0 <= i < s.len() implies s[i].0.0 < next_after(s) by {
            if i < t.len() {
                assert(t[i] == s[i]);
            }
        }
        assert forall|k: u64| nodes_of(s).contains_key(k) implies k < next_after(s) by {
            if k != s.last().0.0 {
                assert(nodes_of(t).contains_key(k));
            }
        }
        if next_after(s) != s.last().0.0 + 1 {
            let i = choose|i: int| 0 <= i < t.len() && next_after(t) == t[i].0.0 + 1;
            assert(t[i] == s[i]);
        }
    }
}

/// A copy of `v` without the entries whose id is `id`.
fn without_id(v: &Vec<NodeId>, id: u64) -> (r: Vec<NodeId>)
    ensures
        r@ == without(v@, id),
{
    let mut r: Vec<NodeId> = Vec::new();
    let mut i: usize = 0;
    while i < v.len()
        invariant
            i <= v.len(),
            r@ == without(v@.subrange(0, i as int), id),
        decreases v.len() - i,
    {
        proof {
            let s = v@.subrange(0, i as int + 1);
            assert(s.drop_last() =~= v@.subrange(0, i as int));
            assert(s.last() == v@[i as int]);
            reveal(Seq::filter);
        }
        if v[i].0 != id {
            r.push(v[i]);
        }
        i = i + 1;
    }
    assert(v@.subrange(0, v.len() as int) =~= v@);
    r
}

impl<N> Tree<N> {
    /// An empty tree.
    pub fn new() -> (t: Self)
        ensures
            t@.nodes == Map::<u64, NodeContainer<N>>::empty(),
            t@.parents == Map::<u64, u64>::empty(),
            t@.children == Map::<u64, Seq<NodeId>>::empty(),
            t@.base == Set::<u64>::empty(),
            t@.next_id == 0,
            t@.despawn == Seq::<NodeId>::empty(),
            t@.wf(),
    {
        let t = Tree {
            nodes: HashMap::new(),
            parents: HashMap::new(),
            children: HashMap::new(),
            base: HashSet::new(),
            next_node_id: NodeId(0),
            despawn: Vec::new(),
        };
        assert(list_view(t.children@) =~= Map::<u64, Seq<NodeId>>::empty());
        proof {
            crate::tree_laws::lemma_empty_wf(t@);
        }
        t
    }

    /// A tree made of the parts read from a scene file: the nodes, the parent
    /// links, the child lists and the roots.  A later entry for an id wins.
    /// The next id is one more than the largest node id, or 0 when there is
    /// no node; the removal queue is empty.
    pub fn from_parts(
        nodes: Vec<(NodeId, N)>,
        parents: Vec<(NodeId, NodeId)>,
        children: Vec<(NodeId, Vec<NodeId>)>,
        base: Vec<NodeId>,
    ) -> (t: Self)
        requires
            forall|i: int| 0 <= i < nodes@.len() ==> nodes@[i].0.0 < u64::MAX,
        ensures
            t@ == parts_view(nodes@, parents@, children@, base@),
            t@.next_id == next_after(nodes@),
            forall|k: u64| #[trigger] t@.nodes.contains_key(k) ==> k < t@.next_id,
    {
        proof {
            lemma_next_after(nodes@);
        }
        // The next id.
        let mut next: u64 = 0;
        let mut i: usize = 0;
        while i < nodes.len()
            invariant
                i <= nodes@.len(),
                next == next_after(nodes@.subrange(0, i as int)),
                forall|j: int| 0 <= j < nodes@.len() ==> nodes@[j].0.0 < u64::MAX,
            decreases nodes@.len() - i,
        {
            proof {
                let s = nodes@.subrange(0, i as int + 1);
                assert(s.drop_last() =~= nodes@.subrange(0, i as int));
            }
            let id = nodes[i].0.0;
            if id + 1 > next {
                next = id + 1;
            }
            i = i + 1;
        }
        assert(nodes@.subrange(0, nodes@.len() as int) =~= nodes@);
        // The nodes, read from the back: the first entry met for an id wins.
        let ghost all_nodes = nodes@;
        let mut nodes = nodes;
        let mut node_map: HashMap<u64, NodeContainer<N>> = HashMap::new();
        assert(nodes_of(nodes@).union_prefer_right(node_map@) =~= nodes_of(all_nodes));
        while nodes.len() > 0
            invariant
                nodes_of(nodes@).union_prefer_right(node_map@) == nodes_of(all_nodes),
            decreases nodes@.len(),
        {
            let ghost before = nodes@;
            let (id, node) = nodes.pop().unwrap();
            proof {
                assert(before.drop_last() == nodes@);
            }
            if !node_map.contains_key(&id.0) {
                node_map.insert(id.0, NodeContainer::new(node));
            }
            assert(nodes_of(nodes@).union_prefer_right(node_map@) =~= nodes_of(all_nodes));
        }
        assert(nodes_of(nodes@) =~= Map::<u64, NodeContainer<N>>::empty());
        assert(node_map@ =~= nodes_of(all_nodes));
        // The parent links.
        let ghost all_parents = parents@;
        let mut parents = parents;
        let mut parent_map: HashMap<u64, u64> = HashMap::new();
        assert(parents_of(parents@).union_prefer_right(parent_map@) =~= parents_of(all_parents));
        while parents.len() > 0
            invariant
                parents_of(parents@).union_prefer_right(parent_map@) == parents_of(all_parents),
            decreases parents@.len(),
        {
            let ghost before = parents@;
            let (child, parent) = parents.pop().unwrap();
            proof {
                assert(before.drop_last() == parents@);
            }
            if !parent_map.contains_key(&child.0) {
                parent_map.insert(child.0, parent.0);
            }
            assert(parents_of(parents@).union_prefer_right(parent_map@) =~= parents_of(
                all_parents,
            ));
        }
        assert(parents_of(parents@) =~= Map::<u64, u64>::empty());
        assert(parent_map@ =~= parents_of(all_parents));
        // The child lists.
        let ghost all_children = children@;
        let mut children = children;
        let mut child_map: HashMap<u64, Vec<NodeId>> = HashMap::new();
        assert(children_of(children@).union_prefer_right(list_view(child_map@)) =~= children_of(
            all_children,
        ));
        while children.len() > 0
            invariant
                children_of(children@).union_prefer_right(list_view(child_map@)) == children_of(
                    all_children,
                ),
            decreases children@.len(),
        {
            let ghost before = children@;
            let (parent, list) = children.pop().unwrap();
            proof {
                assert(before.drop_last() == children@);
            }
            if !child_map.contains_key(&parent.0) {
                proof {
                    lemma_list_view_insert(child_map@, parent.0, list);
                }
                child_map.insert(parent.0, list);
            }
            assert(children_of(children@).union_prefer_right(list_view(child_map@)) =~= children_of(
                all_children,
            ));
        }
        assert(children_of(children@) =~= Map::<u64, Seq<NodeId>>::empty());
        assert(list_view(child_map@) =~= children_of(all_children));
        // The roots.
        let mut base_set: HashSet<u64> = HashSet::new();
        let mut i: usize = 0;
        while i < base.len()
            invariant
                i <= base@.len(),
                base_set@ == Set::new(
                    |x: u64| exists|j: int| 0 <= j < i && base@[j].0 == x,
                ),
            decreases base@.len() - i,
        {
            base_set.insert(base[i].0);
            assert(base_set@ =~= Set::new(
                |x: u64| exists|j: int| 0 <= j < i + 1 && base@[j].0 == x,
            ));
            i = i + 1;
        }
        let t = Tree {
            nodes: node_map,
            parents: parent_map,
            children: child_map,
            base: base_set,
            next_node_id: NodeId(next),
            despawn: Vec::new(),
        };
        assert(base_set@ =~= ids_of(base@));
        assert(t@ =~= parts_view(all_nodes, all_parents, all_children, base@));
        t
    }

    /// The number of nodes in the tree.
    pub fn len(&mut self) -> (n: usize)
        ensures
            n == old(self)@.nodes.len(),
            final(self)@ == old(self)@,
    {
        self.nodes.len()
    }

    /// Hands out the next id.
    pub fn generate_id(&mut self) -> (id: NodeId)
        requires
            old(self)@.next_id < u64::MAX,
        ensures
            id.0 == old(self)@.next_id,
            final(self)@ == old(self)@.generate_id(),
    {
        let id = self.next_node_id;
        self.next_node_id = NodeId(self.next_node_id.0 + 1);
        id
    }

    /// Adds `node` as a new root and returns its id.
    pub fn spawn(&mut self, node: N) -> (id: NodeId)
        requires
            old(self)@.next_id < u64::MAX,
        ensures
            id.0 == old(self)@.next_id,
            final(self)@ == old(self)@.spawn(node),
    {
        let id = self.generate_id();
        self.nodes.insert(id.0, NodeContainer::new(node));
        self.base.insert(id.0);
        let empty: Vec<NodeId> = Vec::new();
        proof {
            lemma_list_view_insert(self.children@, id.0, empty);
        }
        self.children.insert(id.0, empty);
        id
    }

    /// Adds `node` as a new child of `parent_id`, at the end of its child
    /// list, and returns its id; `None` when there is no node `parent_id`.
    pub fn spawn_child(&mut self, node: N, parent_id: NodeId) -> (r: Option<NodeId>)
        requires
            old(self)@.nodes.contains_key(parent_id.0) ==> old(self)@.next_id < u64::MAX,
        ensures
            match r {
                Some(id) => {
                    &&& old(self)@.nodes.contains_key(parent_id.0)
                    &&& id.0 == old(self)@.next_id
                    &&& final(self)@ == old(self)@.spawn(node).set_parent(id.0, Some(parent_id.0))
                },
                None => !old(self)@.nodes.contains_key(parent_id.0) && final(self)@ == old(self)@,
            },
    {
        if self.nodes.contains_key(&parent_id.0) {
            let child_id = self.spawn(node);
            self.set_parent(child_id, Some(parent_id));
            Some(child_id)
        } else {
            None
        }
    }

    /// The ids of all nodes, each once, in no particular order.
    pub fn nodes(&self) -> (ids: Vec<NodeId>)
        ensures
            ids@.len() == self@.nodes.len(),
            ids@.no_duplicates(),
            forall|i: int| 0 <= i < ids@.len() ==> self@.nodes.contains_key(#[trigger] ids@[i].0),
            forall|k: u64| #[trigger] self@.nodes.contains_key(k) ==> ids@.contains(NodeId(k)),
    {
        let mut ids: Vec<NodeId> = Vec::new();
        for k in it: self.nodes.keys()
            invariant
                it.seq() == vstd::std_specs::hash::spec_keys_iter(&self.nodes).remaining(),
                ids@.len() == it.index(),
                forall|i: int|
                    0 <= i < it.index() ==> #[trigger] ids@[i] == NodeId(
                        *vstd::std_specs::hash::spec_keys_iter(&self.nodes).remaining()[i],
                    ),
        {
            ids.push(NodeId(*k));
        }
        proof {
            let keys = vstd::std_specs::hash::spec_keys_iter(&self.nodes).remaining();
            assert(keys.unref().to_set() == self.nodes@.dom());
            assert(keys.no_duplicates());
            assert(ids@.len() == keys.len());
            assert forall|i: int, j: int|
                0 <= i < ids@.len() && 0 <= j < ids@.len() && i != j implies ids@[i] != ids@[j] by {
                assert(ids@[i] == NodeId(*keys[i]));
                assert(ids@[j] == NodeId(*keys[j]));
            }
            assert forall|i: int| 0 <= i < ids@.len() implies self@.nodes.contains_key(
                #[trigger] ids@[i].0,
            ) by {
                assert(ids@[i] == NodeId(*keys[i]));
                assert(keys.unref().to_set().contains(*keys[i])) by {
                    assert(keys.unref()[i] == *keys[i]);
                }
            }
            assert forall|k: u64| #[trigger] self@.nodes.contains_key(k) implies ids@.contains(
                NodeId(k),
            ) by {
                assert(keys.unref().to_set().contains(k));
                let i = choose|i: int| 0 <= i < keys.unref().len() && keys.unref()[i] == k;
                assert(ids@[i] == NodeId(*keys[i]));
            }
        }
        ids
    }

    /// Queues the node `node` for removal.
    pub fn despawn(&mut self, node: NodeId)
        ensures
            final(self)@ == old(self)@.despawn(node),
    {
        self.despawn.push(node);
    }

    /// Empties the removal queue and returns what it held, in order.
    pub fn take_despawn(&mut self) -> (queue: Vec<NodeId>)
        ensures
            queue@ == old(self)@.despawn,
            final(self)@ == (TreeView { despawn: Seq::empty(), ..old(self)@ }),
    {
        let mut queue: Vec<NodeId> = Vec::new();
        std::mem::swap(&mut queue, &mut self.despawn);
        proof {
            assert(self@ =~= (TreeView { despawn: Seq::empty(), ..old(self)@ }));
        }
        queue
    }

    /// Whether `id` has a child list.
    pub fn has_child_list(&self, id: NodeId) -> (b: bool)
        ensures
            b == self@.children.contains_key(id.0),
    {
        self.children.contains_key(&id.0)
    }

    /// Checks that the child list of `p` holds distinct nodes, each linked
    /// back to `p`.
    fn check_list(&self, p: u64, list: &Vec<NodeId>) -> (b: bool)
        requires
            self@.children.contains_key(p),
            list@ == self@.children[p],
        ensures
            b == self@.list_ok(p),
    {
        let mut i: usize = 0;
        while i < list.len()
            invariant
                i <= list@.len(),
                self@.children.contains_key(p),
                list@ == self@.children[p],
                forall|j: int|
                    #![trigger list@[j]]
                    0 <= j < i ==> {
                        &&& self@.children.contains_key(list@[j].0)
                        &&& self@.parents.contains_key(list@[j].0)
                        &&& self@.parents[list@[j].0] == p
                    },
                forall|a: int, b: int| 0 <= a < i && 0 <= b < i && a != b ==> list@[a] != list@[b],
            decreases list@.len() - i,
        {
            let c = list[i];
            if !self.children.contains_key(&c.0) {
                assert(self@.children[p][i as int] == c);
                return false;
            }
            match self.parents.get(&c.0) {
                Some(q) => {
                    if *q != p {
                        assert(self@.children[p][i as int] == c);
                        return false;
                    }
                },
                None => {
                    assert(self@.children[p][i as int] == c);
                    return false;
                },
            }
            let mut j: usize = 0;
            while j < i
                invariant
                    j <= i < list@.len(),
                    c == list@[i as int],
                    self@.children.contains_key(p),
                    list@ == self@.children[p],
                    forall|a: int| 0 <= a < j ==> list@[a] != c,
                decreases i - j,
            {
                if list[j] == c {
                    assert(list@[j as int] == list@[i as int]);
                    assert(!self@.children[p].no_duplicates());
                    return false;
                }
                j = j + 1;
            }
            i = i + 1;
        }
        true
    }

    /// Whether the child lists and the parent links agree, which
    /// [`Tree::remove_recursive`] needs.
    pub fn is_linked(&self) -> (b: bool)
        ensures
            b == self@.links_ok(),
    {
        for p in it: self.children.keys()
            invariant
                it.seq() == vstd::std_specs::hash::spec_keys_iter(&self.children).remaining(),
                forall|j: int|
                    0 <= j < it.index() ==> self@.list_ok(
                        *#[trigger] vstd::std_specs::hash::spec_keys_iter(
                            &self.children,
                        ).remaining()[j],
                    ),
        {
            let list = self.children.get(p).unwrap();
            if !self.check_list(*p, list) {
                return false;
            }
        }
        proof {
            let keys = vstd::std_specs::hash::spec_keys_iter(&self.children).remaining();
            assert forall|p: u64| self@.children.contains_key(p) implies self@.list_ok(p) by {
                assert(keys.unref().to_set().contains(p));
                let i = choose|i: int| 0 <= i < keys.unref().len() && keys.unref()[i] == p;
                assert(*keys[i] == p);
            }
        }
        for c in it: self.parents.keys()
            invariant
                it.seq() == vstd::std_specs::hash::spec_keys_iter(&self.parents).remaining(),
                forall|p: u64| self@.children.contains_key(p) ==> self@.list_ok(p),
                forall|j: int|
                    0 <= j < it.index() ==> self@.parent_ok(
                        *#[trigger] vstd::std_specs::hash::spec_keys_iter(
                            &self.parents,
                        ).remaining()[j],
                    ),
        {
            let p = *self.parents.get(c).unwrap();
            match self.children.get(&p) {
                Some(list) => {
                    let mut found = false;
                    let mut i: usize = 0;
                    while i < list.len()
                        invariant
                            i <= list@.len(),
                            found <==> exists|j: int| 0 <= j < i && list@[j] == NodeId(*c),
                        decreases list@.len() - i,
                    {
                        if list[i] == NodeId(*c) {
                            found = true;
                        }
                        i = i + 1;
                    }
                    if !found {
                        assert(!list@.contains(NodeId(*c)));
                        assert(self@.parents[*c] == p);
                        assert(!self@.links_ok());
                        return false;
                    }
                },
                None => {},
            }
        }
        proof {
            let keys = vstd::std_specs::hash::spec_keys_iter(&self.parents).remaining();
            assert forall|c: u64| self@.parents.contains_key(c) implies self@.parent_ok(c) by {
                assert(keys.unref().to_set().contains(c));
                let i = choose|i: int| 0 <= i < keys.unref().len() && keys.unref()[i] == c;
                assert(*keys[i] == c);
            }
            let v = self@;
            assert forall|p: u64, i: int|
                #![trigger v.children[p][i]]
                v.children.contains_key(p) && 0 <= i < v.children[p].len() implies {
                &&& v.children.contains_key(v.children[p][i].0)
                &&& v.parents.contains_key(v.children[p][i].0)
                &&& v.parents[v.children[p][i].0] == p
            } by {
                assert(v.list_ok(p));
            }
            assert forall|c: u64|
                #![trigger v.parents[c]]
                v.parents.contains_key(c) && v.children.contains_key(v.parents[c])
                    implies v.children[v.parents[c]].contains(NodeId(c)) by {
                assert(v.parent_ok(c));
            }
            assert forall|p: u64| #![trigger v.children[p]] v.children.contains_key(p) implies v.children[
                p
            ].no_duplicates() by {
                assert(v.list_ok(p));
            }
        }
        true
    }

    /// Whether the tree is linked: child lists and parent links agree,
    /// every node has a child list and nothing else has one, and the roots
    /// among the nodes are those without a parent.
    pub fn is_walkable(&self) -> (b: bool)
        ensures
            b == self@.linked(),
    {
        if !self.is_linked() {
            return false;
        }
        for k in it: self.nodes.keys()
            invariant
                it.seq() == vstd::std_specs::hash::spec_keys_iter(&self.nodes).remaining(),
                forall|j: int|
                    0 <= j < it.index() ==> {
                        let x = *#[trigger] vstd::std_specs::hash::spec_keys_iter(
                            &self.nodes,
                        ).remaining()[j];
                        &&& self@.children.contains_key(x)
                        &&& (self@.base.contains(x) <==> !self@.parents.contains_key(x))
                    },
        {
            proof {
                let keys = vstd::std_specs::hash::spec_keys_iter(&self.nodes).remaining();
                assert(keys.unref()[it.index() as int] == *k);
                assert(keys.unref().to_set().contains(*k));
                assert(self@.nodes.dom().contains(*k));
            }
            if !self.children.contains_key(k) {
                return false;
            }
            if self.base.contains(k) == self.parents.contains_key(k) {
                return false;
            }
        }
        for k in it: self.children.keys()
            invariant
                it.seq() == vstd::std_specs::hash::spec_keys_iter(&self.children).remaining(),
                forall|j: int|
                    0 <= j < it.index() ==> self@.nodes.contains_key(
                        *#[trigger] vstd::std_specs::hash::spec_keys_iter(
                            &self.children,
                        ).remaining()[j],
                    ),
        {
            if !self.nodes.contains_key(k) {
                return false;
            }
        }
        proof {
            let nk = vstd::std_specs::hash::spec_keys_iter(&self.nodes).remaining();
            let ck = vstd::std_specs::hash::spec_keys_iter(&self.children).remaining();
            assert forall|x: u64| #[trigger] self@.nodes.dom().contains(x) implies self@.children.contains_key(x)
                && (self@.base.contains(x) <==> !self@.parents.contains_key(x)) by {
                assert(nk.unref().to_set().contains(x));
                let i = choose|i: int| 0 <= i < nk.unref().len() && nk.unref()[i] == x;
                assert(*nk[i] == x);
            }
            assert forall|x: u64| self@.children.dom().contains(x) implies self@.nodes.dom().contains(x) by {
                assert(ck.unref().to_set().contains(x));
                let i = choose|i: int| 0 <= i < ck.unref().len() && ck.unref()[i] == x;
                assert(*ck[i] == x);
            }
            assert(self@.children.dom() =~= self@.nodes.dom());
        }
        true
    }

    /// Whether `id` names a node of the tree.
    pub fn contains(&self, id: NodeId) -> (b: bool)
        ensures
            b == self@.nodes.contains_key(id.0),
    {
        self.nodes.contains_key(&id.0)
    }

    /// Makes `child` a child of `parent`, at the end of its child list, or a
    /// root when `parent` is `None`.
    pub fn set_parent(&mut self, child: NodeId, parent: Option<NodeId>)
        ensures
            final(self)@ == old(self)@.set_parent(
                child.0,
                match parent {
                    Some(p) => Some(p.0),
                    None => None,
                },
            ),
    {
        self.detach(child.0);
        match parent {
            Some(p) => {
                self.base.remove(&child.0);
                self.parents.insert(child.0, p.0);
                let mut list = match self.children.remove(&p.0) {
                    Some(v) => v,
                    None => Vec::new(),
                };
                list.push(child);
                proof {
                    lemma_list_view_insert(self.children@, p.0, list);
                }
                self.children.insert(p.0, list);
            },
            None => {
                self.base.insert(child.0);
            },
        }
    }

    /// Removes the subtrees of the nodes `ids` in turn, as the game loop
    /// does with the nodes despawned during a frame: the same as calling
    /// [`Tree::remove_recursive`] on each of them, stopping at the first
    /// call that stops, whose node it returns.
    pub fn remove_in_turn(&mut self, ids: &Vec<NodeId>) -> (r: Result<(), NodeId>)
        ensures
            (final(self)@, match r {
                Ok(()) => None,
                Err(id) => Some(id),
            }) == removal_run(old(self)@, ids@),
    {
        let mut stack: Vec<NodeId> = Vec::new();
        let mut j: usize = ids.len();
        while j > 0
            invariant
                j <= ids@.len(),
                stack@.reverse() == ids@.subrange(j as int, ids@.len() as int),
            decreases j,
        {
            let ghost before = stack@;
            j = j - 1;
            stack.push(ids[j]);
            proof {
                assert(stack@.reverse() =~= seq![ids@[j as int]] + before.reverse());
                assert(ids@.subrange(j as int, ids@.len() as int) =~= seq![ids@[j as int]]
                    + ids@.subrange(j + 1, ids@.len() as int));
            }
        }
        assert(ids@.subrange(0, ids@.len() as int) =~= ids@);
        self.run_removal(stack)
    }

    /// Removes `node` and all its descendants the way the tree's own links
    /// lead: the node's slot, its parent link and its entry in its parent's
    /// child list go, then its child list is taken and each entry in it is
    /// removed in the same way, in order.  Stops at the first node met that
    /// has no child list, which it returns.  The roots set and the removal
    /// queue are left as they are.  On a tree whose child lists and parent
    /// links agree, a node with a child list has exactly its subtree removed.
    pub fn remove_recursive(&mut self, node: NodeId) -> (r: Result<(), NodeId>)
        ensures
            (final(self)@, match r {
                Ok(()) => None,
                Err(id) => Some(id),
            }) == removal_run(old(self)@, seq![node]),
            old(self)@.links_ok() && old(self)@.children.contains_key(node.0) ==> {
                &&& r is Ok
                &&& final(self)@ == old(self)@.remove_subtree(node.0)
                &&& final(self)@.links_ok()
            },
    {
        let mut stack: Vec<NodeId> = Vec::new();
        stack.push(node);
        proof {
            assert(stack@.reverse() =~= seq![node]);
            assert(list_view(self.children@).dom() =~= self.children@.dom());
            if old(self)@.links_ok() && old(self)@.children.contains_key(node.0) {
                lemma_removal_linked(old(self)@, node.0);
            }
        }
        self.run_removal(stack)
    }

    /// Runs a removal whose pending nodes are `stack`, the last one first.
    fn run_removal(&mut self, pending: Vec<NodeId>) -> (r: Result<(), NodeId>)
        ensures
            (final(self)@, match r {
                Ok(()) => None,
                Err(id) => Some(id),
            }) == removal_run(old(self)@, pending@.reverse()),
    {
        let ghost init = pending@;
        let mut stack = pending;
        let ghost goal = removal_run(self@, stack@.reverse());
        proof {
            assert(list_view(self.children@).dom() =~= self.children@.dom());
        }
        let mut stop: Option<NodeId> = None;
        while stop.is_none() && stack.len() > 0
            invariant
                goal == removal_run(old(self)@, init.reverse()),
                stop is None ==> removal_run(self@, stack@.reverse()) == goal,
                stop matches Some(x) ==> goal == (self@, Some(x)),
                self@.children.dom().finite(),
            decreases self@.children.dom().len(), stack@.len(),
        {
            let ghost before = self@;
            let ghost st = stack@;
            let x = stack.pop().unwrap();
            proof {
                assert(st.reverse()[0] == x);
                assert(st.reverse().drop_first() =~= stack@.reverse());
            }
            self.nodes.remove(&x.0);
            self.detach(x.0);
            match self.children.remove(&x.0) {
                None => {
                    proof {
                        assert(self@ =~= (TreeView { nodes: before.nodes.remove(x.0), ..before.detach(x.0) }));
                        assert(!before.detach(x.0).children.contains_key(x.0));
                        assert(st.reverse().len() > 0);
                    }
                    stop = Some(x);
                },
                Some(list) => {
                    proof {
                        lemma_list_view_remove(self.children@.insert(x.0, list), x.0);
                        assert(self.children@.insert(x.0, list).remove(x.0) =~= self.children@);
                        assert(self@ =~= removal_start(before, x.0));
                        lemma_removal_start_smaller(before, x.0);
                    }
                    let ghost rest = stack@.reverse();
                    let mut j: usize = list.len();
                    while j > 0
                        invariant
                            j <= list@.len(),
                            stack@.reverse() == list@.subrange(j as int, list@.len() as int) + rest,
                        decreases j,
                    {
                        let ghost b = stack@;
                        j = j - 1;
                        stack.push(list[j]);
                        proof {
                            assert(stack@.reverse() =~= seq![list@[j as int]] + b.reverse());
                            assert(list@.subrange(j as int, list@.len() as int) =~= seq![list@[j as int]]
                                + list@.subrange(j + 1, list@.len() as int));
                        }
                    }
                    assert(list@.subrange(0, list@.len() as int) =~= list@);
                },
            }
        }
        match stop {
            Some(x) => Err(x),
            None => {
                proof {
                    assert(stack@.reverse() =~= Seq::<NodeId>::empty());
                }
                Ok(())
            },
        }
    }

    /// Removes the parent link of `child`, and `child` from its parent's
    /// child list.
    fn detach(&mut self, child: u64)
        ensures
            final(self)@ == old(self)@.detach(child),
    {
        if let Some(parent) = self.parents.remove(&child) {
            if let Some(list) = self.children.remove(&parent) {
                let kept = without_id(&list, child);
                proof {
                    lemma_list_view_insert(self.children@, parent, kept);
                }
                self.children.insert(parent, kept);
            }
        }
    }

    /// The children of `parent`, in order.
    pub fn get_children(&self, parent: NodeId) -> (c: &Vec<NodeId>)
        requires
            self@.children.contains_key(parent.0),
        ensures
            c@ == self@.children[parent.0],
    {
        self.children.get(&parent.0).unwrap()
    }

    /// The parent of `child`, if it has one.
    pub fn get_parent(&self, child: NodeId) -> (p: Option<NodeId>)
        ensures
            match p {
                Some(p) => self@.parents.contains_key(child.0) && self@.parents[child.0] == p.0,
                None => !self@.parents.contains_key(child.0),
            },
    {
        match self.parents.get(&child.0) {
            Some(p) => Some(NodeId(*p)),
            None => None,
        }
    }

    /// The payload of the node `id`, if it exists and is not taken out.
    pub fn node(&self, id: NodeId) -> (n: Option<&N>)
        ensures
            match n {
                Some(n) => self@.available(id.0) && self@.nodes[id.0].node == Some(*n),
                None => !self@.available(id.0),
            },
    {
        match self.nodes.get(&id.0) {
            Some(container) => match &container.node {
                Some(node) => Some(node),
                None => None,
            },
            None => None,
        }
    }

    /// The nodes that were made roots, each once, in no particular order.
    pub fn base(&self) -> (ids: Vec<NodeId>)
        ensures
            ids@.len() == self@.base.len(),
            ids@.no_duplicates(),
            forall|i: int| 0 <= i < ids@.len() ==> self@.base.contains(#[trigger] ids@[i].0),
            forall|k: u64| #[trigger] self@.base.contains(k) ==> ids@.contains(NodeId(k)),
            ids_of(ids@) == self@.base,
    {
        let mut ids: Vec<NodeId> = Vec::new();
        for k in it: self.base.iter()
            invariant
                it.seq() == vstd::std_specs::hash::spec_hash_keys_iter(&self.base).remaining(),
                ids@.len() == it.index(),
                forall|i: int|
                    0 <= i < it.index() ==> #[trigger] ids@[i] == NodeId(
                        *vstd::std_specs::hash::spec_hash_keys_iter(&self.base).remaining()[i],
                    ),
        {
            ids.push(NodeId(*k));
        }
        proof {
            let keys = vstd::std_specs::hash::spec_hash_keys_iter(&self.base).remaining();
            assert forall|i: int, j: int|
                0 <= i < ids@.len() && 0 <= j < ids@.len() && i != j implies ids@[i] != ids@[j] by {
                assert(ids@[i] == NodeId(*keys[i]));
                assert(ids@[j] == NodeId(*keys[j]));
            }
            assert forall|i: int| 0 <= i < ids@.len() implies self@.base.contains(
                #[trigger] ids@[i].0,
            ) by {
                assert(ids@[i] == NodeId(*keys[i]));
                assert(keys.unref()[i] == *keys[i]);
                assert(keys.unref().to_set().contains(*keys[i]));
            }
            assert forall|k: u64| #[trigger] self@.base.contains(k) implies ids@.contains(
                NodeId(k),
            ) by {
                assert(keys.unref().to_set().contains(k));
                let i = choose|i: int| 0 <= i < keys.unref().len() && keys.unref()[i] == k;
                assert(ids@[i] == NodeId(*keys[i]));
            }
        }
        ids
    }

    /// Every parent link, as (child, parent), each child once, in no
    /// particular order.
    pub fn parent_links(&self) -> (links: Vec<(NodeId, NodeId)>)
        ensures
            links@.len() == self@.parents.len(),
            forall|i: int|
                0 <= i < links@.len() ==> {
                    &&& self@.parents.contains_key(#[trigger] links@[i].0.0)
                    &&& self@.parents[links@[i].0.0] == links@[i].1.0
                },
            forall|i: int, j: int|
                0 <= i < links@.len() && 0 <= j < links@.len() && i != j ==> links@[i].0
                    != links@[j].0,
            forall|k: u64| #[trigger] self@.parents.contains_key(k) ==> exists|i: int|
                0 <= i < links@.len() && links@[i].0 == NodeId(k),
            crate::parts::lists_parents(self@.parents, links@),
    {
        let mut links: Vec<(NodeId, NodeId)> = Vec::new();
        for k in it: self.parents.keys()
            invariant
                it.seq() == vstd::std_specs::hash::spec_keys_iter(&self.parents).remaining(),
                links@.len() == it.index(),
                forall|i: int|
                    0 <= i < it.index() ==> {
                        &&& #[trigger] links@[i].0 == NodeId(
                            *vstd::std_specs::hash::spec_keys_iter(&self.parents).remaining()[i],
                        )
                        &&& self@.parents.contains_key(links@[i].0.0)
                        &&& self@.parents[links@[i].0.0] == links@[i].1.0
                    },
        {
            proof {
                let keys = vstd::std_specs::hash::spec_keys_iter(&self.parents).remaining();
                assert(keys.unref()[it.index()] == *k);
                assert(keys.unref().to_set().contains(*k));
            }
            let p = *self.parents.get(k).unwrap();
            links.push((NodeId(*k), NodeId(p)));
        }
        proof {
            let keys = vstd::std_specs::hash::spec_keys_iter(&self.parents).remaining();
            assert forall|i: int, j: int|
                0 <= i < links@.len() && 0 <= j < links@.len() && i != j implies links@[i].0
                != links@[j].0 by {
                assert(links@[i].0 == NodeId(*keys[i]));
                assert(links@[j].0 == NodeId(*keys[j]));
            }
            assert forall|k: u64| #[trigger] self@.parents.contains_key(k) implies exists|i: int|
                0 <= i < links@.len() && links@[i].0 == NodeId(k) by {
                assert(keys.unref().to_set().contains(k));
                let i = choose|i: int| 0 <= i < keys.unref().len() && keys.unref()[i] == k;
                assert(links@[i].0 == NodeId(*keys[i]));
            }
        }
        links
    }

    /// The nodes that have a child list, each once, in no particular order.
    pub fn list_owners(&self) -> (ids: Vec<NodeId>)
        ensures
            ids@.len() == self@.children.len(),
            ids@.no_duplicates(),
            forall|i: int| 0 <= i < ids@.len() ==> self@.children.contains_key(#[trigger] ids@[i].0),
            forall|k: u64| #[trigger] self@.children.contains_key(k) ==> ids@.contains(NodeId(k)),
    {
        let mut ids: Vec<NodeId> = Vec::new();
        for k in it: self.children.keys()
            invariant
                it.seq() == vstd::std_specs::hash::spec_keys_iter(&self.children).remaining(),
                ids@.len() == it.index(),
                forall|i: int|
                    0 <= i < it.index() ==> #[trigger] ids@[i] == NodeId(
                        *vstd::std_specs::hash::spec_keys_iter(&self.children).remaining()[i],
                    ),
        {
            ids.push(NodeId(*k));
        }
        proof {
            let keys = vstd::std_specs::hash::spec_keys_iter(&self.children).remaining();
            assert(self@.children.dom() =~= self.children@.dom());
            assert forall|i: int, j: int|
                0 <= i < ids@.len() && 0 <= j < ids@.len() && i != j implies ids@[i] != ids@[j] by {
                assert(ids@[i] == NodeId(*keys[i]));
                assert(ids@[j] == NodeId(*keys[j]));
            }
            assert forall|i: int| 0 <= i < ids@.len() implies self@.children.contains_key(
                #[trigger] ids@[i].0,
            ) by {
                assert(ids@[i] == NodeId(*keys[i]));
                assert(keys.unref()[i] == *keys[i]);
                assert(keys.unref().to_set().contains(*keys[i]));
            }
            assert forall|k: u64| #[trigger] self@.children.contains_key(k) implies ids@.contains(
                NodeId(k),
            ) by {
                assert(keys.unref().to_set().contains(k));
                let i = choose|i: int| 0 <= i < keys.unref().len() && keys.unref()[i] == k;
                assert(ids@[i] == NodeId(*keys[i]));
            }
        }
        ids
    }

    /// Takes the node `node_id` out of the tree, if it exists and is not
    /// already out.  Hand it back with [`Tree::restore`].
    pub fn get_node(&mut self, node_id: NodeId) -> (g: Option<NodeGuard<N>>)
        ensures
            final(self)@ == old(self)@.take(node_id.0),
            match g {
                Some(g) => old(self)@.available(node_id.0) && g.id == node_id && old(
                    self,
                )@.nodes[node_id.0].node == Some(g.node),
                None => !old(self)@.available(node_id.0),
            },
    {
        match self.nodes.remove(&node_id.0) {
            Some(mut container) => {
                let g = container.guard(node_id);
                self.nodes.insert(node_id.0, container);
                proof {
                    assert(self.nodes@ =~= old(self)@.take(node_id.0).nodes);
                }
                g
            },
            None => None,
        }
    }

    /// Hands back a node taken out with [`Tree::get_node`].  A node that was
    /// removed from the tree meanwhile is dropped.
    pub fn restore(&mut self, guard: NodeGuard<N>)
        ensures
            final(self)@ == old(self)@.restore(guard.id.0, guard.node),
    {
        let NodeGuard { id, node } = guard;
        match self.nodes.remove(&id.0) {
            Some(container) => {
                if container.node.is_none() {
                    self.nodes.insert(id.0, NodeContainer::new(node));
                } else {
                    self.nodes.insert(id.0, container);
                    proof {
                        assert(self.nodes@ =~= old(self)@.nodes);
                    }
                }
            },
            None => {},
        }
    }
}

} // verus!
