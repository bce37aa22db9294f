//! What the operations of the scene tree keep and undo.
use crate::node::NodeId;
use crate::reach::{
    in_subtree, lemma_in_subtree_agree, lemma_reaches_submap, lemma_reaches_trans, reaches,
};
use crate::tree::{
    lemma_without_absent, lemma_without_contains, lemma_without_no_duplicates, without,
    NodeContainer, TreeView,
};
use vstd::prelude::*;

verus! {

/// An empty tree is well formed.
pub proof fn lemma_empty_wf<N>(t: TreeView<N>)
    requires
        t.nodes == Map::<u64, NodeContainer<N>>::empty(),
        t.parents == Map::<u64, u64>::empty(),
        t.children == Map::<u64, Seq<NodeId>>::empty(),
    ensures
        t.wf(),
{
    assert(t.children.dom() =~= t.nodes.dom());
}

/// Spawning into a well-formed tree hands out an id that no node has, and
/// keeps the tree well formed.
pub proof fn lemma_spawn_wf<N>(t: TreeView<N>, node: N)
    requires
        t.wf(),
        t.next_id < u64::MAX,
    ensures
        !t.nodes.contains_key(t.next_id),
        t.spawn(node).wf(),
        t.spawn(node).nodes[t.next_id].node == Some(node),
        t.spawn(node).next_id > t.next_id,
{
    let s = t.spawn(node);
    let id = t.next_id;
    assert(!t.nodes.contains_key(id)) by {
        if t.nodes.contains_key(id) {
        }
    }
    assert forall|p: u64, i: int|
        #![trigger s.children[p][i]]
        s.children.contains_key(p) && 0 <= i < s.children[p].len() implies {
        &&& s.children.contains_key(s.children[p][i].0)
        &&& s.parents.contains_key(s.children[p][i].0)
        &&& s.parents[s.children[p][i].0] == p
    } by {
        assert(t.children[p][i] == t.children[p][i]);
    }
    assert forall|c: u64|
        #![trigger s.parents[c]]
        s.parents.contains_key(c) && s.children.contains_key(s.parents[c]) implies s.children[s.parents[
        c
    ]].contains(NodeId(c)) by {
        assert(t.parents[c] == t.parents[c]);
        assert(t.nodes.contains_key(t.parents[c]));
    }
    assert forall|p: u64| #![trigger s.children[p]] s.children.contains_key(p) implies s.children[
        p
    ].no_duplicates() by {
        if p != id {
            assert(t.children[p] == t.children[p]);
        }
    }
    assert(s.children.dom() =~= s.nodes.dom());
    assert forall|c: u64| #![trigger s.parents.dom().contains(c)] s.parents.contains_key(c) implies s.nodes.contains_key(
        c,
    ) && s.nodes.contains_key(s.parents[c]) by {
        assert(t.parents[c] == t.parents[c]);
    }
    assert forall|x: u64| #![trigger s.nodes.dom().contains(x)] s.nodes.contains_key(x) implies (s.base.contains(x)
        <==> !s.parents.contains_key(x)) by {
        if x != id {
            assert(t.nodes[x] == t.nodes[x]);
        } else if s.parents.contains_key(x) {
            assert(t.parents[x] == t.parents[x]);
        }
    }
    assert forall|x: u64| #![trigger s.nodes.dom().contains(x)] s.nodes.contains_key(x) implies x < s.next_id by {
        if x != id {
            assert(t.nodes[x] == t.nodes[x]);
        }
    }
}

/// Detaching a node of a linked tree drops its parent link and takes it out
/// of every child list.
proof fn lemma_detach_linked<N>(t: TreeView<N>, c: u64)
    requires
        t.linked(),
        t.nodes.contains_key(c),
    ensures
        t.detach(c).parents == t.parents.remove(c),
        t.detach(c).children.dom() == t.children.dom(),
        forall|q: u64|
            #[trigger] t.detach(c).children.contains_key(q) ==> {
                &&& t.detach(c).children[q] == without(t.children[q], c)
                &&& !t.detach(c).children[q].contains(NodeId(c))
                &&& t.detach(c).children[q].no_duplicates()
            },
{
    let d = t.detach(c);
    assert(d.parents =~= t.parents.remove(c));
    assert(d.children.dom() =~= t.children.dom());
    assert forall|q: u64| #[trigger] d.children.contains_key(q) implies {
        &&& d.children[q] == without(t.children[q], c)
        &&& !d.children[q].contains(NodeId(c))
        &&& d.children[q].no_duplicates()
    } by {
        if !(t.parents.contains_key(c) && t.parents[c] == q) {
            assert forall|i: int| 0 <= i < t.children[q].len() implies t.children[q][i].0 != c by {
                assert(t.children[q][i] == t.children[q][i]);
            }
            lemma_without_absent(t.children[q], c);
        }
        lemma_without_contains(t.children[q], c, NodeId(c));
        assert(t.children[q] == t.children[q]);
        lemma_without_no_duplicates(t.children[q], c);
    }
}

/// Making a node of a linked tree a root, or a child of another node, keeps
/// the tree linked, whether or not that closes a cycle of parent links: the
/// walk of global transforms can always be taken.
pub proof fn lemma_set_parent_linked<N>(t: TreeView<N>, c: u64, parent: Option<u64>)
    requires
        t.linked(),
        t.nodes.contains_key(c),
        match parent {
            Some(p) => t.nodes.contains_key(p),
            None => true,
        },
    ensures
        t.set_parent(c, parent).linked(),
{
    let s = t.set_parent(c, parent);
    let d = t.detach(c);
    lemma_detach_linked(t, c);
    let pp = t.parents;
    // Entries of the detached lists keep their parent links.
    assert forall|q: u64, i: int|
        d.children.contains_key(q) && 0 <= i < d.children[q].len() implies {
        &&& d.children[q][i].0 != c
        &&& t.children.contains_key(d.children[q][i].0)
        &&& pp.contains_key(d.children[q][i].0)
        &&& pp[d.children[q][i].0] == q
    } by {
        let e = d.children[q][i];
        assert(d.children[q].contains(e));
        lemma_without_contains(t.children[q], c, e);
        let j = choose|j: int| 0 <= j < t.children[q].len() && t.children[q][j] == e;
        assert(t.children[q][j] == t.children[q][j]);
    }
    match parent {
        Some(p) => {
            let p2 = pp.insert(c, p);
            assert(s.parents =~= p2);
            assert(s.children.dom() =~= t.children.dom());
            assert forall|q: u64, i: int|
                #![trigger s.children[q][i]]
                s.children.contains_key(q) && 0 <= i < s.children[q].len() implies {
                &&& s.children.contains_key(s.children[q][i].0)
                &&& s.parents.contains_key(s.children[q][i].0)
                &&& s.parents[s.children[q][i].0] == q
            } by {
                if q == p && i == d.children[p].len() {
                } else {
                    assert(s.children[q][i] == d.children[q][i]);
                }
            }
            assert forall|x: u64|
                #![trigger s.parents[x]]
                s.parents.contains_key(x) && s.children.contains_key(s.parents[x]) implies s.children[s.parents[
                x
            ]].contains(NodeId(x)) by {
                if x == c {
                    assert(s.children[p][d.children[p].len() as int] == NodeId(c));
                } else {
                    assert(pp[x] == pp[x]);
                    assert(t.children[pp[x]].contains(NodeId(x)));
                    lemma_without_contains(t.children[pp[x]], c, NodeId(x));
                    if pp[x] == p {
                        let j = choose|j: int|
                            0 <= j < d.children[p].len() && d.children[p][j] == NodeId(x);
                        assert(s.children[p][j] == NodeId(x));
                    }
                }
            }
            assert forall|q: u64| #![trigger s.children[q]] s.children.contains_key(q) implies s.children[
                q
            ].no_duplicates() by {
                if q == p {
                    let l = d.children[p];
                    assert forall|a: int, b: int|
                        0 <= a < l.push(NodeId(c)).len() && 0 <= b < l.push(NodeId(c)).len() && a
                            != b implies l.push(NodeId(c))[a] != l.push(NodeId(c))[b] by {
                        if a == l.len() {
                            assert(l.contains(l[b]));
                        } else if b == l.len() {
                            assert(l.contains(l[a]));
                        }
                    }
                }
            }
            assert forall|x: u64| #![trigger s.nodes.dom().contains(x)] s.nodes.contains_key(
                x,
            ) implies (s.base.contains(x) <==> !s.parents.contains_key(x)) by {
                assert(t.nodes.dom().contains(x));
            }
        },
        None => {
            let p2 = pp.remove(c);
            assert(s.parents =~= p2);
            assert forall|q: u64, i: int|
                #![trigger s.children[q][i]]
                s.children.contains_key(q) && 0 <= i < s.children[q].len() implies {
                &&& s.children.contains_key(s.children[q][i].0)
                &&& s.parents.contains_key(s.children[q][i].0)
                &&& s.parents[s.children[q][i].0] == q
            } by {
                assert(s.children[q][i] == d.children[q][i]);
            }
            assert forall|x: u64|
                #![trigger s.parents[x]]
                s.parents.contains_key(x) && s.children.contains_key(s.parents[x]) implies s.children[s.parents[
                x
            ]].contains(NodeId(x)) by {
                assert(pp[x] == pp[x]);
                assert(t.children[pp[x]].contains(NodeId(x)));
                lemma_without_contains(t.children[pp[x]], c, NodeId(x));
            }
            assert forall|x: u64| #![trigger s.nodes.dom().contains(x)] s.nodes.contains_key(
                x,
            ) implies (s.base.contains(x) <==> !s.parents.contains_key(x)) by {
                assert(t.nodes.dom().contains(x));
            }
        },
    }
}

/// Making a node of a well-formed tree a root, or a child of another node
/// that is not in its subtree, keeps the tree well formed.
pub proof fn lemma_set_parent_wf<N>(t: TreeView<N>, c: u64, parent: Option<u64>)
    requires
        t.wf(),
        t.nodes.contains_key(c),
        match parent {
            Some(p) => t.nodes.contains_key(p) && !t.in_subtree(p, c),
            None => true,
        },
    ensures
        t.set_parent(c, parent).wf(),
{
    let s = t.set_parent(c, parent);
    lemma_set_parent_linked(t, c, parent);
    let pp = t.parents;
    match parent {
        Some(p) => {
            let p2 = pp.insert(c, p);
            assert(s.parents =~= p2);
            // No node becomes its own ancestor.
            lemma_in_subtree_agree(pp, p2, c);
            assert forall|x: u64| #![trigger s.parents[x]] s.parents.contains_key(x) implies !s.in_subtree(
                s.parents[x],
                x,
            ) by {
                if x != c && in_subtree(p2, pp[x], x) {
                    assert(pp[x] == pp[x]);
                    let k = choose|k: nat| reaches(p2, pp[x], x, k);
                    crate::reach::lemma_reaches_relink(pp, c, p, pp[x], x, k);
                    if !in_subtree(pp, pp[x], x) {
                        let k2 = choose|k2: nat| reaches(p2, p, x, k2);
                        crate::reach::lemma_reaches_relink(pp, c, p, p, x, k2);
                        let k3 = choose|k3: nat| reaches(pp, p, x, k3);
                        let k4 = choose|k4: nat| reaches(pp, pp[x], c, k4);
                        assert(reaches(pp, x, c, k4 + 1));
                        lemma_reaches_trans(pp, p, x, c, k3, k4 + 1);
                    }
                }
            }
            assert forall|y: u64| #![trigger s.parents.dom().contains(y)] s.parents.contains_key(
                y,
            ) implies s.nodes.contains_key(y) && s.nodes.contains_key(s.parents[y]) by {
                if y != c {
                    assert(pp.dom().contains(y));
                }
            }
            assert forall|x: u64| #![trigger s.nodes.dom().contains(x)] s.nodes.contains_key(
                x,
            ) implies x < s.next_id by {
                assert(t.nodes.dom().contains(x));
            }
        },
        None => {
            let p2 = pp.remove(c);
            assert(s.parents =~= p2);
            assert forall|x: u64| #![trigger s.parents[x]] s.parents.contains_key(x) implies !s.in_subtree(
                s.parents[x],
                x,
            ) by {
                assert(pp[x] == pp[x]);
                if in_subtree(p2, pp[x], x) {
                    let k = choose|k: nat| reaches(p2, pp[x], x, k);
                    lemma_reaches_submap(p2, pp, pp[x], x, k);
                }
            }
            assert forall|y: u64| #![trigger s.parents.dom().contains(y)] s.parents.contains_key(
                y,
            ) implies s.nodes.contains_key(y) && s.nodes.contains_key(s.parents[y]) by {
                assert(pp.dom().contains(y));
            }
            assert forall|x: u64| #![trigger s.nodes.dom().contains(x)] s.nodes.contains_key(
                x,
            ) implies x < s.next_id by {
                assert(t.nodes.dom().contains(x));
            }
        },
    }
}

/// Removing the subtree of a node of a well-formed tree keeps it well formed;
/// exactly the node and its descendants are gone, and every other node keeps
/// its slot and its parent link.
pub proof fn lemma_remove_subtree_wf<N>(t: TreeView<N>, root: u64)
    requires
        t.wf(),
        t.nodes.contains_key(root),
    ensures
        t.remove_subtree(root).wf(),
        forall|x: u64|
            #![trigger t.remove_subtree(root).nodes.dom().contains(x)]
            t.remove_subtree(root).nodes.contains_key(x) <==> t.nodes.contains_key(x)
                && !t.in_subtree(x, root),
        forall|x: u64|
            #![trigger t.remove_subtree(root).nodes[x]]
            t.remove_subtree(root).nodes.contains_key(x) ==> t.remove_subtree(root).nodes[x]
                == t.nodes[x],
        forall|x: u64|
            #![trigger t.remove_subtree(root).parents[x]]
            t.remove_subtree(root).parents.contains_key(x) ==> t.remove_subtree(root).parents[x]
                == t.parents[x],
        forall|x: u64|
            #![trigger t.remove_subtree(root).parents.dom().contains(x)]
            t.nodes.contains_key(x) && !t.in_subtree(x, root) ==> (t.remove_subtree(
                root,
            ).parents.contains_key(x) <==> t.parents.contains_key(x)),
{
    let r = t.remove_subtree(root);
    let d = t.subtree(root);
    let pp = t.parents;
    assert(reaches(pp, root, root, 0));
    assert(d.contains(root));
    // The parent of a survivor survives.
    assert forall|x: u64| pp.contains_key(x) && !d.contains(x) implies !d.contains(
        #[trigger] pp[x],
    ) by {
        if d.contains(pp[x]) {
            let k = choose|k: nat| reaches(pp, pp[x], root, k);
            assert(reaches(pp, x, root, k + 1));
        }
    }
    assert forall|q: u64, i: int|
        #![trigger r.children[q][i]]
        r.children.contains_key(q) && 0 <= i < r.children[q].len() implies {
        &&& r.children.contains_key(r.children[q][i].0)
        &&& r.parents.contains_key(r.children[q][i].0)
        &&& r.parents[r.children[q][i].0] == q
    } by {
        let e = r.children[q][i];
        assert(r.children[q].contains(e));
        lemma_without_contains(t.children[q], root, e);
        let j = choose|j: int| 0 <= j < t.children[q].len() && t.children[q][j] == e;
        assert(t.children[q][j] == t.children[q][j]);
        if d.contains(e.0) {
            let k = choose|k: nat| reaches(pp, e.0, root, k);
            assert(reaches(pp, q, root, (k - 1) as nat));
        }
    }
    assert forall|x: u64|
        #![trigger r.parents[x]]
        r.parents.contains_key(x) && r.children.contains_key(r.parents[x]) implies r.children[r.parents[
        x
    ]].contains(NodeId(x)) by {
        assert(pp[x] == pp[x]);
        assert(t.children[pp[x]].contains(NodeId(x)));
        lemma_without_contains(t.children[pp[x]], root, NodeId(x));
    }
    assert forall|q: u64| #![trigger r.children[q]] r.children.contains_key(q) implies r.children[
        q
    ].no_duplicates() by {
        assert(t.children[q] == t.children[q]);
        lemma_without_no_duplicates(t.children[q], root);
    }
    assert forall|x: u64| #![trigger r.parents[x]] r.parents.contains_key(x) implies !r.in_subtree(
        r.parents[x],
        x,
    ) by {
        assert(pp[x] == pp[x]);
        if in_subtree(r.parents, pp[x], x) {
            let k = choose|k: nat| reaches(r.parents, pp[x], x, k);
            lemma_reaches_submap(r.parents, pp, pp[x], x, k);
        }
    }
    assert(r.children.dom() =~= r.nodes.dom());
    assert forall|y: u64| #![trigger r.parents.dom().contains(y)] r.parents.contains_key(
        y,
    ) implies r.nodes.contains_key(y) && r.nodes.contains_key(r.parents[y]) by {
        assert(pp.dom().contains(y));
    }
    assert forall|x: u64| #![trigger r.nodes.dom().contains(x)] r.nodes.contains_key(
        x,
    ) implies (r.base.contains(x) <==> !r.parents.contains_key(x)) by {
        assert(t.nodes.dom().contains(x));
    }
    assert forall|x: u64| #![trigger r.nodes.dom().contains(x)] r.nodes.contains_key(
        x,
    ) implies x < r.next_id by {
        assert(t.nodes.dom().contains(x));
    }
    assert(r.nodes.dom().subset_of(t.nodes.dom()));
    vstd::set_lib::lemma_len_subset(r.nodes.dom(), t.nodes.dom());
}

/// `without` drops the entries of a list that name `id` and keeps the
/// others in their order: it is empty on the empty list, and an entry added
/// at the end is kept exactly when it does not name `id`.
pub proof fn lemma_without_step(l: Seq<NodeId>, x: NodeId, id: u64)
    ensures
        without(Seq::<NodeId>::empty(), id) == Seq::<NodeId>::empty(),
        without(l.push(x), id) == if x.0 == id {
            without(l, id)
        } else {
            without(l, id).push(x)
        },
{
    reveal(Seq::filter);
    assert(l.push(x).drop_last() =~= l);
    assert(without(Seq::<NodeId>::empty(), id) =~= Seq::<NodeId>::empty());
}

/// What `set_parent` does to a tree whose child lists and parent links
/// agree: `c`'s parent link becomes `parent`; `c` leaves every child list,
/// which otherwise keep their entries in order; with a new parent `p`, `c`
/// goes to the end of `p`'s child list (a new list if `p` had none); the
/// roots gain `c` exactly when it gets no parent; the nodes stay.
pub proof fn lemma_set_parent_lists<N>(t: TreeView<N>, c: u64, parent: Option<u64>)
    requires
        t.links_ok(),
    ensures
        t.set_parent(c, parent).nodes == t.nodes,
        t.set_parent(c, parent).parents == match parent {
            Some(p) => t.parents.insert(c, p),
            None => t.parents.remove(c),
        },
        t.set_parent(c, parent).base == match parent {
            Some(p) => t.base.remove(c),
            None => t.base.insert(c),
        },
        t.set_parent(c, parent).children.dom() == match parent {
            Some(p) => t.children.dom().insert(p),
            None => t.children.dom(),
        },
        forall|q: u64|
            #[trigger] t.set_parent(c, parent).children.contains_key(q) ==> t.set_parent(
                c,
                parent,
            ).children[q] == if parent == Some(q) {
                if t.children.contains_key(q) {
                    without(t.children[q], c)
                } else {
                    Seq::<NodeId>::empty()
                }.push(NodeId(c))
            } else {
                without(t.children[q], c)
            },
{
    let s = t.set_parent(c, parent);
    let d = t.detach(c);
    assert(d.children.dom() =~= t.children.dom());
    assert forall|q: u64| #[trigger] d.children.contains_key(q) implies d.children[q] == without(
        t.children[q],
        c,
    ) by {
        if !(t.parents.contains_key(c) && t.parents[c] == q) {
            assert forall|i: int| 0 <= i < t.children[q].len() implies t.children[q][i].0 != c by {
                assert(t.children[q][i] == t.children[q][i]);
            }
            lemma_without_absent(t.children[q], c);
        }
    }
    match parent {
        Some(p) => {
            assert(s.parents =~= t.parents.insert(c, p));
            assert(s.children.dom() =~= t.children.dom().insert(p));
        },
        None => {
            assert(s.parents =~= t.parents.remove(c));
        },
    }
}

/// Spawning a child of a node of a well-formed tree appends the new node to
/// the end of its parent's child list, leaves every other child list as it
/// was, and gives the new node an empty child list and its parent link.
pub proof fn lemma_spawn_child_appends<N>(t: TreeView<N>, node: N, parent: u64)
    requires
        t.wf(),
        t.nodes.contains_key(parent),
        t.next_id < u64::MAX,
    ensures
        ({
            let s = t.spawn(node).set_parent(t.next_id, Some(parent));
            &&& s.children[parent] == t.children[parent].push(NodeId(t.next_id))
            &&& s.children[t.next_id] == Seq::<NodeId>::empty()
            &&& forall|q: u64|
                #[trigger] t.children.contains_key(q) && q != parent ==> s.children[q]
                    == t.children[q]
            &&& s.parents == t.parents.insert(t.next_id, parent)
        }),
{
    let id = t.next_id;
    let u = t.spawn(node);
    lemma_spawn_wf(t, node);
    lemma_set_parent_lists(u, id, Some(parent));
    let s = u.set_parent(id, Some(parent));
    assert(u.parents =~= t.parents);
    assert forall|q: u64| #[trigger] t.children.contains_key(q) implies without(t.children[q], id)
        == t.children[q] by {
        assert forall|i: int| 0 <= i < t.children[q].len() implies t.children[q][i].0 != id by {
            assert(t.children[q][i] == t.children[q][i]);
            assert(t.nodes.dom().contains(t.children[q][i].0));
        }
        lemma_without_absent(t.children[q], id);
    }
    assert(t.nodes.dom().contains(parent));
    assert(u.children[parent] == t.children[parent]);
    assert(s.children.contains_key(parent));
    assert(s.children.contains_key(id));
    lemma_without_step(Seq::<NodeId>::empty(), NodeId(0), id);
    assert forall|q: u64| #[trigger] t.children.contains_key(q) && q != parent implies s.children[q]
        == t.children[q] by {
        assert(s.children.contains_key(q));
        assert(u.children[q] == t.children[q]) by {
            if q == id {
                assert(t.nodes.dom().contains(q));
            }
        }
    }
}

/// Spawning adds one node, under the next id, with an empty child list, as
/// a root without a parent; it leaves every other node, link and list as
/// it was and moves the next id on by one.
pub proof fn lemma_spawn_effect<N>(t: TreeView<N>, node: N)
    requires
        t.wf(),
        t.next_id < u64::MAX,
    ensures
        t.spawn(node).nodes == t.nodes.insert(t.next_id, NodeContainer { node: Some(node) }),
        t.spawn(node).parents == t.parents,
        !t.spawn(node).parents.contains_key(t.next_id),
        t.spawn(node).children == t.children.insert(t.next_id, Seq::<NodeId>::empty()),
        t.spawn(node).base == t.base.insert(t.next_id),
        t.spawn(node).next_id == t.next_id + 1,
        t.spawn(node).despawn == t.despawn,
{
    if t.parents.contains_key(t.next_id) {
        assert(t.parents.dom().contains(t.next_id));
    }
}

/// Removing the subtree of a node of a well-formed tree leaves the child
/// lists of the surviving nodes as they were, in order, except that the
/// removed node leaves its parent's list; the roots, the next id and the
/// removal queue stay.
pub proof fn lemma_remove_subtree_lists<N>(t: TreeView<N>, root: u64)
    requires
        t.wf(),
        t.nodes.contains_key(root),
    ensures
        forall|x: u64|
            #[trigger] t.remove_subtree(root).children.contains_key(x) <==> t.nodes.contains_key(x)
                && !t.in_subtree(x, root),
        forall|x: u64|
            #[trigger] t.remove_subtree(root).children.contains_key(x) ==> t.remove_subtree(
                root,
            ).children[x] == if t.parents.contains_key(root) && t.parents[root] == x {
                without(t.children[x], root)
            } else {
                t.children[x]
            },
        t.remove_subtree(root).base == t.base,
        t.remove_subtree(root).next_id == t.next_id,
        t.remove_subtree(root).despawn == t.despawn,
{
    let r = t.remove_subtree(root);
    assert forall|x: u64| #[trigger] r.children.contains_key(x) implies r.children[x] == if t.parents.contains_key(
        root,
    ) && t.parents[root] == x {
        without(t.children[x], root)
    } else {
        t.children[x]
    } by {
        if !(t.parents.contains_key(root) && t.parents[root] == x) {
            assert forall|i: int| 0 <= i < t.children[x].len() implies t.children[x][i].0 != root by {
                assert(t.children[x][i] == t.children[x][i]);
            }
            lemma_without_absent(t.children[x], root);
        }
    }
    assert forall|x: u64| #[trigger] r.children.contains_key(x) <==> t.nodes.contains_key(x)
        && !t.in_subtree(x, root) by {
        assert(t.nodes.dom().contains(x) <==> t.children.dom().contains(x));
    }
}

/// Spawning a child of a node of a well-formed tree keeps it well formed: the
/// new node is the last child of its parent.
pub proof fn lemma_spawn_child_wf<N>(t: TreeView<N>, node: N, parent: u64)
    requires
        t.wf(),
        t.nodes.contains_key(parent),
        t.next_id < u64::MAX,
    ensures
        t.spawn(node).set_parent(t.next_id, Some(parent)).wf(),
        t.spawn(node).set_parent(t.next_id, Some(parent)).parents[t.next_id] == parent,
        t.spawn(node).set_parent(t.next_id, Some(parent)).children[parent].last() == NodeId(
            t.next_id,
        ),
        t.spawn(node).set_parent(t.next_id, Some(parent)).nodes[t.next_id].node == Some(node),
{
    let s = t.spawn(node);
    let id = t.next_id;
    lemma_spawn_wf(t, node);
    assert(s.parents == t.parents);
    assert(parent != id);
    assert(!s.in_subtree(parent, id)) by {
        if in_subtree(s.parents, parent, id) {
            let k = choose|k: nat| reaches(s.parents, parent, id, k);
            crate::reach::lemma_reaches_unlinked(s.parents, parent, id, k);
            let y = choose|y: u64| s.parents.contains_key(y) && #[trigger] s.parents[y] == id;
            assert(t.parents.dom().contains(y));
        }
    }
    lemma_set_parent_wf(s, id, Some(parent));
}

/// After `set_parent`, the child has the new parent (and is the last entry of
/// its child list), or no parent and is a root.
pub proof fn lemma_set_parent_result<N>(t: TreeView<N>, c: u64, parent: Option<u64>)
    ensures
        match parent {
            Some(p) => {
                &&& t.set_parent(c, parent).parents.contains_key(c)
                &&& t.set_parent(c, parent).parents[c] == p
                &&& t.set_parent(c, parent).children[p].last() == NodeId(c)
                &&& !t.set_parent(c, parent).base.contains(c)
            },
            None => {
                &&& !t.set_parent(c, parent).parents.contains_key(c)
                &&& t.set_parent(c, parent).base.contains(c)
            },
        },
{
}

/// Taking a node out and handing it back leaves the tree as it was.
pub proof fn lemma_take_restore<N>(t: TreeView<N>, id: u64)
    requires
        t.available(id),
    ensures
        t.take(id).restore(id, t.nodes[id].node->Some_0) == t,
{
    let r = t.take(id).restore(id, t.nodes[id].node->Some_0);
    assert(r.nodes =~= t.nodes);
    assert(r =~= t);
}

/// A node that is out cannot be taken again until it is handed back.
pub proof fn lemma_take_twice<N>(t: TreeView<N>, id: u64)
    ensures
        !t.take(id).available(id),
        t.take(id).take(id) == t.take(id),
{
}

impl<N> TreeView<N> {
    /// The plain forest invariant: no node is its own ancestor, `x` has the
    /// parent `y` exactly when `y` has a child list and it holds `x` (stated
    /// as its two directions), child lists hold
    /// each child once, and the roots are the nodes without a parent.
    pub open spec fn forest(self) -> bool {
        &&& self.acyclic()
        &&& forall|x: u64|
            #![trigger self.parents[x]]
            self.parents.contains_key(x) ==> self.children.contains_key(self.parents[x])
                && self.children[self.parents[x]].contains(NodeId(x))
        &&& forall|y: u64, i: int|
            #![trigger self.children[y][i]]
            self.children.contains_key(y) && 0 <= i < self.children[y].len() ==> self.parents.contains_key(
                self.children[y][i].0,
            ) && self.parents[self.children[y][i].0] == y
        &&& forall|p: u64|
            #![trigger self.children[p]]
            self.children.contains_key(p) ==> self.children[p].no_duplicates()
        &&& self.base == self.nodes.dom().difference(self.parents.dom())
    }
}

proof fn lemma_push_contains_iff(l: Seq<NodeId>, a: NodeId, x: NodeId)
    ensures
        l.push(a).contains(x) <==> l.contains(x) || x == a,
{
    if l.push(a).contains(x) {
        let k = choose|k: int| 0 <= k < l.push(a).len() && l.push(a)[k] == x;
        if k < l.len() {
            assert(l[k] == x);
        }
    }
    if l.contains(x) {
        let k = choose|k: int| 0 <= k < l.len() && l[k] == x;
        assert(l.push(a)[k] == x);
    }
    assert(l.push(a)[l.len() as int] == a);
}

/// Making a node of a forest a root, or a child of another node that is
/// neither it nor one of its descendants, keeps the forest invariant.
pub proof fn lemma_set_parent_forest<N>(t: TreeView<N>, c: u64, parent: Option<u64>)
    requires
        t.forest(),
        t.nodes.contains_key(c),
        match parent {
            Some(q) => t.nodes.contains_key(q) && !t.in_subtree(q, c),
            None => true,
        },
    ensures
        t.set_parent(c, parent).forest(),
{
    let s = t.set_parent(c, parent);
    let d = t.detach(c);
    let pp = t.parents;
    // After detaching, `c` is in no list, and every other entry is unchanged.
    assert forall|y: u64| #[trigger] d.children.contains_key(y) implies d.children[y].no_duplicates()
        && !d.children[y].contains(NodeId(c)) && forall|x: u64| x != c ==> (#[trigger] d.children[
        y
    ].contains(NodeId(x)) <==> t.children[y].contains(NodeId(x))) by {
        assert(t.children.contains_key(y));
        assert(t.children[y].no_duplicates());
        if t.parents.contains_key(c) && t.parents[c] == y {
            lemma_without_contains(t.children[y], c, NodeId(c));
            lemma_without_no_duplicates(t.children[y], c);
            assert forall|x: u64| x != c implies (#[trigger] d.children[y].contains(NodeId(x))
                <==> t.children[y].contains(NodeId(x))) by {
                lemma_without_contains(t.children[y], c, NodeId(x));
            }
        } else {
            assert(d.children[y] == t.children[y]);
            if t.children[y].contains(NodeId(c)) {
                assert(t.parents.contains_key(c) && t.parents[c] == y);
            }
        }
    }
    assert(d.children.dom() =~= t.children.dom());
    match parent {
        Some(q) => {
            let p2 = pp.insert(c, q);
            assert(s.parents =~= p2);
            let lq = if d.children.contains_key(q) {
                d.children[q]
            } else {
                Seq::empty()
            };
            assert(!lq.contains(NodeId(c)));
            assert(s.children[q] == lq.push(NodeId(c)));
            assert forall|x: u64| #![trigger s.parents[x]] s.parents.contains_key(x) implies s.children.contains_key(
                s.parents[x],
            ) && s.children[s.parents[x]].contains(NodeId(x)) by {
                if x == c {
                    lemma_push_contains_iff(lq, NodeId(c), NodeId(c));
                } else {
                    let y = pp[x];
                    assert(t.children.contains_key(y) && t.children[y].contains(NodeId(x)));
                    assert(d.children.contains_key(y));
                    assert(d.children[y].contains(NodeId(x)));
                    if y == q {
                        lemma_push_contains_iff(lq, NodeId(c), NodeId(x));
                    } else {
                        assert(s.children[y] == d.children[y]);
                    }
                }
            }
            assert forall|y: u64, i: int|
                #![trigger s.children[y][i]]
                s.children.contains_key(y) && 0 <= i < s.children[y].len() implies s.parents.contains_key(
                s.children[y][i].0,
            ) && s.parents[s.children[y][i].0] == y by {
                let e = s.children[y][i];
                if y == q && i == lq.len() {
                    assert(e == NodeId(c));
                } else {
                    let l = d.children[y];
                    assert(d.children.contains_key(y));
                    assert(e == l[i]);
                    assert(l.contains(e));
                    if e.0 == c {
                        assert(!l.contains(NodeId(c)));
                    }
                    assert(e == NodeId(e.0));
                    assert(d.children[y].contains(NodeId(e.0)));
                    assert(t.children[y].contains(e));
                    let j = choose|j: int| 0 <= j < t.children[y].len() && t.children[y][j] == e;
                    assert(pp[t.children[y][j].0] == y);
                }
            }
            assert forall|y: u64| #![trigger s.children[y]] s.children.contains_key(y) implies s.children[
                y
            ].no_duplicates() by {
                if y == q {
                    assert forall|a: int, b: int|
                        0 <= a < lq.push(NodeId(c)).len() && 0 <= b < lq.push(NodeId(c)).len() && a
                            != b implies lq.push(NodeId(c))[a] != lq.push(NodeId(c))[b] by {
                        if a == lq.len() {
                            assert(lq.contains(lq[b]));
                        } else if b == lq.len() {
                            assert(lq.contains(lq[a]));
                        } else if d.children.contains_key(q) {
                            assert(lq.no_duplicates());
                        }
                    }
                } else {
                    assert(s.children[y] == d.children[y]);
                }
            }
            assert(s.base =~= s.nodes.dom().difference(s.parents.dom()));
            // No node becomes its own ancestor.
            lemma_in_subtree_agree(pp, p2, c);
            assert forall|x: u64| #![trigger s.parents[x]] s.parents.contains_key(x) implies !s.in_subtree(
                s.parents[x],
                x,
            ) by {
                if x != c && in_subtree(p2, pp[x], x) {
                    assert(pp[x] == pp[x]);
                    let k = choose|k: nat| reaches(p2, pp[x], x, k);
                    crate::reach::lemma_reaches_relink(pp, c, q, pp[x], x, k);
                    if !in_subtree(pp, pp[x], x) {
                        let k2 = choose|k2: nat| reaches(p2, q, x, k2);
                        crate::reach::lemma_reaches_relink(pp, c, q, q, x, k2);
                        let k3 = choose|k3: nat| reaches(pp, q, x, k3);
                        let k4 = choose|k4: nat| reaches(pp, pp[x], c, k4);
                        assert(reaches(pp, x, c, k4 + 1));
                        lemma_reaches_trans(pp, q, x, c, k3, k4 + 1);
                    }
                }
            }
        },
        None => {
            let p2 = pp.remove(c);
            assert(s.parents =~= p2);
            assert forall|x: u64| #![trigger s.parents[x]] s.parents.contains_key(x) implies s.children.contains_key(
                s.parents[x],
            ) && s.children[s.parents[x]].contains(NodeId(x)) by {
                let y = pp[x];
                assert(t.children.contains_key(y) && t.children[y].contains(NodeId(x)));
                assert(d.children.contains_key(y));
                assert(d.children[y].contains(NodeId(x)));
                assert(s.children[y] == d.children[y]);
            }
            assert forall|y: u64, i: int|
                #![trigger s.children[y][i]]
                s.children.contains_key(y) && 0 <= i < s.children[y].len() implies s.parents.contains_key(
                s.children[y][i].0,
            ) && s.parents[s.children[y][i].0] == y by {
                let e = s.children[y][i];
                let l = d.children[y];
                assert(s.children[y] == l);
                assert(d.children.contains_key(y));
                assert(l.contains(e));
                if e.0 == c {
                    assert(!l.contains(NodeId(c)));
                }
                assert(e == NodeId(e.0));
                assert(d.children[y].contains(NodeId(e.0)));
                assert(t.children[y].contains(e));
                let j = choose|j: int| 0 <= j < t.children[y].len() && t.children[y][j] == e;
                assert(pp[t.children[y][j].0] == y);
            }
            assert forall|y: u64| #![trigger s.children[y]] s.children.contains_key(y) implies s.children[
                y
            ].no_duplicates() by {
                assert(s.children[y] == d.children[y]);
            }
            assert(s.base =~= s.nodes.dom().difference(s.parents.dom()));
            assert forall|x: u64| #![trigger s.parents[x]] s.parents.contains_key(x) implies !s.in_subtree(
                s.parents[x],
                x,
            ) by {
                assert(pp[x] == pp[x]);
                if in_subtree(p2, pp[x], x) {
                    let k = choose|k: nat| reaches(p2, pp[x], x, k);
                    lemma_reaches_submap(p2, pp, pp[x], x, k);
                }
            }
        },
    }
}

} // verus!
