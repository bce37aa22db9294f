//! What the editor's outline of the scene tree does with the tree: a node
//! dragged onto another becomes its child, one dragged onto the add button
//! becomes a root, and the add button spawns under the selected node.
use crate::node::NodeId;
use crate::tree::{Tree, TreeView};
use crate::tree::without;
use crate::tree_laws::{
    lemma_set_parent_linked, lemma_set_parent_lists, lemma_set_parent_wf, lemma_spawn_child_wf,
    lemma_spawn_wf,
};
use vstd::prelude::*;

verus! {

/// The parent a drop onto `target` gives: the target node, or none for the
/// add button.
pub open spec fn drop_parent(target: Option<NodeId>) -> Option<u64> {
    match target {
        Some(t) => Some(t.0),
        None => None,
    }
}

/// The tree after the node `dragged` is dropped onto `target`: a node
/// dropped onto itself stays where it is.
pub open spec fn dropped<N>(t: TreeView<N>, dragged: NodeId, target: Option<NodeId>) -> TreeView<
    N,
> {
    if target == Some(dragged) {
        t
    } else {
        t.set_parent(dragged.0, drop_parent(target))
    }
}

/// Whether the outline shows the dragged node as a child of `node` while
/// the pointer is over `node`: only a node that is not `node` itself and
/// not already one of its `children`.
pub fn shows_as_child(dragged: Option<NodeId>, node: NodeId, children: &Vec<NodeId>, hovered: bool) -> (b: bool)
    ensures
        b == (hovered && (dragged matches Some(d) && d != node && !children@.contains(d))),
{
    match dragged {
        Some(d) => {
            if !hovered || d == node {
                return false;
            }
            let mut i: usize = 0;
            while i < children.len()
                invariant
                    i <= children@.len(),
                    hovered,
                    dragged == Some(d),
                    d != node,
                    forall|j: int| 0 <= j < i ==> children@[j] != d,
                decreases children@.len() - i,
            {
                if children[i] == d {
                    assert(children@[i as int] == d);
                    return false;
                }
                i += 1;
            }
            assert(!children@.contains(d));
            true
        },
        None => false,
    }
}

impl<N> Tree<N> {
    /// Drops the node `dragged` onto `target`: onto a node it becomes that
    /// node's last child, onto the add button (`None`) a root.  Dropping a
    /// node onto itself does nothing.  Between nodes of a linked tree the
    /// tree stays linked, even when the drop closes a cycle.
    pub fn drop_dragged(&mut self, dragged: NodeId, target: Option<NodeId>)
        ensures
            final(self)@ == dropped(old(self)@, dragged, target),
            old(self)@.linked() && old(self)@.nodes.contains_key(dragged.0) && (target matches Some(
                t,
            ) ==> old(self)@.nodes.contains_key(t.0)) ==> final(self)@.linked(),
    {
        if target != Some(dragged) {
            proof {
                if old(self)@.linked() && old(self)@.nodes.contains_key(dragged.0) && (
                target matches Some(t) ==> old(self)@.nodes.contains_key(t.0)) {
                    lemma_set_parent_linked(old(self)@, dragged.0, drop_parent(target));
                }
            }
            self.set_parent(dragged, target);
        }
    }

    /// The add button: spawns `node` as the last child of the selected
    /// node, or as a root when none is selected.  `None` when the selected
    /// node does not exist.
    pub fn add_node(&mut self, node: N, selected: Option<NodeId>) -> (r: Option<NodeId>)
        requires
            old(self)@.next_id < u64::MAX,
        ensures
            match selected {
                Some(p) => match r {
                    Some(id) => {
                        &&& old(self)@.nodes.contains_key(p.0)
                        &&& id.0 == old(self)@.next_id
                        &&& final(self)@ == old(self)@.spawn(node).set_parent(id.0, Some(p.0))
                    },
                    None => !old(self)@.nodes.contains_key(p.0) && final(self)@ == old(self)@,
                },
                None => r == Some(NodeId(old(self)@.next_id)) && final(self)@ == old(self)@.spawn(
                    node,
                ),
            },
            old(self)@.wf() ==> final(self)@.wf(),
    {
        match selected {
            Some(p) => {
                proof {
                    if old(self)@.wf() && old(self)@.nodes.contains_key(p.0) {
                        lemma_spawn_child_wf(old(self)@, node, p.0);
                    }
                }
                self.spawn_child(node, p)
            },
            None => {
                proof {
                    if old(self)@.wf() {
                        lemma_spawn_wf(old(self)@, node);
                    }
                }
                Some(self.spawn(node))
            },
        }
    }
}

/// Where child lists and parent links agree, a node dropped onto another
/// node `g` becomes `g`'s child and the last entry of `g`'s child list, the
/// other entries keeping their order, whatever its parent was before (even
/// `g` itself); dropped onto the add button it becomes a root without a
/// parent; dropped onto itself nothing changes.
pub proof fn lemma_drop_moves<N>(t: TreeView<N>, dragged: NodeId, target: Option<NodeId>)
    requires
        t.links_ok(),
    ensures
        match target {
            Some(g) => if g == dragged {
                dropped(t, dragged, target) == t
            } else {
                &&& dropped(t, dragged, target).parents.contains_key(dragged.0)
                &&& dropped(t, dragged, target).parents[dragged.0] == g.0
                &&& dropped(t, dragged, target).children.contains_key(g.0)
                &&& dropped(t, dragged, target).children[g.0] == if t.children.contains_key(g.0) {
                    without(t.children[g.0], dragged.0)
                } else {
                    Seq::<NodeId>::empty()
                }.push(dragged)
                &&& dropped(t, dragged, target).children[g.0].last() == dragged
                &&& !dropped(t, dragged, target).base.contains(dragged.0)
            },
            None => {
                &&& !dropped(t, dragged, target).parents.contains_key(dragged.0)
                &&& dropped(t, dragged, target).base.contains(dragged.0)
                &&& forall|q: u64|
                    #[trigger] dropped(t, dragged, target).children.contains_key(q) ==> !dropped(
                        t,
                        dragged,
                        target,
                    ).children[q].contains(dragged)
            },
        },
{
    if target != Some(dragged) {
        lemma_set_parent_lists(t, dragged.0, drop_parent(target));
        if target is None {
            let s = t.set_parent(dragged.0, None);
            assert forall|q: u64| #[trigger] s.children.contains_key(q) implies !s.children[q].contains(
                dragged,
            ) by {
                crate::tree::lemma_without_contains(t.children[q], dragged.0, dragged);
            }
        }
    }
}

/// A drop keeps a well-formed tree well formed unless the target lies in
/// the subtree of the dragged node.
pub proof fn lemma_drop_wf<N>(t: TreeView<N>, dragged: NodeId, target: Option<NodeId>)
    requires
        t.wf(),
        t.nodes.contains_key(dragged.0),
        match target {
            Some(g) => t.nodes.contains_key(g.0) && (g == dragged || !t.in_subtree(g.0, dragged.0)),
            None => true,
        },
    ensures
        dropped(t, dragged, target).wf(),
{
    if target != Some(dragged) {
        lemma_set_parent_wf(t, dragged.0, drop_parent(target));
    }
}

} // verus!
