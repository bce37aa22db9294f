//! A tree is written to a scene file as its parts: its nodes, its parent
//! links, its child lists and its roots.  Read back with
//! [`crate::tree::Tree::from_parts`], the parts give the same tree.
use crate::node::NodeId;
use crate::tree::{
    children_of, ids_of, next_after, nodes_of, parents_of, parts_view, NodeContainer, TreeView,
};
use vstd::prelude::*;

verus! {

/// The parent links of `p`, each listed at least once and nothing else.
pub open spec fn lists_parents(p: Map<u64, u64>, s: Seq<(NodeId, NodeId)>) -> bool {
    &&& forall|i: int|
        0 <= i < s.len() ==> p.contains_key(#[trigger] s[i].0.0) && p[s[i].0.0] == s[i].1.0
    &&& forall|k: u64| #[trigger] p.contains_key(k) ==> exists|i: int| 0 <= i < s.len() && s[i].0.0 == k
}

/// The child lists of `c`, each listed at least once and nothing else.
pub open spec fn lists_children(c: Map<u64, Seq<NodeId>>, s: Seq<(NodeId, Vec<NodeId>)>) -> bool {
    &&& forall|i: int| 0 <= i < s.len() ==> c.contains_key(#[trigger] s[i].0.0) && c[s[i].0.0] == s[i].1@
    &&& forall|k: u64| #[trigger] c.contains_key(k) ==> exists|i: int| 0 <= i < s.len() && s[i].0.0 == k
}

/// The nodes of `n` with their payloads, none of them taken out, each
/// listed at least once and nothing else.
pub open spec fn lists_nodes<N>(n: Map<u64, NodeContainer<N>>, s: Seq<(NodeId, N)>) -> bool {
    &&& forall|i: int|
        0 <= i < s.len() ==> n.contains_key(#[trigger] s[i].0.0) && n[s[i].0.0] == (NodeContainer {
            node: Some(s[i].1),
        })
    &&& forall|k: u64| #[trigger] n.contains_key(k) ==> exists|i: int| 0 <= i < s.len() && s[i].0.0 == k
}

proof fn lemma_parents_prefix(p: Map<u64, u64>, s: Seq<(NodeId, NodeId)>)
    requires
        forall|i: int| 0 <= i < s.len() ==> p.contains_key(#[trigger] s[i].0.0) && p[s[i].0.0] == s[i].1.0,
    ensures
        forall|k: u64|
            #[trigger] parents_of(s).contains_key(k) <==> exists|i: int| 0 <= i < s.len() && s[i].0.0 == k,
        forall|k: u64| #[trigger] parents_of(s).contains_key(k) ==> parents_of(s)[k] == p[k],
    decreases s.len(),
{
    if s.len() > 0 {
        let r = s.drop_last();
        assert forall|i: int| 0 <= i < r.len() implies p.contains_key(#[trigger] r[i].0.0) && p[r[i].0.0]
            == r[i].1.0 by {
            assert(r[i] == s[i]);
        }
        lemma_parents_prefix(p, r);
        assert(p.contains_key(s[s.len() - 1].0.0));
        assert forall|k: u64| #[trigger] parents_of(s).contains_key(k) implies exists|i: int|
            0 <= i < s.len() && s[i].0.0 == k by {
            if k != s.last().0.0 {
                assert(parents_of(r).contains_key(k));
                let i = choose|i: int| 0 <= i < r.len() && r[i].0.0 == k;
                assert(s[i] == r[i]);
            }
        }
        assert forall|k: u64| #[trigger] parents_of(s).contains_key(k) implies parents_of(s)[k] == p[k] by {
            if k != s.last().0.0 {
                assert(parents_of(r).contains_key(k));
            }
        }
        assert forall|k: u64| (exists|i: int| 0 <= i < s.len() && s[i].0.0 == k) implies #[trigger] parents_of(
            s,
        ).contains_key(k) by {
            let i = choose|i: int| 0 <= i < s.len() && s[i].0.0 == k;
            if i < r.len() {
                assert(r[i] == s[i]);
                assert(parents_of(r).contains_key(k));
            }
        }
    }
}

proof fn lemma_children_prefix(c: Map<u64, Seq<NodeId>>, s: Seq<(NodeId, Vec<NodeId>)>)
    requires
        forall|i: int| 0 <= i < s.len() ==> c.contains_key(#[trigger] s[i].0.0) && c[s[i].0.0] == s[i].1@,
    ensures
        forall|k: u64|
            #[trigger] children_of(s).contains_key(k) <==> exists|i: int| 0 <= i < s.len() && s[i].0.0 == k,
        forall|k: u64| #[trigger] children_of(s).contains_key(k) ==> children_of(s)[k] == c[k],
    decreases s.len(),
{
    if s.len() > 0 {
        let r = s.drop_last();
        assert forall|i: int| 0 <= i < r.len() implies c.contains_key(#[trigger] r[i].0.0) && c[r[i].0.0]
            == r[i].1@ by {
            assert(r[i] == s[i]);
        }
        lemma_children_prefix(c, r);
        assert(c.contains_key(s[s.len() - 1].0.0));
        assert forall|k: u64| #[trigger] children_of(s).contains_key(k) implies exists|i: int|
            0 <= i < s.len() && s[i].0.0 == k by {
            if k != s.last().0.0 {
                assert(children_of(r).contains_key(k));
                let i = choose|i: int| 0 <= i < r.len() && r[i].0.0 == k;
                assert(s[i] == r[i]);
            }
        }
        assert forall|k: u64| #[trigger] children_of(s).contains_key(k) implies children_of(s)[k] == c[k] by {
            if k != s.last().0.0 {
                assert(children_of(r).contains_key(k));
            }
        }
        assert forall|k: u64| (exists|i: int| 0 <= i < s.len() && s[i].0.0 == k) implies #[trigger] children_of(
            s,
        ).contains_key(k) by {
            let i = choose|i: int| 0 <= i < s.len() && s[i].0.0 == k;
            if i < r.len() {
                assert(r[i] == s[i]);
                assert(children_of(r).contains_key(k));
            }
        }
    }
}

proof fn lemma_nodes_prefix<N>(n: Map<u64, NodeContainer<N>>, s: Seq<(NodeId, N)>)
    requires
        forall|i: int|
            0 <= i < s.len() ==> n.contains_key(#[trigger] s[i].0.0) && n[s[i].0.0] == (NodeContainer {
                node: Some(s[i].1),
            }),
    ensures
        forall|k: u64|
            #[trigger] nodes_of(s).contains_key(k) <==> exists|i: int| 0 <= i < s.len() && s[i].0.0 == k,
        forall|k: u64| #[trigger] nodes_of(s).contains_key(k) ==> nodes_of(s)[k] == n[k],
    decreases s.len(),
{
    if s.len() > 0 {
        let r = s.drop_last();
        assert forall|i: int| 0 <= i < r.len() implies n.contains_key(#[trigger] r[i].0.0) && n[r[i].0.0]
            == NodeContainer { node: Some(r[i].1) } by {
            assert(r[i] == s[i]);
        }
        lemma_nodes_prefix(n, r);
        assert(n.contains_key(s[s.len() - 1].0.0));
        assert forall|k: u64| #[trigger] nodes_of(s).contains_key(k) implies exists|i: int|
            0 <= i < s.len() && s[i].0.0 == k by {
            if k != s.last().0.0 {
                assert(nodes_of(r).contains_key(k));
                let i = choose|i: int| 0 <= i < r.len() && r[i].0.0 == k;
                assert(s[i] == r[i]);
            }
        }
        assert forall|k: u64| #[trigger] nodes_of(s).contains_key(k) implies nodes_of(s)[k] == n[k] by {
            if k != s.last().0.0 {
                assert(nodes_of(r).contains_key(k));
            }
        }
        assert forall|k: u64| (exists|i: int| 0 <= i < s.len() && s[i].0.0 == k) implies #[trigger] nodes_of(
            s,
        ).contains_key(k) by {
            let i = choose|i: int| 0 <= i < s.len() && s[i].0.0 == k;
            if i < r.len() {
                assert(r[i] == s[i]);
                assert(nodes_of(r).contains_key(k));
            }
        }
    }
}

/// Reading back the parts a tree is written as gives the same tree: the
/// same nodes, parent links, child lists and roots.  Only the removal queue
/// starts empty, and the next id is one more than the largest node id, no
/// more than the tree's own when every node id is below it.
pub proof fn lemma_parts_round_trip<N>(
    t: TreeView<N>,
    nodes: Seq<(NodeId, N)>,
    links: Seq<(NodeId, NodeId)>,
    lists: Seq<(NodeId, Vec<NodeId>)>,
    roots: Seq<NodeId>,
)
    requires
        lists_nodes(t.nodes, nodes),
        lists_parents(t.parents, links),
        lists_children(t.children, lists),
        ids_of(roots) == t.base,
        forall|k: u64| #[trigger] t.nodes.contains_key(k) ==> k < t.next_id,
    ensures
        parts_view(nodes, links, lists, roots) == (TreeView {
            next_id: next_after(nodes) as u64,
            despawn: Seq::empty(),
            ..t
        }),
        next_after(nodes) <= t.next_id,
{
    lemma_nodes_prefix(t.nodes, nodes);
    lemma_parents_prefix(t.parents, links);
    lemma_children_prefix(t.children, lists);
    assert(nodes_of(nodes) =~= t.nodes);
    assert(parents_of(links) =~= t.parents);
    assert(children_of(lists) =~= t.children);
    crate::tree::lemma_next_after(nodes);
    if nodes.len() > 0 {
        let i = choose|i: int| 0 <= i < nodes.len() && next_after(nodes) == nodes[i].0.0 + 1;
        assert(t.nodes.contains_key(nodes[i].0.0));
    }
}

} // verus!
