//! The walk down the scene tree that global transforms follow: roots first,
//! then each node after the node whose transform it is composed with.
use crate::node::NodeId;
use crate::reach::reaches;
use crate::tree::{Tree, TreeView};
use vstd::prelude::*;

verus! {

/// A step of the walk: a node, with the node whose global transform its
/// own is composed with (`None` for a root).
pub type Step = (Option<NodeId>, NodeId);

impl<N> TreeView<N> {
    /// Each step of `w` is a node that is not taken out, no node comes
    /// twice, a step without a parent is a root, and a step with a parent
    /// follows the step of that parent, which is the node's parent link.
    pub open spec fn walk_sound(self, w: Seq<Step>) -> bool {
        &&& forall|i: int, j: int| 0 <= i < j < w.len() ==> #[trigger] w[i].1 != #[trigger] w[j].1
        &&& forall|i: int| 0 <= i < w.len() ==> self.available(#[trigger] w[i].1.0)
        &&& forall|i: int|
            0 <= i < w.len() ==> match #[trigger] w[i].0 {
                None => self.base.contains(w[i].1.0),
                Some(p) => {
                    &&& self.parents.contains_key(w[i].1.0)
                    &&& self.parents[w[i].1.0] == p.0
                    &&& exists|k: int| 0 <= k < i && #[trigger] w[k].1 == p
                },
            }
    }

    /// `w` has a step for every root that is not taken out, and for every
    /// child, not taken out, of a node it has a step for.
    pub open spec fn walk_complete(self, w: Seq<Step>) -> bool {
        &&& forall|b: u64|
            #![trigger self.base.contains(b)]
            self.base.contains(b) && self.available(b) ==> w.contains((None, NodeId(b)))
        &&& forall|i: int, k: int|
            0 <= i < w.len() && 0 <= k < self.children[w[i].1.0].len() && self.available(
                self.children[w[i].1.0][k].0,
            ) ==> w.contains((Some(w[i].1), #[trigger] self.children[w[i].1.0][k]))
    }
}

/// A well-formed tree is linked.
pub proof fn lemma_wf_linked<N>(t: TreeView<N>)
    requires
        t.wf(),
    ensures
        t.linked(),
{
}

proof fn lemma_walk_len<N>(t: TreeView<N>, w: Seq<Step>)
    requires
        t.linked(),
        t.walk_sound(w),
    ensures
        w.len() <= t.nodes.len(),
{
    let ids = w.map_values(|s: Step| s.1.0);
    assert(ids.no_duplicates()) by {
        assert forall|i: int, j: int| 0 <= i < ids.len() && 0 <= j < ids.len() && i != j implies ids[i]
            != ids[j] by {
            if i < j {
                assert(w[i].1 != w[j].1);
            } else {
                assert(w[j].1 != w[i].1);
            }
        }
    }
    ids.unique_seq_to_set();
    assert(ids.to_set().subset_of(t.nodes.dom())) by {
        assert forall|x: u64| ids.to_set().contains(x) implies t.nodes.dom().contains(x) by {
            let i = choose|i: int| 0 <= i < ids.len() && ids[i] == x;
            assert(t.available(w[i].1.0));
        }
    }
    vstd::set_lib::lemma_len_subset(ids.to_set(), t.nodes.dom());
}

proof fn lemma_push_contains(s: Seq<Step>, e: Step, x: Step)
    requires
        s.contains(x),
    ensures
        s.push(e).contains(x),
{
    let i = choose|i: int| 0 <= i < s.len() && s[i] == x;
    assert(s.push(e)[i] == x);
}

/// The nodes of which `x` is a descendant, `x` itself included.
pub open spec fn ancestors<N>(t: TreeView<N>, x: u64) -> Set<u64> {
    Set::new(|y: u64| t.in_subtree(x, y))
}

proof fn lemma_ancestor_is_node<N>(t: TreeView<N>, x: u64, y: u64, k: nat)
    requires
        t.wf(),
        reaches(t.parents, x, y, k),
        x != y,
    ensures
        t.nodes.contains_key(y),
    decreases k,
{
    assert(t.parents.dom().contains(x));
    let p = t.parents[x];
    if p != y {
        lemma_ancestor_is_node(t, p, y, (k - 1) as nat);
    }
}

/// Every node of a well-formed tree lies under one of its roots.
pub proof fn lemma_under_root<N>(t: TreeView<N>, x: u64)
    requires
        t.wf(),
        t.nodes.contains_key(x),
    ensures
        exists|b: u64| t.base.contains(b) && t.in_subtree(x, b),
    decreases ancestors(t, x).len(),
{
    assert(t.nodes.dom().contains(x));
    assert(reaches(t.parents, x, x, 0));
    if t.parents.contains_key(x) {
        assert(t.parents.dom().contains(x));
        let p = t.parents[x];
        assert forall|y: u64| ancestors(t, p).contains(y) implies ancestors(t, x).remove(x).contains(
            y,
        ) by {
            let k = choose|k: nat| reaches(t.parents, p, y, k);
            assert(reaches(t.parents, x, y, k + 1));
            if x == y {
                assert(t.in_subtree(t.parents[x], x));
            }
        }
        assert forall|y: u64| ancestors(t, x).contains(y) implies t.nodes.dom().insert(x).contains(
            y,
        ) by {
            if y != x {
                let k = choose|k: nat| reaches(t.parents, x, y, k);
                lemma_ancestor_is_node(t, x, y, k);
            }
        }
        vstd::set_lib::lemma_len_subset(ancestors(t, x), t.nodes.dom().insert(x));
        assert(ancestors(t, x).contains(x));
        vstd::set_lib::lemma_len_subset(ancestors(t, p), ancestors(t, x).remove(x));
        lemma_under_root(t, p);
        let b = choose|b: u64| t.base.contains(b) && t.in_subtree(p, b);
        let k = choose|k: nat| reaches(t.parents, p, b, k);
        assert(reaches(t.parents, x, b, k + 1));
    }
}

proof fn lemma_walk_reaches<N>(t: TreeView<N>, w: Seq<Step>, x: u64, b: u64, k: nat)
    requires
        t.wf(),
        forall|y: u64| #[trigger] t.nodes.contains_key(y) ==> t.available(y),
        t.walk_complete(w),
        t.base.contains(b),
        t.nodes.contains_key(x),
        reaches(t.parents, x, b, k),
    ensures
        exists|i: int| 0 <= i < w.len() && #[trigger] w[i].1 == NodeId(x),
    decreases k,
{
    if x == b {
        assert(w.contains((None, NodeId(b))));
        let i = choose|i: int| 0 <= i < w.len() && w[i] == (None::<NodeId>, NodeId(b));
        assert(w[i].1 == NodeId(x));
    } else {
        assert(t.parents.dom().contains(x));
        let p = t.parents[x];
        assert(t.nodes.contains_key(p));
        lemma_walk_reaches(t, w, p, b, (k - 1) as nat);
        let i = choose|i: int| 0 <= i < w.len() && #[trigger] w[i].1 == NodeId(p);
        assert(t.children[t.parents[x]].contains(NodeId(x)));
        let q = choose|q: int|
            0 <= q < t.children[p].len() && t.children[p][q] == NodeId(x);
        assert(t.children[w[i].1.0][q] == NodeId(x));
        assert(w.contains((Some(w[i].1), t.children[w[i].1.0][q])));
        let m = choose|m: int| 0 <= m < w.len() && w[m] == (Some(NodeId(p)), NodeId(x));
        assert(w[m].1 == NodeId(x));
    }
}

/// In a well-formed tree with no node taken out, a sound and complete walk
/// has exactly one step for each node: every global transform is computed,
/// once.
pub proof fn lemma_walk_covers_all<N>(t: TreeView<N>, w: Seq<Step>)
    requires
        t.wf(),
        forall|x: u64| #[trigger] t.nodes.contains_key(x) ==> t.available(x),
        t.walk_sound(w),
        t.walk_complete(w),
    ensures
        forall|x: u64|
            #[trigger] t.nodes.contains_key(x) <==> exists|i: int|
                0 <= i < w.len() && #[trigger] w[i].1 == NodeId(x),
        w.len() == t.nodes.len(),
{
    assert forall|x: u64| #[trigger] t.nodes.contains_key(x) implies exists|i: int|
        0 <= i < w.len() && #[trigger] w[i].1 == NodeId(x) by {
        lemma_under_root(t, x);
        let b = choose|b: u64| t.base.contains(b) && t.in_subtree(x, b);
        let k = choose|k: nat| reaches(t.parents, x, b, k);
        lemma_walk_reaches(t, w, x, b, k);
    }
    assert forall|x: u64|
        (exists|i: int| 0 <= i < w.len() && #[trigger] w[i].1 == NodeId(x)) implies #[trigger] t.nodes.contains_key(x) by {
        let i = choose|i: int| 0 <= i < w.len() && #[trigger] w[i].1 == NodeId(x);
        assert(t.available(w[i].1.0));
    }
    let ids = w.map_values(|s: Step| s.1.0);
    assert(ids.no_duplicates()) by {
        assert forall|i: int, j: int| 0 <= i < ids.len() && 0 <= j < ids.len() && i != j implies ids[i]
            != ids[j] by {
            if i < j {
                assert(w[i].1 != w[j].1);
            } else {
                assert(w[j].1 != w[i].1);
            }
        }
    }
    ids.unique_seq_to_set();
    assert(ids.to_set() =~= t.nodes.dom()) by {
        assert forall|x: u64| ids.to_set().contains(x) implies t.nodes.dom().contains(x) by {
            let i = choose|i: int| 0 <= i < ids.len() && ids[i] == x;
            assert(t.available(w[i].1.0));
        }
        assert forall|x: u64| t.nodes.dom().contains(x) implies ids.to_set().contains(x) by {
            assert(t.nodes.contains_key(x));
            let i = choose|i: int| 0 <= i < w.len() && #[trigger] w[i].1 == NodeId(x);
            assert(ids[i] == x);
        }
    }
}

/// Every root not taken out has a step.
spec fn roots_listed<N>(t: TreeView<N>, w: Seq<Step>) -> bool {
    forall|b: u64|
        #![trigger t.base.contains(b)]
        t.base.contains(b) && t.available(b) ==> w.contains((None, NodeId(b)))
}

/// Every child, not taken out, of each of the first `n` steps has a step.
spec fn children_listed<N>(t: TreeView<N>, w: Seq<Step>, n: int) -> bool {
    forall|p: int, k: int|
        0 <= p < n && 0 <= k < t.children[w[p].1.0].len() && t.available(
            t.children[w[p].1.0][k].0,
        ) ==> w.contains((Some(w[p].1), #[trigger] t.children[w[p].1.0][k]))
}

/// Each step of `w` below `n` with a parent has that parent among the
/// first `i` steps.
spec fn parents_before(w: Seq<Step>, n: int, i: int) -> bool {
    forall|m: int|
        0 <= m < n && (#[trigger] w[m].0 is Some) ==> exists|k: int|
            0 <= k < i && #[trigger] w[k].1 == w[m].0->Some_0
}

/// The walk after the children of its first `i` steps are listed.
spec fn outer_inv<N>(t: TreeView<N>, w: Seq<Step>, i: int) -> bool {
    &&& 0 <= i <= w.len()
    &&& t.walk_sound(w)
    &&& parents_before(w, w.len() as int, i)
    &&& roots_listed(t, w)
    &&& children_listed(t, w, i)
}

/// The walk while the first `j` children of step `i`, the node `x`, are
/// listed; the steps from `start` on are those children, at the positions
/// `pos` of the child list.
spec fn inner_inv<N>(
    t: TreeView<N>,
    w: Seq<Step>,
    head: Seq<Step>,
    start: int,
    i: int,
    x: NodeId,
    list: Seq<NodeId>,
    j: int,
    pos: Seq<int>,
) -> bool {
    &&& 0 <= i < start <= w.len()
    &&& w.subrange(0, start) == head
    &&& head[i].1 == x
    &&& t.children.contains_key(x.0)
    &&& list == t.children[x.0]
    &&& 0 <= j <= list.len()
    &&& t.walk_sound(w)
    &&& pos.len() == w.len()
    &&& parents_before(w, start, i)
    &&& forall|m: int|
        #![trigger w[m]]
        start <= m < w.len() ==> w[m].0 == Some(x) && 0 <= pos[m] < j && list[pos[m]] == w[m].1
    &&& forall|q: int|
        0 <= q < j && t.available(#[trigger] list[q].0) ==> w.contains((Some(x), list[q]))
    &&& roots_listed(t, w)
    &&& children_listed(t, w, i)
}

proof fn lemma_inner_start<N>(t: TreeView<N>, w: Seq<Step>, i: int, x: NodeId, list: Seq<NodeId>)
    requires
        t.linked(),
        outer_inv(t, w, i),
        i < w.len(),
        w[i].1 == x,
        t.children.contains_key(x.0),
        list == t.children[x.0],
    ensures
        inner_inv(t, w, w, w.len() as int, i, x, list, 0, Seq::new(w.len(), |m: int| 0)),
{
    assert(w.subrange(0, w.len() as int) =~= w);
    assert forall|m: int|
        0 <= m < w.len() && (#[trigger] w[m].0 is Some) implies exists|k: int|
        0 <= k < i && #[trigger] w[k].1 == w[m].0->Some_0 by {
        let k = choose|k: int| 0 <= k < i && #[trigger] w[k].1 == w[m].0->Some_0;
    }
}

proof fn lemma_inner_step<N>(
    t: TreeView<N>,
    before: Seq<Step>,
    after: Seq<Step>,
    head: Seq<Step>,
    start: int,
    i: int,
    x: NodeId,
    list: Seq<NodeId>,
    j: int,
    old_pos: Seq<int>,
    pos: Seq<int>,
    avail: bool,
)
    requires
        t.linked(),
        inner_inv(t, before, head, start, i, x, list, j, old_pos),
        j < list.len(),
        avail == t.available(list[j].0),
        after == if avail {
            before.push((Some(x), list[j]))
        } else {
            before
        },
        pos == if avail {
            old_pos.push(j)
        } else {
            old_pos
        },
    ensures
        inner_inv(t, after, head, start, i, x, list, j + 1, pos),
{
    let c = list[j];
    assert(t.list_ok(x.0));
    assert(t.children[x.0][j] == c);
    if avail {
        assert(t.parents.contains_key(c.0) && t.parents[c.0] == x.0);
        assert forall|m: int| 0 <= m < before.len() implies before[m].1 != c by {
            if before[m].1 == c {
                if m < start {
                    assert(before.subrange(0, start)[m] == head[m]);
                    match before[m].0 {
                        None => {
                            assert(t.base.contains(c.0));
                            assert(t.available(before[m].1.0));
                        },
                        Some(p) => {
                            let k = choose|k: int|
                                0 <= k < i && #[trigger] before[k].1 == before[m].0->Some_0;
                            assert(before[k].1 == x);
                            assert(before.subrange(0, start)[i] == head[i]);
                        },
                    }
                } else {
                    assert(before[m].0 == Some(x));
                    assert(list[old_pos[m]] == c);
                }
            }
        }
        assert(after[before.len() as int] == (Some(x), c));
    }
    assert forall|m: int| 0 <= m < before.len() implies after[m] == before[m] by {}
    assert(after.subrange(0, start) =~= head) by {
        assert forall|m: int| 0 <= m < start implies after.subrange(0, start)[m] == head[m] by {
            assert(before.subrange(0, start)[m] == head[m]);
        }
    }
    assert(after[i].1 == x) by {
        assert(before.subrange(0, start)[i] == head[i]);
    }
    assert forall|m: int| 0 <= m < after.len() implies t.available(#[trigger] after[m].1.0) by {
        if m < before.len() {
            assert(t.available(before[m].1.0));
        }
    }
    assert forall|m: int| 0 <= m < after.len() implies match #[trigger] after[m].0 {
        None => t.base.contains(after[m].1.0),
        Some(p) => {
            &&& t.parents.contains_key(after[m].1.0)
            &&& t.parents[after[m].1.0] == p.0
            &&& exists|k: int| 0 <= k < m && #[trigger] after[k].1 == p
        },
    } by {
        if m < before.len() {
            if before[m].0 is Some {
                let k = choose|k: int| 0 <= k < m && #[trigger] before[k].1 == before[m].0->Some_0;
                assert(after[k] == before[k]);
            } else {
                assert(t.base.contains(before[m].1.0));
            }
        } else {
            assert(after[i].1 == x);
        }
    }
    assert forall|a: int, b: int| 0 <= a < b < after.len() implies #[trigger] after[a].1
        != #[trigger] after[b].1 by {
        if b < before.len() {
            assert(before[a].1 != before[b].1);
        }
    }
    assert forall|m: int|
        0 <= m < start && (#[trigger] after[m].0 is Some) implies exists|k: int|
        0 <= k < i && #[trigger] after[k].1 == after[m].0->Some_0 by {
        assert(before[m].0 is Some);
        let k = choose|k: int| 0 <= k < i && #[trigger] before[k].1 == before[m].0->Some_0;
        assert(after[k] == before[k]);
    }
    assert forall|m: int|
        #![trigger after[m]]
        start <= m < after.len() implies after[m].0 == Some(x) && 0 <= pos[m] < j + 1 && list[pos[m]]
            == after[m].1 by {
        if m < before.len() {
            assert(before[m].0 == Some(x));
            assert(pos[m] == old_pos[m]);
        }
    }
    assert forall|q: int|
        0 <= q < j + 1 && t.available(#[trigger] list[q].0) implies after.contains(
        (Some(x), list[q]),
    ) by {
        if q < j {
            assert(before.contains((Some(x), list[q])));
            if avail {
                lemma_push_contains(before, (Some(x), c), (Some(x), list[q]));
            }
        }
    }
    assert forall|b: u64|
        #![trigger t.base.contains(b)]
        t.base.contains(b) && t.available(b) implies after.contains((None, NodeId(b))) by {
        assert(before.contains((None, NodeId(b))));
        if avail {
            lemma_push_contains(before, (Some(x), c), (None, NodeId(b)));
        }
    }
    assert forall|p: int, k: int|
        0 <= p < i && 0 <= k < t.children[after[p].1.0].len() && t.available(
            t.children[after[p].1.0][k].0,
        ) implies after.contains((Some(after[p].1), #[trigger] t.children[after[p].1.0][k])) by {
        assert(after[p] == before[p]);
        assert(before.contains((Some(before[p].1), t.children[before[p].1.0][k])));
        if avail {
            lemma_push_contains(
                before,
                (Some(x), c),
                (Some(after[p].1), t.children[after[p].1.0][k]),
            );
        }
    }
}

proof fn lemma_inner_end<N>(
    t: TreeView<N>,
    w: Seq<Step>,
    head: Seq<Step>,
    start: int,
    i: int,
    x: NodeId,
    list: Seq<NodeId>,
    pos: Seq<int>,
)
    requires
        t.linked(),
        inner_inv(t, w, head, start, i, x, list, list.len() as int, pos),
    ensures
        outer_inv(t, w, i + 1),
{
    assert(w[i].1 == x) by {
        assert(w.subrange(0, start)[i] == head[i]);
    }
    assert forall|m: int|
        0 <= m < w.len() && (#[trigger] w[m].0 is Some) implies exists|k: int|
        0 <= k < i + 1 && #[trigger] w[k].1 == w[m].0->Some_0 by {
        if m < start {
            let k = choose|k: int| 0 <= k < i && #[trigger] w[k].1 == w[m].0->Some_0;
        } else {
            assert(w[m].0 == Some(x));
        }
    }
    assert forall|p: int, k: int|
        0 <= p < i + 1 && 0 <= k < t.children[w[p].1.0].len() && t.available(
            t.children[w[p].1.0][k].0,
        ) implies w.contains((Some(w[p].1), #[trigger] t.children[w[p].1.0][k])) by {
        if p == i {
            assert(list[k] == t.children[w[p].1.0][k]);
        }
    }
}

/// The walk after the first `r` of the roots `roots` are listed, `idx`
/// giving the position among `roots` of each step.
spec fn roots_inv<N>(t: TreeView<N>, roots: Seq<NodeId>, w: Seq<Step>, idx: Seq<int>, r: int) -> bool {
    &&& 0 <= r <= roots.len()
    &&& roots.no_duplicates()
    &&& forall|q: int| 0 <= q < roots.len() ==> t.base.contains(#[trigger] roots[q].0)
    &&& t.walk_sound(w)
    &&& idx.len() == w.len()
    &&& forall|m: int|
        #![trigger w[m]]
        0 <= m < w.len() ==> w[m].0 == None::<NodeId> && 0 <= idx[m] < r && roots[idx[m]] == w[m].1
    &&& forall|q: int|
        0 <= q < r && t.available(#[trigger] roots[q].0) ==> w.contains((None, roots[q]))
}

proof fn lemma_roots_step<N>(
    t: TreeView<N>,
    roots: Seq<NodeId>,
    before: Seq<Step>,
    after: Seq<Step>,
    old_idx: Seq<int>,
    idx: Seq<int>,
    r: int,
    avail: bool,
)
    requires
        t.linked(),
        roots_inv(t, roots, before, old_idx, r),
        r < roots.len(),
        avail == t.available(roots[r].0),
        after == if avail {
            before.push((None, roots[r]))
        } else {
            before
        },
        idx == if avail {
            old_idx.push(r)
        } else {
            old_idx
        },
    ensures
        roots_inv(t, roots, after, idx, r + 1),
{
    let b = roots[r];
    assert forall|m: int| 0 <= m < before.len() implies after[m] == before[m] && idx[m] == old_idx[m] by {}
    if avail {
        assert forall|m: int| 0 <= m < before.len() implies before[m].1 != b by {
            assert(roots[old_idx[m]] == before[m].1);
        }
        assert(after[before.len() as int] == (None::<NodeId>, b));
        assert forall|a: int, c: int| 0 <= a < c < after.len() implies #[trigger] after[a].1
            != #[trigger] after[c].1 by {
            if c < before.len() {
                assert(before[a].1 != before[c].1);
            }
        }
        assert forall|m: int| 0 <= m < after.len() implies t.available(#[trigger] after[m].1.0) by {
            if m < before.len() {
                assert(t.available(before[m].1.0));
            }
        }
        assert forall|m: int| 0 <= m < after.len() implies match #[trigger] after[m].0 {
            None => t.base.contains(after[m].1.0),
            Some(p) => {
                &&& t.parents.contains_key(after[m].1.0)
                &&& t.parents[after[m].1.0] == p.0
                &&& exists|k: int| 0 <= k < m && #[trigger] after[k].1 == p
            },
        } by {
            if m < before.len() {
                assert(before[m].0 == None::<NodeId>);
                assert(t.base.contains(before[m].1.0));
            }
        }
    }
    assert forall|m: int|
        #![trigger after[m]]
        0 <= m < after.len() implies after[m].0 == None::<NodeId> && 0 <= idx[m] < r + 1
            && roots[idx[m]] == after[m].1 by {
        if m < before.len() {
            assert(before[m].0 == None::<NodeId>);
        }
    }
    assert forall|q: int|
        0 <= q < r + 1 && t.available(#[trigger] roots[q].0) implies after.contains(
        (None, roots[q]),
    ) by {
        if q < r {
            if avail {
                lemma_push_contains(before, (None, b), (None, roots[q]));
            }
        } else {
            assert(after[before.len() as int] == (None::<NodeId>, roots[q]));
        }
    }
}

proof fn lemma_roots_end<N>(t: TreeView<N>, roots: Seq<NodeId>, w: Seq<Step>, idx: Seq<int>)
    requires
        t.linked(),
        roots_inv(t, roots, w, idx, roots.len() as int),
        forall|k: u64| #[trigger] t.base.contains(k) ==> roots.contains(NodeId(k)),
    ensures
        outer_inv(t, w, 0),
{
    assert forall|m: int| 0 <= m < w.len() implies !(#[trigger] w[m].0 is Some) by {
        assert(w[m].0 == None::<NodeId>);
    }
    assert forall|b: u64|
        #![trigger t.base.contains(b)]
        t.base.contains(b) && t.available(b) implies w.contains((None, NodeId(b))) by {
        let q = choose|q: int| 0 <= q < roots.len() && roots[q] == NodeId(b);
        assert(t.available(roots[q].0));
    }
}

impl<N> Tree<N> {
    /// The order in which global transforms are computed: every root that
    /// is not taken out, and then every child, not taken out, of a node
    /// already listed, after it; each with the node its transform is
    /// composed with.
    pub fn transform_order(&self) -> (order: Vec<Step>)
        requires
            self@.linked(),
        ensures
            self@.walk_sound(order@),
            self@.walk_complete(order@),
    {
        let roots = self.base();
        let mut out: Vec<Step> = Vec::new();
        let ghost mut idx: Seq<int> = Seq::empty();
        let mut r: usize = 0;
        while r < roots.len()
            invariant
                self@.linked(),
                roots_inv(self@, roots@, out@, idx, r as int),
            decreases roots.len() - r,
        {
            let b = roots[r];
            let ghost before = out@;
            let ghost old_idx = idx;
            let avail = self.node(b).is_some();
            if avail {
                out.push((None, b));
            }
            proof {
                idx = if avail {
                    old_idx.push(r as int)
                } else {
                    old_idx
                };
                lemma_roots_step(self@, roots@, before, out@, old_idx, idx, r as int, avail);
            }
            r += 1;
        }
        proof {
            lemma_roots_end(self@, roots@, out@, idx);
        }
        let mut i: usize = 0;
        while i < out.len()
            invariant
                self@.linked(),
                outer_inv(self@, out@, i as int),
            decreases self@.nodes.len() - i,
        {
            proof {
                lemma_walk_len(self@, out@);
            }
            let x = out[i].1;
            assert(self@.available(out@[i as int].1.0));
            let list = self.get_children(x);
            let start = out.len();
            let ghost head = out@;
            let ghost mut pos: Seq<int> = Seq::new(out@.len(), |m: int| 0);
            proof {
                lemma_inner_start(self@, out@, i as int, x, list@);
            }
            let mut j: usize = 0;
            while j < list.len()
                invariant
                    self@.linked(),
                    inner_inv(self@, out@, head, start as int, i as int, x, list@, j as int, pos),
                decreases list.len() - j,
            {
                let c = list[j];
                let ghost before = out@;
                let ghost old_pos = pos;
                let avail = self.node(c).is_some();
                if avail {
                    out.push((Some(x), c));
                }
                proof {
                    pos = if avail {
                        old_pos.push(j as int)
                    } else {
                        old_pos
                    };
                    lemma_inner_step(
                        self@,
                        before,
                        out@,
                        head,
                        start as int,
                        i as int,
                        x,
                        list@,
                        j as int,
                        old_pos,
                        pos,
                        avail,
                    );
                }
                j += 1;
            }
            proof {
                lemma_inner_end(self@, out@, head, start as int, i as int, x, list@, pos);
            }
            i += 1;
        }
        out
    }
}

} // verus!
