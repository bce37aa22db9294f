//! Ancestry through parent links.
use vstd::prelude::*;

verus! {

/// Following the links of `parents` from `x`, `root` is met within `steps`
/// links.  The search stops at `root`: the link of `root` itself is never
/// read.
pub open spec fn reaches(parents: Map<u64, u64>, x: u64, root: u64, steps: nat) -> bool
    decreases steps,
{
    if x == root {
        true
    } else if steps == 0 {
        false
    } else {
        parents.contains_key(x) && reaches(parents, parents[x], root, (steps - 1) as nat)
    }
}

/// `x` is `root` or a descendant of `root`.
pub open spec fn in_subtree(parents: Map<u64, u64>, x: u64, root: u64) -> bool {
    exists|k: nat| reaches(parents, x, root, k)
}

/// A search that succeeds within `k` links succeeds within any larger bound.
pub proof fn lemma_reaches_mono(parents: Map<u64, u64>, x: u64, root: u64, k: nat, k2: nat)
    requires
        reaches(parents, x, root, k),
        k <= k2,
    ensures
        reaches(parents, x, root, k2),
    decreases k,
{
    if x != root {
        lemma_reaches_mono(parents, parents[x], root, (k - 1) as nat, (k2 - 1) as nat);
    }
}

/// Ancestry is transitive.
pub proof fn lemma_reaches_trans(
    parents: Map<u64, u64>,
    x: u64,
    a: u64,
    b: u64,
    k1: nat,
    k2: nat,
)
    requires
        reaches(parents, x, a, k1),
        reaches(parents, a, b, k2),
    ensures
        reaches(parents, x, b, k1 + k2),
    decreases k1,
{
    if x == b {
    } else if x == a {
        lemma_reaches_mono(parents, a, b, k2, k1 + k2);
    } else {
        lemma_reaches_trans(parents, parents[x], a, b, (k1 - 1) as nat, k2);
    }
}

/// The ancestors of a node form a chain: of two of them, one is an ancestor
/// of the other.
pub proof fn lemma_reaches_chain(
    parents: Map<u64, u64>,
    x: u64,
    a: u64,
    b: u64,
    k1: nat,
    k2: nat,
)
    requires
        reaches(parents, x, a, k1),
        reaches(parents, x, b, k2),
    ensures
        reaches(parents, a, b, k2) || reaches(parents, b, a, k1),
    decreases k1,
{
    if x == a {
    } else if x == b {
    } else {
        lemma_reaches_chain(parents, parents[x], a, b, (k1 - 1) as nat, (k2 - 1) as nat);
        if reaches(parents, a, b, (k2 - 1) as nat) {
            lemma_reaches_mono(parents, a, b, (k2 - 1) as nat, k2);
        } else {
            lemma_reaches_mono(parents, b, a, (k1 - 1) as nat, k1);
        }
    }
}

/// A search through a smaller map succeeds through the larger one too.
pub proof fn lemma_reaches_submap(
    small: Map<u64, u64>,
    big: Map<u64, u64>,
    x: u64,
    root: u64,
    k: nat,
)
    requires
        reaches(small, x, root, k),
        small.submap_of(big),
    ensures
        reaches(big, x, root, k),
    decreases k,
{
    if x != root {
        assert(small.dom().contains(x));
        assert(big.contains_key(x) && big[x] == small[x]);
        lemma_reaches_submap(small, big, small[x], root, (k - 1) as nat);
    }
}

/// A search succeeds through any map that agrees on the links of the
/// descendants of `root`.
pub proof fn lemma_reaches_agree(
    p1: Map<u64, u64>,
    p2: Map<u64, u64>,
    x: u64,
    root: u64,
    k: nat,
)
    requires
        reaches(p1, x, root, k),
        forall|y: u64|
            #![trigger p1[y]]
            in_subtree(p1, y, root) && y != root && p1.contains_key(y) ==> p2.contains_key(y)
                && p2[y] == p1[y],
    ensures
        reaches(p2, x, root, k),
    decreases k,
{
    if x != root {
        assert(in_subtree(p1, x, root));
        assert(p2[x] == p1[x]);
        assert forall|y: u64|
            #![trigger p1[y]]
            in_subtree(p1, y, root) && y != root && p1.contains_key(y) implies p2.contains_key(y)
            && p2[y] == p1[y] by {}
        lemma_reaches_agree(p1, p2, p1[x], root, (k - 1) as nat);
    }
}

/// Whether `x` is in the subtree of `root` only depends on the links of the
/// descendants of `root`: two maps that agree there have the same subtree.
pub proof fn lemma_in_subtree_agree(p1: Map<u64, u64>, p2: Map<u64, u64>, root: u64)
    requires
        forall|y: u64|
            #![trigger p1[y]]
            in_subtree(p1, y, root) && y != root && p1.contains_key(y) ==> p2.contains_key(y)
                && p2[y] == p1[y],
        forall|y: u64|
            #![trigger p2[y]]
            in_subtree(p2, y, root) && y != root && p2.contains_key(y) ==> p1.contains_key(y)
                && p1[y] == p2[y],
    ensures
        forall|x: u64| in_subtree(p1, x, root) <==> in_subtree(p2, x, root),
{
    assert forall|x: u64| in_subtree(p1, x, root) implies in_subtree(p2, x, root) by {
        let k = choose|k: nat| reaches(p1, x, root, k);
        lemma_reaches_agree(p1, p2, x, root, k);
    }
    assert forall|x: u64| in_subtree(p2, x, root) implies in_subtree(p1, x, root) by {
        let k = choose|k: nat| reaches(p2, x, root, k);
        lemma_reaches_agree(p2, p1, x, root, k);
    }
}

/// The link of `root` is never read when searching for `root`.
pub proof fn lemma_in_subtree_remove_root(p: Map<u64, u64>, root: u64)
    ensures
        forall|x: u64| in_subtree(p, x, root) <==> in_subtree(p.remove(root), x, root),
{
    lemma_in_subtree_agree(p, p.remove(root), root);
}

/// After the link of `c` is set to `q`, a search from `a` for `x` either
/// never reads the new link, or passes through `c` and goes on from `q`.
pub proof fn lemma_reaches_relink(p: Map<u64, u64>, c: u64, q: u64, a: u64, x: u64, k: nat)
    requires
        reaches(p.insert(c, q), a, x, k),
        x != c,
    ensures
        in_subtree(p, a, x) || (in_subtree(p.insert(c, q), a, c) && in_subtree(
            p.insert(c, q),
            q,
            x,
        )),
    decreases k,
{
    let p2 = p.insert(c, q);
    if a == x {
        assert(reaches(p, a, x, 0));
    } else if a == c {
        assert(reaches(p2, a, c, 0));
        assert(reaches(p2, q, x, (k - 1) as nat));
    } else {
        assert(p2[a] == p[a]);
        lemma_reaches_relink(p, c, q, p[a], x, (k - 1) as nat);
        if in_subtree(p, p[a], x) {
            let j = choose|j: nat| reaches(p, p[a], x, j);
            assert(reaches(p, a, x, j + 1));
        } else {
            let j = choose|j: nat| reaches(p2, p[a], c, j);
            assert(reaches(p2, a, c, j + 1));
        }
    }
}

/// A search for a node that no link points to only succeeds from the node
/// itself.
pub proof fn lemma_reaches_unlinked(p: Map<u64, u64>, a: u64, x: u64, k: nat)
    requires
        reaches(p, a, x, k),
        a != x,
    ensures
        exists|y: u64| p.contains_key(y) && #[trigger] p[y] == x,
    decreases k,
{
    if p[a] == x {
        assert(p.contains_key(a) && p[a] == x);
    } else {
        lemma_reaches_unlinked(p, p[a], x, (k - 1) as nat);
    }
}

} // verus!
