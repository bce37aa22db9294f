use quartz_engine::node::NodeId;
use quartz_engine::tree::Tree;

fn parts(tree: &Tree<u8>) -> (Vec<(NodeId, u8)>, Vec<(NodeId, NodeId)>, Vec<(NodeId, Vec<NodeId>)>, Vec<NodeId>) {
    let nodes = tree.nodes().into_iter().map(|id| (id, *tree.node(id).unwrap())).collect();
    let lists = tree
        .list_owners()
        .into_iter()
        .map(|id| (id, tree.get_children(id).clone()))
        .collect();
    (nodes, tree.parent_links(), lists, tree.base())
}

#[test]
fn tree_read_back_from_its_parts_is_the_same() {
    let mut tree: Tree<u8> = Tree::new();
    let a = tree.spawn(10);
    let b = tree.spawn(20);
    let c = tree.spawn_child(30, a).unwrap();
    let d = tree.spawn_child(40, c).unwrap();
    let gone = tree.spawn(50);
    tree.set_parent(b, Some(a));
    assert_eq!(tree.remove_recursive(gone), Ok(()));
    let (nodes, links, lists, roots) = parts(&tree);
    let mut back: Tree<u8> = Tree::from_parts(nodes, links, lists, roots);
    assert_eq!(back.len(), 4);
    for id in [a, b, c, d] {
        assert_eq!(back.node(id), tree.node(id));
        assert_eq!(back.get_parent(id), tree.get_parent(id));
        assert_eq!(back.get_children(id), tree.get_children(id));
    }
    assert_eq!(back.get_children(a), &vec![c, b]);
    let mut r1 = back.base();
    r1.sort_by_key(|n| n.0);
    // Removing a node leaves its id among the roots, as it was.
    assert_eq!(r1, vec![a, gone]);
    let mut r0 = tree.base();
    r0.sort_by_key(|n| n.0);
    assert_eq!(r1, r0);
    // The removed node had the largest id: the next id read back is one
    // more than the largest id left.
    assert_eq!(back.generate_id(), NodeId(4));
    assert_eq!(tree.generate_id(), NodeId(5));
}
